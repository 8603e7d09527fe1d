//! Evidence: a tree of objects, arrays and scalars.

use vstd::prelude::*;
use crate::text::str_eq;

verus! {

/// One node of an evidence tree.
///
/// A number is kept as the text it was written with. An object is a list of
/// members; where a name occurs more than once, the member written last is
/// the one the object holds.
#[derive(Debug, PartialEq, Eq)]
pub enum Value {
    Null,
    Bool(bool),
    Number(String),
    String(String),
    Array(Vec<Value>),
    Object(Vec<(String, Value)>),
}

/// The value that a list of members gives to `key`: that of the last member
/// of that name.
pub open spec fn lookup(members: Seq<(String, Value)>, key: Seq<char>) -> Option<Value>
    decreases members.len(),
{
    if members.len() == 0 {
        None
    } else if members.last().0@ == key {
        Some(members.last().1)
    } else {
        lookup(members.drop_last(), key)
    }
}

/// The two values are one tree: of one kind, with the same text, and with
/// the same items or members in the same order.
pub open spec fn same_tree(a: Value, b: Value) -> bool
    decreases a,
{
    match a {
        Value::Null => b is Null,
        Value::Bool(x) => b matches Value::Bool(y) && x == y,
        Value::Number(x) => b matches Value::Number(y) && x@ == y@,
        Value::String(x) => b matches Value::String(y) && x@ == y@,
        Value::Array(x) => b matches Value::Array(y) && x@.len() == y@.len() && forall|i: int|
            0 <= i < x@.len() ==> same_tree(#[trigger] x@[i], y@[i]),
        Value::Object(x) => b matches Value::Object(y) && x@.len() == y@.len() && forall|i: int|
            0 <= i < x@.len() ==> (#[trigger] x@[i]).0@ == y@[i].0@ && same_tree(x@[i].1, y@[i].1),
    }
}

impl Clone for Value {
    /// A copy of the tree.
    fn clone(&self) -> (copy: Value)
        ensures
            same_tree(*self, copy),
        decreases self,
    {
        match self {
            Value::Null => Value::Null,
            Value::Bool(b) => Value::Bool(*b),
            Value::Number(text) => Value::Number(text.clone()),
            Value::String(text) => Value::String(text.clone()),
            Value::Array(items) => {
                let mut copies: Vec<Value> = Vec::new();
                let mut i: usize = 0;
                while i < items.len()
                    invariant
                        i <= items.len(),
                        *self is Array,
                        (*self)->Array_0 == *items,
                        copies@.len() == i,
                        forall|k: int| 0 <= k < i ==> same_tree(#[trigger] items@[k], copies@[k]),
                    decreases items.len() - i,
                {
                    proof {
                        assert(decreases_to!(*self => (*self)->Array_0));
                        assert(decreases_to!(*items => items@));
                        assert(decreases_to!(items@ => items@[i as int]));
                    }
                    copies.push(items[i].clone());
                    i += 1;
                }
                Value::Array(copies)
            },
            Value::Object(members) => {
                let mut copies: Vec<(String, Value)> = Vec::new();
                let mut i: usize = 0;
                while i < members.len()
                    invariant
                        i <= members.len(),
                        *self is Object,
                        (*self)->Object_0 == *members,
                        copies@.len() == i,
                        forall|k: int|
                            0 <= k < i ==> (#[trigger] members@[k]).0@ == copies@[k].0@ && same_tree(
                                members@[k].1,
                                copies@[k].1,
                            ),
                    decreases members.len() - i,
                {
                    proof {
                        assert(decreases_to!(*self => (*self)->Object_0));
                        assert(decreases_to!(*members => members@));
                        assert(decreases_to!(members@ => members@[i as int]));
                        assert(decreases_to!(members@[i as int] => members@[i as int].1));
                    }
                    copies.push((members[i].0.clone(), members[i].1.clone()));
                    i += 1;
                }
                Value::Object(copies)
            },
        }
    }
}

impl Value {
    /// The member `key` of an object; nothing for any other node.
    pub open spec fn member(self, key: Seq<char>) -> Option<Value> {
        match self {
            Value::Object(members) => lookup(members@, key),
            _ => None,
        }
    }

    /// The text of a string node; nothing for any other node.
    pub open spec fn text(self) -> Option<Seq<char>> {
        match self {
            Value::String(s) => Some(s@),
            _ => None,
        }
    }

    /// Looks up a member of an object by name.
    pub fn get(&self, key: &str) -> (r: Option<&Value>)
        ensures
            match r {
                Some(v) => self.member(key@) == Some(*v),
                None => self.member(key@) is None,
            },
    {
        match self {
            Value::Object(members) => {
                let mut i: usize = members.len();
                assert(members@.take(i as int) =~= members@);
                while i > 0
                    invariant
                        i <= members.len(),
                        self.member(key@) == lookup(members@, key@),
                        lookup(members@, key@) == lookup(members@.take(i as int), key@),
                    decreases i,
                {
                    let ghost prefix = members@.take(i as int);
                    assert(prefix.last() == members@[i - 1]);
                    assert(prefix.drop_last() =~= members@.take(i - 1));
                    if str_eq(members[i - 1].0.as_str(), key) {
                        assert(lookup(prefix, key@) == Some(members@[i - 1].1));
                        return Some(&members[i - 1].1);
                    }
                    assert(lookup(prefix, key@) == lookup(prefix.drop_last(), key@));
                    i -= 1;
                }
                None
            },
            _ => None,
        }
    }

    /// The text of a string node.
    pub fn as_str(&self) -> (r: Option<&str>)
        ensures
            match r {
                Some(s) => self.text() == Some(s@),
                None => self.text() is None,
            },
    {
        match self {
            Value::String(s) => Some(s.as_str()),
            _ => None,
        }
    }
}

} // verus!
