//! Member lists in normal form: what the order of an object's members does
//! and does not change.
//!
//! A member list stands for a map from names to values, the last entry of a
//! name giving its value. Normalizing keeps that map and forgets everything
//! else about the list, so two lists that stand for one map are written the
//! same.

use vstd::prelude::*;
use crate::canonical::{canonical, insert, member_entries, normalized, object_bytes, Entry};
use crate::value::Value;
use crate::text::{
    bytes_before, lemma_before_asymmetric, lemma_before_irreflexive, lemma_before_total,
    lemma_before_transitive,
};

verus! {

/// The value that the entries give to `key`: that of the last entry of that
/// name.
pub open spec fn entry_value(entries: Seq<Entry>, key: Seq<u8>) -> Option<Seq<u8>>
    decreases entries.len(),
{
    if entries.len() == 0 {
        None
    } else if entries.last().0 == key {
        Some(entries.last().1)
    } else {
        entry_value(entries.drop_last(), key)
    }
}

/// Two lists stand for the same map.
pub open spec fn same_map(a: Seq<Entry>, b: Seq<Entry>) -> bool {
    forall|key: Seq<u8>| entry_value(a, key) == entry_value(b, key)
}

/// The names rise strictly from each entry to the next.
pub open spec fn strictly_sorted(entries: Seq<Entry>) -> bool {
    forall|i: int, j: int|
        0 <= i < j < entries.len() ==> bytes_before(
            (#[trigger] entries[i]).0,
            (#[trigger] entries[j]).0,
        )
}

/// The value is in normal form: in each object, down to the leaves, the
/// members stand in the byte order of their names, each name once.
pub open spec fn in_normal_form(v: Value) -> bool
    decreases v,
{
    match v {
        Value::Array(items) => forall|i: int|
            0 <= i < items@.len() ==> in_normal_form(#[trigger] items@[i]),
        Value::Object(list) => strictly_sorted(member_entries(list@)) && forall|i: int|
            0 <= i < list@.len() ==> in_normal_form((#[trigger] list@[i]).1),
        _ => true,
    }
}

/// Every name in the list comes before `bound`.
pub open spec fn all_before(entries: Seq<Entry>, bound: Seq<u8>) -> bool {
    forall|i: int| 0 <= i < entries.len() ==> bytes_before((#[trigger] entries[i]).0, bound)
}

/// A name that no entry has is given no value.
pub proof fn lemma_absent(entries: Seq<Entry>, key: Seq<u8>)
    requires
        forall|i: int| 0 <= i < entries.len() ==> (#[trigger] entries[i]).0 != key,
    ensures
        entry_value(entries, key) is None,
    decreases entries.len(),
{
    if entries.len() > 0 {
        assert(entries.last() == entries[entries.len() - 1]);
        lemma_absent(entries.drop_last(), key);
    }
}

/// A name that is given a value is the name of some entry.
pub proof fn lemma_present(entries: Seq<Entry>, key: Seq<u8>) -> (i: int)
    requires
        entry_value(entries, key) is Some,
    ensures
        0 <= i < entries.len(),
        entries[i].0 == key,
    decreases entries.len(),
{
    if entries.last().0 == key {
        entries.len() - 1
    } else {
        lemma_present(entries.drop_last(), key)
    }
}

/// In a sorted list each entry gives its own name its own value.
pub proof fn lemma_sorted_value(entries: Seq<Entry>, i: int)
    requires
        strictly_sorted(entries),
        0 <= i < entries.len(),
    ensures
        entry_value(entries, entries[i].0) == Some(entries[i].1),
    decreases entries.len(),
{
    if i < entries.len() - 1 {
        assert(bytes_before(entries[i].0, entries[entries.len() - 1].0));
        lemma_before_irreflexive(entries[i].0);
        assert(strictly_sorted(entries.drop_last())) by {
            assert forall|a: int, b: int| 0 <= a < b < entries.drop_last().len() implies bytes_before(
                (#[trigger] entries.drop_last()[a]).0,
                (#[trigger] entries.drop_last()[b]).0,
            ) by {
                assert(entries.drop_last()[a] == entries[a]);
                assert(entries.drop_last()[b] == entries[b]);
            }
        }
        assert(entries.drop_last()[i] == entries[i]);
        lemma_sorted_value(entries.drop_last(), i);
    }
}

/// Inserting keeps whatever bound held of the names.
pub proof fn lemma_insert_bounded(sorted: Seq<Entry>, entry: Entry, bound: Seq<u8>)
    requires
        all_before(sorted, bound),
        bytes_before(entry.0, bound),
    ensures
        all_before(insert(sorted, entry), bound),
    decreases sorted.len(),
{
    if sorted.len() == 0 {
    } else if sorted.last().0 == entry.0 {
        assert forall|i: int| 0 <= i < insert(sorted, entry).len() implies bytes_before(
            (#[trigger] insert(sorted, entry)[i]).0,
            bound,
        ) by {
            if i < sorted.len() - 1 {
                assert(insert(sorted, entry)[i] == sorted[i]);
            }
        }
    } else if bytes_before(sorted.last().0, entry.0) {
        assert forall|i: int| 0 <= i < insert(sorted, entry).len() implies bytes_before(
            (#[trigger] insert(sorted, entry)[i]).0,
            bound,
        ) by {
            if i < sorted.len() {
                assert(insert(sorted, entry)[i] == sorted[i]);
            }
        }
    } else {
        assert(all_before(sorted.drop_last(), bound)) by {
            assert forall|i: int| 0 <= i < sorted.drop_last().len() implies bytes_before(
                (#[trigger] sorted.drop_last()[i]).0,
                bound,
            ) by {
                assert(sorted.drop_last()[i] == sorted[i]);
            }
        }
        lemma_insert_bounded(sorted.drop_last(), entry, bound);
        let inner = insert(sorted.drop_last(), entry);
        assert forall|i: int| 0 <= i < insert(sorted, entry).len() implies bytes_before(
            (#[trigger] insert(sorted, entry)[i]).0,
            bound,
        ) by {
            if i < inner.len() {
                assert(insert(sorted, entry)[i] == inner[i]);
            } else {
                assert(insert(sorted, entry)[i] == sorted[sorted.len() - 1]);
            }
        }
    }
}

/// Inserting into a sorted list gives a sorted list.
pub proof fn lemma_insert_sorted(sorted: Seq<Entry>, entry: Entry)
    requires
        strictly_sorted(sorted),
    ensures
        strictly_sorted(insert(sorted, entry)),
    decreases sorted.len(),
{
    let result = insert(sorted, entry);
    if sorted.len() == 0 {
    } else {
        let last = sorted.last();
        let front = sorted.drop_last();
        assert(last == sorted[sorted.len() - 1]);
        assert(strictly_sorted(front) && all_before(front, last.0)) by {
            assert forall|a: int, b: int| 0 <= a < b < front.len() implies bytes_before(
                (#[trigger] front[a]).0,
                (#[trigger] front[b]).0,
            ) by {
                assert(front[a] == sorted[a]);
                assert(front[b] == sorted[b]);
            }
            assert forall|a: int| 0 <= a < front.len() implies bytes_before(
                (#[trigger] front[a]).0,
                last.0,
            ) by {
                assert(front[a] == sorted[a]);
            }
        }
        if last.0 == entry.0 {
            assert forall|a: int, b: int| 0 <= a < b < result.len() implies bytes_before(
                (#[trigger] result[a]).0,
                (#[trigger] result[b]).0,
            ) by {
                assert(result[a] == front[a]);
                if b < front.len() {
                    assert(result[b] == front[b]);
                } else {
                    assert(result[b] == entry);
                }
            }
        } else if bytes_before(last.0, entry.0) {
            assert forall|a: int, b: int| 0 <= a < b < result.len() implies bytes_before(
                (#[trigger] result[a]).0,
                (#[trigger] result[b]).0,
            ) by {
                assert(result[a] == sorted[a]);
                if b < sorted.len() {
                    assert(result[b] == sorted[b]);
                } else {
                    assert(result[b] == entry);
                    if a < front.len() {
                        assert(bytes_before(sorted[a].0, last.0));
                        lemma_before_transitive(sorted[a].0, last.0, entry.0);
                    }
                }
            }
        } else {
            lemma_before_total(last.0, entry.0);
            lemma_insert_sorted(front, entry);
            lemma_insert_bounded(front, entry, last.0);
            let inner = insert(front, entry);
            assert forall|a: int, b: int| 0 <= a < b < result.len() implies bytes_before(
                (#[trigger] result[a]).0,
                (#[trigger] result[b]).0,
            ) by {
                assert(result[a] == inner[a]);
                if b < inner.len() {
                    assert(result[b] == inner[b]);
                } else {
                    assert(result[b] == last);
                }
            }
        }
    }
}

/// Inserting gives the entry's name the entry's value and leaves every other
/// name as it was.
pub proof fn lemma_insert_value(sorted: Seq<Entry>, entry: Entry, key: Seq<u8>)
    requires
        strictly_sorted(sorted),
    ensures
        entry_value(insert(sorted, entry), key) == if key == entry.0 {
            Some(entry.1)
        } else {
            entry_value(sorted, key)
        },
    decreases sorted.len(),
{
    let result = insert(sorted, entry);
    if sorted.len() == 0 {
        assert(result.drop_last() =~= Seq::<Entry>::empty());
    } else {
        let last = sorted.last();
        let front = sorted.drop_last();
        if last.0 == entry.0 {
            assert(result.drop_last() =~= front);
        } else if bytes_before(last.0, entry.0) {
            assert(result.drop_last() =~= sorted);
        } else {
            assert(result.drop_last() =~= insert(front, entry));
            assert(result.last() == last);
            assert(strictly_sorted(front)) by {
                assert forall|a: int, b: int| 0 <= a < b < front.len() implies bytes_before(
                    (#[trigger] front[a]).0,
                    (#[trigger] front[b]).0,
                ) by {
                    assert(front[a] == sorted[a]);
                    assert(front[b] == sorted[b]);
                }
            }
            lemma_insert_value(front, entry, key);
        }
    }
}

/// The normal form is sorted.
pub proof fn lemma_normalized_sorted(entries: Seq<Entry>)
    ensures
        strictly_sorted(normalized(entries)),
    decreases entries.len(),
{
    if entries.len() > 0 {
        lemma_normalized_sorted(entries.drop_last());
        lemma_insert_sorted(normalized(entries.drop_last()), entries.last());
    }
}

/// The normal form gives every name the value that the list gives it.
pub proof fn lemma_normalized_value(entries: Seq<Entry>, key: Seq<u8>)
    ensures
        entry_value(normalized(entries), key) == entry_value(entries, key),
    decreases entries.len(),
{
    if entries.len() > 0 {
        lemma_normalized_sorted(entries.drop_last());
        lemma_normalized_value(entries.drop_last(), key);
        lemma_insert_value(normalized(entries.drop_last()), entries.last(), key);
    }
}

/// Two sorted lists that stand for one map are one list.
pub proof fn lemma_sorted_unique(a: Seq<Entry>, b: Seq<Entry>)
    requires
        strictly_sorted(a),
        strictly_sorted(b),
        same_map(a, b),
    ensures
        a == b,
    decreases a.len(),
{
    if a.len() == 0 {
        if b.len() > 0 {
            lemma_sorted_value(b, 0);
            assert(entry_value(a, b[0].0) == entry_value(b, b[0].0));
        }
        assert(a =~= b);
    } else if b.len() == 0 {
        lemma_sorted_value(a, 0);
        assert(entry_value(a, a[0].0) == entry_value(b, a[0].0));
    } else {
        let la = a.last();
        let lb = b.last();
        lemma_sorted_value(a, a.len() - 1);
        lemma_sorted_value(b, b.len() - 1);
        assert(entry_value(a, la.0) == entry_value(b, la.0));
        assert(entry_value(a, lb.0) == entry_value(b, lb.0));
        let ia = lemma_present(a, lb.0);
        let ib = lemma_present(b, la.0);
        // la.0 is a name of b, so it is lb.0 or before it; and the other way round.
        if ib < b.len() - 1 {
            assert(bytes_before(b[ib].0, b[b.len() - 1].0));
        }
        if ia < a.len() - 1 {
            assert(bytes_before(a[ia].0, a[a.len() - 1].0));
        }
        lemma_before_asymmetric(la.0, lb.0);
        assert(la.0 == lb.0);
        assert(la.1 == lb.1);
        let fa = a.drop_last();
        let fb = b.drop_last();
        assert(strictly_sorted(fa)) by {
            assert forall|i: int, j: int| 0 <= i < j < fa.len() implies bytes_before(
                (#[trigger] fa[i]).0,
                (#[trigger] fa[j]).0,
            ) by {
                assert(fa[i] == a[i]);
                assert(fa[j] == a[j]);
            }
        }
        assert(strictly_sorted(fb)) by {
            assert forall|i: int, j: int| 0 <= i < j < fb.len() implies bytes_before(
                (#[trigger] fb[i]).0,
                (#[trigger] fb[j]).0,
            ) by {
                assert(fb[i] == b[i]);
                assert(fb[j] == b[j]);
            }
        }
        assert forall|key: Seq<u8>| entry_value(fa, key) == entry_value(fb, key) by {
            if key == la.0 {
                assert forall|i: int| 0 <= i < fa.len() implies (#[trigger] fa[i]).0 != key by {
                    assert(fa[i] == a[i]);
                    assert(bytes_before(a[i].0, a[a.len() - 1].0));
                    lemma_before_irreflexive(key);
                }
                assert forall|i: int| 0 <= i < fb.len() implies (#[trigger] fb[i]).0 != key by {
                    assert(fb[i] == b[i]);
                    assert(bytes_before(b[i].0, b[b.len() - 1].0));
                    lemma_before_irreflexive(key);
                }
                lemma_absent(fa, key);
                lemma_absent(fb, key);
            } else {
                assert(entry_value(a, key) == entry_value(b, key));
            }
        }
        lemma_sorted_unique(fa, fb);
        assert(a =~= fa.push(la));
        assert(b =~= fb.push(lb));
    }
}

/// Lists that stand for one map have one normal form, and so are written the
/// same: neither the order of the entries nor an entry that a later one
/// overrides shows in the canonical form of an object.
pub proof fn lemma_order_irrelevant(a: Seq<Entry>, b: Seq<Entry>)
    requires
        same_map(a, b),
    ensures
        normalized(a) == normalized(b),
        object_bytes(a) == object_bytes(b),
{
    lemma_normalized_sorted(a);
    lemma_normalized_sorted(b);
    assert forall|key: Seq<u8>| entry_value(normalized(a), key) == entry_value(normalized(b), key) by {
        lemma_normalized_value(a, key);
        lemma_normalized_value(b, key);
        assert(entry_value(a, key) == entry_value(b, key));
    }
    lemma_sorted_unique(normalized(a), normalized(b));
}

/// A sorted list is its own normal form.
pub proof fn lemma_sorted_is_normal(entries: Seq<Entry>)
    requires
        strictly_sorted(entries),
    ensures
        normalized(entries) == entries,
{
    lemma_normalized_sorted(entries);
    assert forall|key: Seq<u8>| entry_value(normalized(entries), key) == entry_value(entries, key) by {
        lemma_normalized_value(entries, key);
    }
    lemma_sorted_unique(normalized(entries), entries);
}

/// The canonical form of an object does not tell in which order its members
/// were written: two objects whose members give every name the same
/// canonical value have one canonical form.
pub proof fn lemma_member_order_irrelevant(a: Value, b: Value)
    requires
        a is Object,
        b is Object,
        same_map(member_entries(a->Object_0@), member_entries(b->Object_0@)),
    ensures
        canonical(a) == canonical(b),
{
    lemma_order_irrelevant(member_entries(a->Object_0@), member_entries(b->Object_0@));
}

/// A sorted list stays sorted when an entry whose name comes after the last
/// one is put at its end.
pub proof fn lemma_sorted_push(entries: Seq<Entry>, entry: Entry)
    requires
        strictly_sorted(entries),
        entries.len() > 0 ==> bytes_before(entries.last().0, entry.0),
    ensures
        strictly_sorted(entries.push(entry)),
{
    let longer = entries.push(entry);
    assert forall|i: int, j: int| 0 <= i < j < longer.len() implies bytes_before(
        (#[trigger] longer[i]).0,
        (#[trigger] longer[j]).0,
    ) by {
        assert(longer[i] == entries[i]);
        if j < entries.len() {
            assert(longer[j] == entries[j]);
        } else {
            assert(longer[j] == entry);
            assert(entries.last() == entries[entries.len() - 1]);
            if i < entries.len() - 1 {
                assert(bytes_before(entries[i].0, entries[entries.len() - 1].0));
                lemma_before_transitive(entries[i].0, entries.last().0, entry.0);
            }
        }
    }
}

/// Every pair of `a` is a pair of `b`.
pub open spec fn contained(a: Seq<Entry>, b: Seq<Entry>) -> bool {
    forall|i: int| 0 <= i < a.len() ==> exists|j: int| 0 <= j < b.len() && b[j] == #[trigger] a[i]
}

/// Inserting an entry of a list into a part of that list gives a part of
/// that list.
pub proof fn lemma_insert_contained(sorted: Seq<Entry>, entry: Entry, all: Seq<Entry>)
    requires
        contained(sorted, all),
        exists|j: int| 0 <= j < all.len() && all[j] == entry,
    ensures
        contained(insert(sorted, entry), all),
    decreases sorted.len(),
{
    let result = insert(sorted, entry);
    if sorted.len() == 0 {
        assert forall|i: int| 0 <= i < result.len() implies exists|j: int|
            0 <= j < all.len() && all[j] == #[trigger] result[i] by {
            assert(result[i] == entry);
        }
    } else if sorted.last().0 == entry.0 {
        assert forall|i: int| 0 <= i < result.len() implies exists|j: int|
            0 <= j < all.len() && all[j] == #[trigger] result[i] by {
            if i < sorted.len() - 1 {
                assert(result[i] == sorted[i]);
            } else {
                assert(result[i] == entry);
            }
        }
    } else if bytes_before(sorted.last().0, entry.0) {
        assert forall|i: int| 0 <= i < result.len() implies exists|j: int|
            0 <= j < all.len() && all[j] == #[trigger] result[i] by {
            if i < sorted.len() {
                assert(result[i] == sorted[i]);
            } else {
                assert(result[i] == entry);
            }
        }
    } else {
        let front = sorted.drop_last();
        assert(contained(front, all)) by {
            assert forall|i: int| 0 <= i < front.len() implies exists|j: int|
                0 <= j < all.len() && all[j] == #[trigger] front[i] by {
                assert(front[i] == sorted[i]);
            }
        }
        lemma_insert_contained(front, entry, all);
        let inner = insert(front, entry);
        assert forall|i: int| 0 <= i < result.len() implies exists|j: int|
            0 <= j < all.len() && all[j] == #[trigger] result[i] by {
            if i < inner.len() {
                assert(result[i] == inner[i]);
            } else {
                assert(result[i] == sorted[sorted.len() - 1]);
            }
        }
    }
}

/// The normal form of a list holds entries of that list only, and is empty
/// only if the list is.
pub proof fn lemma_normalized_contained(entries: Seq<Entry>)
    ensures
        contained(normalized(entries), entries),
        entries.len() > 0 ==> normalized(entries).len() > 0,
    decreases entries.len(),
{
    if entries.len() > 0 {
        let front = entries.drop_last();
        lemma_normalized_contained(front);
        assert(contained(normalized(front), entries)) by {
            assert forall|i: int| 0 <= i < normalized(front).len() implies exists|j: int|
                0 <= j < entries.len() && entries[j] == #[trigger] normalized(front)[i] by {
                let j = choose|j: int| 0 <= j < front.len() && front[j] == normalized(front)[i];
                assert(entries[j] == front[j]);
            }
        }
        assert(entries[entries.len() - 1] == entries.last());
        lemma_insert_contained(normalized(front), entries.last(), entries);
    }
}

} // verus!
