//! Number trees as the standard has them, with their keys in order and limits that fit.

use vstd::prelude::*;

use crate::number_tree::{
    last_entry, listed, listed_entry, listed_in, lower_bound, lower_bound_in, TreeContent, TreeNode,
};
use crate::object::Value;

verus! {

/// The entries of `node` and of the nodes under it, in order.
pub open spec fn all_entries(node: TreeNode) -> Seq<(i64, Value)>
    decreases node, 0nat,
{
    match node.content {
        TreeContent::Entries(entries) => entries,
        TreeContent::Kids(kids) => entries_in(kids),
        TreeContent::Nothing => Seq::empty(),
    }
}

/// The entries of `kids`, in order.
pub open spec fn entries_in(kids: Seq<TreeNode>) -> Seq<(i64, Value)>
    decreases kids, kids.len(),
{
    if kids.len() == 0 {
        Seq::empty()
    } else {
        all_entries(kids[0]) + entries_in(kids.drop_first())
    }
}

/// Whether each key is larger than the one before it.
pub open spec fn keys_increase(entries: Seq<(i64, Value)>) -> bool {
    forall|i: int, j: int|
        0 <= i < j < entries.len() ==> (#[trigger] entries[i]).0 < (#[trigger] entries[j]).0
}

/// Whether the keys of `node` are in order, and the limits of each node are its least and its
/// greatest key.
pub open spec fn is_sorted(node: TreeNode) -> bool
    decreases node, 0nat,
{
    let entries = all_entries(node);
    &&& keys_increase(entries)
    &&& node.limits matches Some((low, high)) ==> entries.len() > 0 && low == entries[0].0 && high
        == entries.last().0
    &&& match node.content {
        TreeContent::Kids(kids) => all_sorted(kids),
        _ => true,
    }
}

/// Whether each of `kids` is sorted.
pub open spec fn all_sorted(kids: Seq<TreeNode>) -> bool
    decreases kids, kids.len(),
{
    kids.len() > 0 ==> is_sorted(kids[0]) && all_sorted(kids.drop_first())
}

/// The standard's lower bound: the entry with the largest key that is not above `number`.
pub open spec fn is_standard_bound(
    entries: Seq<(i64, Value)>,
    number: i64,
    found: Option<(i64, Value)>,
) -> bool {
    match found {
        Some(entry) => {
            &&& entries.contains(entry)
            &&& entry.0 <= number
            &&& forall|i: int|
                #![trigger entries[i]]
                0 <= i < entries.len() && entries[i].0 <= number ==> entries[i].0 <= entry.0
        },
        None => forall|i: int| #![trigger entries[i]] 0 <= i < entries.len() ==> entries[i].0 > number,
    }
}

proof fn lemma_listed_above(entries: Seq<(i64, Value)>, key: i64)
    requires
        forall|i: int| 0 <= i < entries.len() ==> (#[trigger] entries[i]).0 < key,
    ensures
        listed_entry(entries, key) is None,
    decreases entries.len(),
{
    if entries.len() > 0 {
        lemma_listed_above(entries.drop_first(), key);
    }
}

proof fn lemma_listed_last(entries: Seq<(i64, Value)>)
    requires
        keys_increase(entries),
        entries.len() > 0,
    ensures
        listed_entry(entries, entries.last().0) == Some(entries.last().1),
    decreases entries.len(),
{
    if entries.len() > 1 {
        lemma_listed_last(entries.drop_first());
        assert(entries[0].0 < entries[entries.len() - 1].0);
    }
}

proof fn lemma_listed_concat(a: Seq<(i64, Value)>, b: Seq<(i64, Value)>, key: i64)
    requires
        keys_increase(a + b),
    ensures
        listed_entry(a + b, key) == match listed_entry(a, key) {
            Some(value) => Some(value),
            None => listed_entry(b, key),
        },
    decreases a.len(),
{
    let whole = a + b;
    if a.len() == 0 {
        assert(whole =~= b);
    } else {
        assert(whole[0] == a[0]);
        assert(whole.drop_first() =~= a.drop_first() + b);
        assert forall|i: int, j: int| 0 <= i < j < whole.drop_first().len() implies (
        #[trigger] whole.drop_first()[i]).0 < (#[trigger] whole.drop_first()[j]).0 by {
            assert(whole[i + 1].0 < whole[j + 1].0);
        }
        lemma_listed_concat(a.drop_first(), b, key);
        if a[0].0 > key && b.len() > 0 {
            assert(whole[a.len() as int] == b[0]);
            assert(whole[0].0 < whole[a.len() as int].0);
        }
    }
}

proof fn lemma_parts_increase(a: Seq<(i64, Value)>, b: Seq<(i64, Value)>)
    requires
        keys_increase(a + b),
    ensures
        keys_increase(a),
        keys_increase(b),
{
    let whole = a + b;
    assert forall|i: int, j: int| 0 <= i < j < a.len() implies (#[trigger] a[i]).0 < (
    #[trigger] a[j]).0 by {
        assert(whole[i].0 < whole[j].0);
    }
    assert forall|i: int, j: int| 0 <= i < j < b.len() implies (#[trigger] b[i]).0 < (
    #[trigger] b[j]).0 by {
        assert(whole[a.len() + i].0 < whole[a.len() + j].0);
    }
}

/// An exact lookup in a sorted tree finds what its entries list.
pub proof fn lemma_listed_in_order(node: TreeNode, key: i64)
    requires
        is_sorted(node),
    ensures
        listed(node, key) == listed_entry(all_entries(node), key),
    decreases node, 0nat,
{
    let entries = all_entries(node);
    if let TreeContent::Kids(kids) = node.content {
        lemma_kids_listed_in_order(kids, key);
    }
    if let Some((low, high)) = node.limits {
        if key > high {
            assert forall|i: int| 0 <= i < entries.len() implies (#[trigger] entries[i]).0 < key by {
                if i < entries.len() - 1 {
                    assert(entries[i].0 < entries[entries.len() - 1].0);
                }
            }
            lemma_listed_above(entries, key);
        }
    }
}

proof fn lemma_kids_listed_in_order(kids: Seq<TreeNode>, key: i64)
    requires
        all_sorted(kids),
        keys_increase(entries_in(kids)),
    ensures
        listed_in(kids, key) == listed_entry(entries_in(kids), key),
    decreases kids, kids.len(),
{
    if kids.len() > 0 {
        let first = all_entries(kids[0]);
        let rest = entries_in(kids.drop_first());
        lemma_parts_increase(first, rest);
        lemma_listed_in_order(kids[0], key);
        lemma_kids_listed_in_order(kids.drop_first(), key);
        lemma_listed_concat(first, rest, key);
    }
}

proof fn lemma_last_entry_concat(a: Seq<(i64, Value)>, b: Seq<(i64, Value)>, number: i64)
    ensures
        last_entry(a + b, number) == match last_entry(b, number) {
            Some(entry) => Some(entry),
            None => last_entry(a, number),
        },
    decreases b.len(),
{
    if b.len() == 0 {
        assert(a + b =~= a);
    } else {
        assert((a + b).drop_last() =~= a + b.drop_last());
        assert((a + b).last() == b.last());
        lemma_last_entry_concat(a, b.drop_last(), number);
    }
}

proof fn lemma_entries_behind(kids: Seq<TreeNode>)
    requires
        kids.len() > 0,
        all_sorted(kids),
    ensures
        entries_in(kids) == entries_in(kids.drop_last()) + all_entries(kids.last()),
        all_sorted(kids.drop_last()),
        is_sorted(kids.last()),
    decreases kids.len(),
{
    if kids.len() == 1 {
        assert(kids.drop_first() =~= Seq::<TreeNode>::empty());
        assert(entries_in(kids.drop_first()) =~= Seq::<(i64, Value)>::empty());
        assert(entries_in(kids.drop_last()) =~= Seq::<(i64, Value)>::empty());
        assert(entries_in(kids) =~= all_entries(kids[0]));
        assert(entries_in(kids.drop_last()) + all_entries(kids.last()) =~= all_entries(kids[0]));
    } else {
        let rest = kids.drop_first();
        lemma_entries_behind(rest);
        assert(rest.last() == kids.last());
        assert(kids.drop_last().drop_first() =~= rest.drop_last());
        assert(kids.drop_last()[0] == kids[0]);
        assert(entries_in(kids) =~= entries_in(kids.drop_last()) + all_entries(kids.last()));
    }
}

proof fn lemma_last_of_all(entries: Seq<(i64, Value)>, number: i64)
    requires
        keys_increase(entries),
        entries.len() > 0,
    ensures
        number >= entries.last().0 ==> last_entry(entries, number) == Some(entries.last()),
        number < entries[0].0 ==> last_entry(entries, number) is None,
    decreases entries.len(),
{
    if number < entries[0].0 {
        if entries.len() > 1 {
            assert(entries[0].0 < entries[entries.len() - 1].0);
            let head = entries.drop_last();
            assert forall|i: int, j: int| 0 <= i < j < head.len() implies (#[trigger] head[i]).0 < (
            #[trigger] head[j]).0 by {
                assert(entries[i].0 < entries[j].0);
            }
            lemma_last_of_all(head, number);
        } else {
            assert(last_entry(entries.drop_last(), number) is None);
        }
    }
}

proof fn lemma_bound_is_last_entry(node: TreeNode, number: i64)
    requires
        is_sorted(node),
    ensures
        lower_bound(node, number) == match last_entry(all_entries(node), number) {
            Some((key, value)) => Some((key, Some(value))),
            None => None,
        },
    decreases node, 0nat,
{
    let entries = all_entries(node);
    if let TreeContent::Kids(kids) = node.content {
        lemma_kids_bound_is_last_entry(kids, number);
    }
    if let Some((low, high)) = node.limits {
        lemma_last_of_all(entries, number);
        if number >= high {
            lemma_listed_in_order(node, high);
            lemma_listed_last(entries);
        }
    }
}

proof fn lemma_kids_bound_is_last_entry(kids: Seq<TreeNode>, number: i64)
    requires
        all_sorted(kids),
        keys_increase(entries_in(kids)),
    ensures
        lower_bound_in(kids, number) == match last_entry(entries_in(kids), number) {
            Some((key, value)) => Some((key, Some(value))),
            None => None,
        },
    decreases kids, kids.len(),
{
    if kids.len() > 0 {
        lemma_entries_behind(kids);
        let before = entries_in(kids.drop_last());
        let last = all_entries(kids.last());
        lemma_parts_increase(before, last);
        lemma_last_entry_concat(before, last, number);
        lemma_bound_is_last_entry(kids.last(), number);
        lemma_kids_bound_is_last_entry(kids.drop_last(), number);
    }
}

proof fn lemma_last_entry_is_standard(entries: Seq<(i64, Value)>, number: i64)
    requires
        keys_increase(entries),
    ensures
        is_standard_bound(entries, number, last_entry(entries, number)),
    decreases entries.len(),
{
    if entries.len() > 0 {
        let head = entries.drop_last();
        let end = entries.len() - 1;
        if entries.last().0 <= number {
            assert(entries[end] == entries.last());
            assert forall|i: int|
                #![trigger entries[i]]
                0 <= i < entries.len() && entries[i].0 <= number implies entries[i].0
                <= entries.last().0 by {
                if i < end {
                    assert(entries[i].0 < entries[end].0);
                }
            }
        } else {
            assert forall|i: int, j: int| 0 <= i < j < head.len() implies (#[trigger] head[i]).0 < (
            #[trigger] head[j]).0 by {
                assert(entries[i].0 < entries[j].0);
            }
            lemma_last_entry_is_standard(head, number);
            match last_entry(entries, number) {
                Some(entry) => {
                    let k = choose|k: int| 0 <= k < head.len() && head[k] == entry;
                    assert(entries[k] == entry);
                    assert forall|i: int|
                        #![trigger entries[i]]
                        0 <= i < entries.len() && entries[i].0 <= number implies entries[i].0
                        <= entry.0 by {
                        assert(i < end ==> head[i] == entries[i]);
                    }
                },
                None => {
                    assert forall|i: int| #![trigger entries[i]] 0 <= i < entries.len() implies
                        entries[i].0 > number by {
                        assert(i < end ==> head[i] == entries[i]);
                    }
                },
            }
        }
    }
}

/// In a sorted tree the lower bound is the standard's: the entry with the largest key that is not
/// above the number. Only a tree that is not sorted tells the two apart.
pub proof fn lemma_standard_bound(node: TreeNode, number: i64)
    requires
        is_sorted(node),
    ensures
        match lower_bound(node, number) {
            Some((key, Some(value))) => is_standard_bound(
                all_entries(node),
                number,
                Some((key, value)),
            ),
            Some((_, None)) => false,
            None => is_standard_bound(all_entries(node), number, None),
        },
{
    lemma_bound_is_last_entry(node, number);
    lemma_last_entry_is_standard(all_entries(node), number);
}

} // verus!
