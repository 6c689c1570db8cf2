//! The label that a document gives each of its pages.

use vstd::prelude::*;

use crate::bytes::key;
use crate::number_tree::{
    followed_number, kid_read, kids_read, last_entry, lower_bound, node_limits, node_read,
    range_value, resolved_entries, tree_entries, tree_of, Progress, TreeContent, TreeNode,
    MAX_ENTRIES, MAX_NODES,
};
use crate::object::{
    distinct_keys, entry, lemma_entry_absent, lemma_entry_at, lemma_set_then_get, named_entry,
    Entries, ObjectId, Value,
};
use crate::page_labels::{labels_of_pages, labels_tree, page_label, range_label};
use crate::resolver::{catalog_of, followed, followed_entry, found, Model};
use crate::text::decimal;

verus! {

proof fn lemma_entries_but_the_last(entries: Entries, name: Seq<u8>)
    requires
        distinct_keys(entries),
        entries.len() > 0,
    ensures
        distinct_keys(entries.drop_last()),
        entry(entries.drop_last(), entries.last().0) is None,
        entry(entries, entries.last().0) == Some(entries.last().1),
        name != entries.last().0 ==> entry(entries, name) == entry(entries.drop_last(), name),
{
    let front = entries.drop_last();
    let last = entries.last().0;
    assert forall|j: int| 0 <= j < front.len() implies (#[trigger] front[j]).0 != last by {
        assert(front[j] == entries[j]);
        assert(entries[entries.len() - 1].0 == last);
    }
    lemma_entry_absent(front, last);
    assert forall|i: int, j: int| 0 <= i < j < front.len() implies #[trigger] front[i].0
        != #[trigger] front[j].0 by {
        assert(front[i] == entries[i] && front[j] == entries[j]);
    }
    assert forall|j: int| 0 <= j < entries.len() - 1 implies (#[trigger] entries[j]).0 != last by {
        assert(front[j] == entries[j]);
    }
    lemma_entry_at(entries, last, entries.len() - 1);
    if name != last {
        if exists|i: int| 0 <= i < front.len() && (#[trigger] front[i]).0 == name {
            let i = choose|i: int| 0 <= i < front.len() && (#[trigger] front[i]).0 == name;
            assert forall|j: int| 0 <= j < i implies (#[trigger] front[j]).0 != name by {
                assert(front[i].0 == name);
            }
            lemma_entry_at(front, name, i);
            assert forall|j: int| 0 <= j < i implies (#[trigger] entries[j]).0 != name by {
                assert(front[j] == entries[j]);
            }
            assert(entries[i] == front[i]);
            lemma_entry_at(entries, name, i);
        } else {
            lemma_entry_absent(front, name);
            assert forall|j: int| 0 <= j < entries.len() implies (#[trigger] entries[j]).0 != name by {
                if j < front.len() {
                    assert(front[j] == entries[j]);
                }
            }
            lemma_entry_absent(entries, name);
        }
    }
}

/// The entries of a range are those of its dictionary, with references followed.
pub proof fn lemma_resolved_entries(model: Model, entries: Entries, name: Seq<char>)
    requires
        distinct_keys(entries),
    ensures
        named_entry(resolved_entries(model, entries), name) == followed_entry(model, entries, name),
{
    lemma_resolved(model, entries, key(name));
}

proof fn lemma_resolved(model: Model, entries: Entries, name: Seq<u8>)
    requires
        distinct_keys(entries),
    ensures
        entry(resolved_entries(model, entries), name) == match entry(entries, name) {
            Some(value) => followed(model, value),
            None => None,
        },
        forall|i: int|
            0 <= i < resolved_entries(model, entries).len() ==> exists|j: int|
                0 <= j < entries.len() && (#[trigger] resolved_entries(model, entries)[i]).0
                    == #[trigger] entries[j].0,
    decreases entries.len(),
{
    let resolved = resolved_entries(model, entries);
    if entries.len() > 0 {
        let front = entries.drop_last();
        let last = entries.last();
        lemma_entries_but_the_last(entries, name);
        lemma_resolved(model, front, name);
        lemma_resolved(model, front, last.0);
        let head = resolved_entries(model, front);
        assert forall|i: int| 0 <= i < head.len() implies (#[trigger] head[i]).0 != last.0 by {
            let j = choose|j: int|
                0 <= j < front.len() && head[i].0 == #[trigger] front[j].0;
            assert(front[j] == entries[j]);
            assert(entries[entries.len() - 1].0 == last.0);
        }
        lemma_entry_absent(head, last.0);
        if let Some(value) = followed(model, last.1) {
            lemma_set_then_get(head, last.0, value, name);
            assert(resolved == head.push((last.0, value)));
        }
        assert forall|i: int| 0 <= i < resolved.len() implies exists|j: int|
            0 <= j < entries.len() && (#[trigger] resolved[i]).0 == #[trigger] entries[j].0 by {
            if i < head.len() {
                assert(resolved[i] == head[i]);
                let j = choose|j: int|
                    0 <= j < front.len() && head[i].0 == #[trigger] front[j].0;
                assert(entries[j].0 == resolved[i].0);
            } else {
                assert(entries[entries.len() - 1].0 == resolved[i].0);
            }
        }
    }
}

/// Whether `nums` are `keys`, each with one of `ranges` behind it.
pub open spec fn are_ranges(
    model: Model,
    nums: Seq<Value>,
    keys: Seq<i64>,
    ranges: Seq<Entries>,
) -> bool {
    &&& keys.len() == ranges.len()
    &&& nums.len() == 2 * keys.len()
    &&& nums.len() <= 2 * MAX_ENTRIES
    &&& forall|i: int|
        0 <= i < keys.len() ==> followed(model, nums[2 * i]) == Some(
            Value::Integer(#[trigger] keys[i]),
        )
    &&& forall|i: int|
        0 <= i < keys.len() ==> followed(model, nums[2 * i + 1]) == Some(
            Value::Dictionary(#[trigger] ranges[i]),
        )
    &&& forall|i: int| 0 <= i < ranges.len() ==> distinct_keys(#[trigger] ranges[i])
}

/// The last range that starts at or before a page is the page's, if there is one.
pub open spec fn is_range_of(keys: Seq<i64>, page: int, range: Option<int>) -> bool {
    match range {
        Some(j) => {
            &&& 0 <= j < keys.len()
            &&& keys[j] <= page
            &&& forall|i: int| j < i < keys.len() ==> #[trigger] keys[i] > page
        },
        None => forall|i: int| 0 <= i < keys.len() ==> #[trigger] keys[i] > page,
    }
}

proof fn lemma_last_entry(entries: Seq<(i64, Value)>, keys: Seq<i64>, page: i64, range: Option<int>)
    requires
        keys.len() == entries.len(),
        forall|i: int| 0 <= i < keys.len() ==> (#[trigger] entries[i]).0 == keys[i],
        is_range_of(keys, page as int, range),
    ensures
        last_entry(entries, page) == match range {
            Some(j) => Some(entries[j]),
            None => None,
        },
    decreases entries.len(),
{
    if entries.len() > 0 {
        let last = entries.len() - 1;
        assert(entries[last].0 == keys[last]);
        if range != Some(last) {
            assert(keys[last] > page);
            let fewer = entries.drop_last();
            assert forall|i: int| 0 <= i < fewer.len() implies (#[trigger] fewer[i]).0
                == keys.drop_last()[i] by {
                assert(fewer[i] == entries[i]);
            }
            assert(is_range_of(keys.drop_last(), page as int, range)) by {
                match range {
                    Some(j) => {
                        assert forall|i: int| j < i < keys.len() - 1 implies
                            #[trigger] keys.drop_last()[i] > page by {
                            assert(keys[i] > page);
                        }
                    },
                    None => {
                        assert forall|i: int| 0 <= i < keys.len() - 1 implies
                            #[trigger] keys.drop_last()[i] > page by {
                            assert(keys[i] > page);
                        }
                    },
                }
            }
            lemma_last_entry(fewer, keys.drop_last(), page, range);
        }
    }
}

/// A page is labelled by the last range that starts at or before it, counting from where the range
/// starts, and a page before every range has its number, counted from 1.
pub proof fn lemma_labels_by_ranges(
    model: Model,
    catalog: Entries,
    root: Entries,
    nums: Seq<Value>,
    keys: Seq<i64>,
    ranges: Seq<Entries>,
    count: nat,
    page: i64,
    range: Option<int>,
)
    requires
        catalog_of(model) == Some(catalog),
        followed_entry(model, catalog, "PageLabels"@) == Some(Value::Dictionary(root)),
        named_entry(root, "Limits"@) is None,
        followed_entry(model, root, "Nums"@) == Some(Value::Array(nums)),
        are_ranges(model, nums, keys, ranges),
        0 <= page < count,
        is_range_of(keys, page as int, range),
        range matches Some(j) ==> 0 <= keys[j],
    ensures
        labels_of_pages(model, count) matches Some(labels) && labels.len() == count
            && labels[page as int] == match range {
            Some(j) => range_label(resolved_entries(model, ranges[j]), (page - keys[j]) as i64),
            None => decimal(page + 1),
        },
{
    let tree = labels_tree(model)->Some_0;
    let entries = tree_entries(model, nums, keys.len());
    assert(tree.limits is None);
    assert(nums.len() / 2 == keys.len());
    assert(tree.content == TreeContent::Entries(entries));
    assert forall|i: int| 0 <= i < keys.len() implies (#[trigger] entries[i]).0 == keys[i] by {
        assert(followed(model, nums[2 * i]) == Some(Value::Integer(keys[i])));
    }
    lemma_last_entry(entries, keys, page, range);
    if let Some(j) = range {
        assert(followed(model, nums[2 * j + 1]) == Some(Value::Dictionary(ranges[j])));
        assert(entries[j].1 == Value::Dictionary(resolved_entries(model, ranges[j])));
    }
    let labels = labels_of_pages(model, count)->Some_0;
    assert(labels[page as int] == page_label(tree, page as int));
}

/// A document without `/PageLabels` has no labels.
pub proof fn lemma_no_labels(model: Model, count: nat)
    requires
        catalog_of(model) is None || named_entry(catalog_of(model)->Some_0, "PageLabels"@) is None,
    ensures
        labels_of_pages(model, count) is None,
{
}

/// At or past its upper limit a node gives what it lists there, and below its lower limit nothing.
pub proof fn lemma_limits_of_labels(node: TreeNode, low: i64, high: i64, page: i64)
    requires
        node.limits == Some((low, high)),
    ensures
        page < low ==> lower_bound(node, page) is None,
        page >= low && page >= high ==> (lower_bound(node, page) matches Some((at, _)) && at == high),
        page >= high && high >= low ==> lower_bound(node, page) == lower_bound(node, high),
{
}

/// Whether `leaf` is read whole from `node`: its limits, and its entries from its `/Nums`, in order.
pub open spec fn is_leaf_of(model: Model, node: Entries, nums: Seq<Value>, leaf: TreeNode) -> bool {
    &&& match followed_entry(model, node, "Limits"@) {
        Some(Value::Array(limits)) => limits.len() >= 2 ==> leaf.limits == Some(
            (followed_number(model, limits[0]), followed_number(model, limits[1])),
        ),
        _ => leaf.limits is None,
    }
    &&& leaf.content matches TreeContent::Entries(entries) && {
        &&& entries.len() == nums.len() / 2
        &&& forall|i: int|
            0 <= i < entries.len() ==> #[trigger] entries[i] == (
                followed_number(model, nums[2 * i]),
                range_value(model, nums[2 * i + 1]),
            )
    }
}

/// How many entries the arrays `nums` hold.
pub open spec fn entries_of(nums: Seq<Seq<Value>>) -> int
    decreases nums.len(),
{
    if nums.len() == 0 {
        0
    } else {
        nums[0].len() / 2 + entries_of(nums.drop_first())
    }
}

proof fn lemma_entries_of(nums: Seq<Seq<Value>>)
    ensures
        entries_of(nums) >= 0,
    decreases nums.len(),
{
    if nums.len() > 0 {
        lemma_entries_of(nums.drop_first());
    }
}

/// A tree whose root has kids is read with all its leaves, in their order, and each with all its entries.
pub proof fn lemma_leaves_are_read(
    model: Model,
    root: Entries,
    ids: Seq<ObjectId>,
    nodes: Seq<Entries>,
    nums: Seq<Seq<Value>>,
) -> (leaves: Seq<TreeNode>)
    requires
        named_entry(root, "Nums"@) is None,
        followed_entry(model, root, "Kids"@) == Some(
            Value::Array(ids.map_values(|id: ObjectId| Value::Reference(id))),
        ),
        ids.no_duplicates(),
        ids.len() <= MAX_NODES,
        nodes.len() == ids.len(),
        nums.len() == ids.len(),
        entries_of(nums) <= MAX_ENTRIES,
        forall|i: int|
            0 <= i < ids.len() ==> found(model, #[trigger] ids[i]) == Some(
                Value::Dictionary(nodes[i]),
            ),
        forall|i: int|
            0 <= i < nodes.len() ==> followed_entry(model, #[trigger] nodes[i], "Nums"@) == Some(
                Value::Array(nums[i]),
            ),
    ensures
        leaves.len() == ids.len(),
        tree_of(model, root).content == TreeContent::Kids(leaves),
        forall|i: int|
            0 <= i < ids.len() ==> is_leaf_of(model, nodes[i], nums[i], #[trigger] leaves[i]),
{
    let start = Progress { ids: Map::empty(), nodes: 0, entries: 0 };
    lemma_leaves_from(model, ids, nodes, nums, start);
    let kids = ids.map_values(|id: ObjectId| Value::Reference(id));
    let leaves = kids_read(model, kids, Set::empty(), 1, start).0;
    assert(node_read(model, root, None, Set::empty(), 0, start).0.content == TreeContent::Kids(leaves));
    leaves
}

proof fn lemma_leaves_from(
    model: Model,
    ids: Seq<ObjectId>,
    nodes: Seq<Entries>,
    nums: Seq<Seq<Value>>,
    progress: Progress,
)
    requires
        ids.no_duplicates(),
        progress.nodes + ids.len() <= MAX_NODES,
        nodes.len() == ids.len(),
        nums.len() == ids.len(),
        progress.entries + entries_of(nums) <= MAX_ENTRIES,
        forall|i: int| 0 <= i < ids.len() ==> !progress.ids.contains_key(#[trigger] ids[i]),
        forall|i: int|
            0 <= i < ids.len() ==> found(model, #[trigger] ids[i]) == Some(
                Value::Dictionary(nodes[i]),
            ),
        forall|i: int|
            0 <= i < nodes.len() ==> followed_entry(model, #[trigger] nodes[i], "Nums"@) == Some(
                Value::Array(nums[i]),
            ),
    ensures
        ({
            let leaves = kids_read(
                model,
                ids.map_values(|id: ObjectId| Value::Reference(id)),
                Set::empty(),
                1,
                progress,
            ).0;
            &&& leaves.len() == ids.len()
            &&& forall|i: int|
                0 <= i < ids.len() ==> is_leaf_of(model, nodes[i], nums[i], #[trigger] leaves[i])
        }),
    decreases ids.len(),
{
    let kids = ids.map_values(|id: ObjectId| Value::Reference(id));
    if ids.len() > 0 {
        let path = Set::<ObjectId>::empty();
        let id = ids[0];
        assert(kids[0] == Value::Reference(id));
        assert(found(model, id) == Some(Value::Dictionary(nodes[0])));
        assert(followed_entry(model, nodes[0], "Nums"@) == Some(Value::Array(nums[0])));
        lemma_entries_of(nums.drop_first());
        let (first, after) = node_read(model, nodes[0], Some(id), path.insert(id), 1, progress);
        assert(kid_read(model, kids[0], path, 1, progress) == (Some(first), after));
        let count = nums[0].len() / 2;
        assert(first.content == TreeContent::Entries(tree_entries(model, nums[0], count as nat)));
        assert(first.limits == node_limits(model, nodes[0]));
        assert(is_leaf_of(model, nodes[0], nums[0], first));
        assert(after.ids == progress.ids.insert(id, first));
        let rest = ids.drop_first();
        let other_nodes = nodes.drop_first();
        let other_nums = nums.drop_first();
        assert(kids.drop_first() =~= rest.map_values(|id: ObjectId| Value::Reference(id)));
        assert forall|i: int| 0 <= i < rest.len() implies !after.ids.contains_key(
            #[trigger] rest[i],
        ) by {
            assert(rest[i] == ids[i + 1]);
            assert(ids[i + 1] != ids[0]);
        }
        assert forall|i: int| 0 <= i < rest.len() implies found(model, #[trigger] rest[i]) == Some(
            Value::Dictionary(other_nodes[i]),
        ) by {
            assert(rest[i] == ids[i + 1]);
        }
        assert forall|i: int| 0 <= i < other_nodes.len() implies followed_entry(
            model,
            #[trigger] other_nodes[i],
            "Nums"@,
        ) == Some(Value::Array(other_nums[i])) by {
            assert(other_nodes[i] == nodes[i + 1]);
        }
        lemma_leaves_from(model, rest, other_nodes, other_nums, after);
        let leaves = kids_read(model, kids, path, 1, progress).0;
        let others = kids_read(model, kids.drop_first(), path, 1, after).0;
        assert(leaves == seq![first] + others);
        assert forall|i: int| 0 <= i < ids.len() implies is_leaf_of(
            model,
            nodes[i],
            nums[i],
            #[trigger] leaves[i],
        ) by {
            if i > 0 {
                assert(is_leaf_of(model, other_nodes[i - 1], other_nums[i - 1], others[i - 1]));
            }
        }
    }
}

} // verus!
