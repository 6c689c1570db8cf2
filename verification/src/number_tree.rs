//! Number trees, read once with their references resolved, and searched as pdfium searches them.

use vstd::prelude::*;

use crate::bytes;
use crate::error::Result;
use crate::ids::IdMap;
use crate::object::{
    array_in, dictionary_in, reference_of, set_entry, value, values, Dictionary, Entries, Object,
    ObjectId, Value,
};
use crate::resolver::{
    array_named, dereference, followed, followed_entry, into_owned, object_of, skip_unless_io,
    source_failure, Model, ObjectResolver,
};

verus! {

/// Deepest number-tree nesting read.
pub const MAX_TREE_DEPTH: usize = 32;

/// Most number-tree nodes read.
pub const MAX_NODES: usize = 10_000;

/// Most number-tree entries read.
pub const MAX_ENTRIES: usize = 100_000;

/// A node of a number tree, with the nodes under it.
pub struct TreeNode {
    /// `/Limits`: the least and the greatest key.
    pub limits: Option<(i64, i64)>,
    pub content: TreeContent,
}

pub enum TreeContent {
    /// `/Nums`, in the order the file lists them.
    Entries(Seq<(i64, Value)>),
    /// `/Kids`, in the order the file lists them.
    Kids(Seq<TreeNode>),
    Nothing,
}

/// What has been read of a number tree.
pub struct Progress {
    /// Nodes already read, by object id, so that a node listed twice is read once.
    pub ids: Map<ObjectId, TreeNode>,
    pub nodes: nat,
    pub entries: nat,
}

/// An integer as pdfium reads one: a real is truncated, and anything else is 0.
pub open spec fn whole_number(value: Value) -> i64 {
    match value {
        Value::Integer(i) => i,
        Value::Real(r) => r.truncated() as i64,
        _ => 0,
    }
}

/// The integer that a value is or refers to.
pub open spec fn followed_number(model: Model, value: Value) -> i64 {
    match followed(model, value) {
        Some(value) => whole_number(value),
        None => 0,
    }
}

/// The bound at `position` of `/Limits`.
pub open spec fn bound(model: Model, limits: Seq<Value>, position: int) -> i64 {
    if position < limits.len() {
        followed_number(model, limits[position])
    } else {
        0
    }
}

/// The `/Limits` of a node.
pub open spec fn node_limits(model: Model, node: Entries) -> Option<(i64, i64)> {
    match array_in(followed_entry(model, node, "Limits"@)) {
        Some(limits) => Some((bound(model, limits, 0), bound(model, limits, 1))),
        None => None,
    }
}

/// The entries of a dictionary with their references followed, without those that cannot be read.
pub open spec fn resolved_entries(model: Model, entries: Entries) -> Entries
    decreases entries.len(),
{
    if entries.len() == 0 {
        Seq::empty()
    } else {
        let head = resolved_entries(model, entries.drop_last());
        match followed(model, entries.last().1) {
            Some(value) => set_entry(head, entries.last().0, value),
            None => head,
        }
    }
}

/// A range: the value resolved, and the entries of a range dictionary resolved too.
pub open spec fn range_value(model: Model, value: Value) -> Value {
    match followed(model, value) {
        Some(Value::Dictionary(entries)) => Value::Dictionary(resolved_entries(model, entries)),
        Some(value) => value,
        None => Value::Null,
    }
}

/// How many of the entries of `/Nums` are read, when `taken` have been read before.
pub open spec fn entries_read(nums: Seq<Value>, taken: nat) -> nat {
    let listed = (nums.len() / 2) as nat;
    if taken >= MAX_ENTRIES {
        0
    } else if listed <= MAX_ENTRIES - taken {
        listed
    } else {
        (MAX_ENTRIES - taken) as nat
    }
}

/// The first `count` entries of `/Nums`.
pub open spec fn tree_entries(model: Model, nums: Seq<Value>, count: nat) -> Seq<(i64, Value)> {
    Seq::new(
        count,
        |i: int| (followed_number(model, nums[2 * i]), range_value(model, nums[2 * i + 1])),
    )
}

/// What has been read once `node`, with the object id `id`, has been.
pub open spec fn with_node(progress: Progress, node: TreeNode, id: Option<ObjectId>) -> Progress {
    Progress {
        ids: match id {
            Some(id) => progress.ids.insert(id, node),
            None => progress.ids,
        },
        nodes: progress.nodes + 1,
        entries: progress.entries,
    }
}

/// The node that a dictionary with the object id `id` is, and what has been read after it. `path`
/// holds the nodes from the root to this one, so that a cycle ends.
pub open spec fn node_read(
    model: Model,
    node: Entries,
    id: Option<ObjectId>,
    path: Set<ObjectId>,
    depth: nat,
    progress: Progress,
) -> (TreeNode, Progress)
    decreases MAX_TREE_DEPTH - depth, 0nat,
{
    let limits = node_limits(model, node);
    match array_in(followed_entry(model, node, "Nums"@)) {
        Some(nums) => {
            let count = entries_read(nums, progress.entries);
            let read = TreeNode {
                limits,
                content: TreeContent::Entries(tree_entries(model, nums, count)),
            };
            let after = Progress { entries: progress.entries + count, ..progress };
            (read, with_node(after, read, id))
        },
        None => match array_in(followed_entry(model, node, "Kids"@)) {
            Some(kids) if depth < MAX_TREE_DEPTH => {
                let (nodes, after) = kids_read(model, kids, path, depth + 1, progress);
                let read = TreeNode { limits, content: TreeContent::Kids(nodes) };
                (read, with_node(after, read, id))
            },
            _ => {
                let read = TreeNode { limits, content: TreeContent::Nothing };
                (read, with_node(progress, read, id))
            },
        },
    }
}

/// The node that a kid is, where it is one, and what has been read after it.
pub open spec fn kid_read(
    model: Model,
    kid: Value,
    path: Set<ObjectId>,
    depth: nat,
    progress: Progress,
) -> (Option<TreeNode>, Progress)
    decreases MAX_TREE_DEPTH - depth, 1nat,
{
    match reference_of(kid) {
        Some(id) => if progress.ids.contains_key(id) {
            (Some(progress.ids[id]), progress)
        } else if path.contains(id) || progress.nodes >= MAX_NODES {
            (None, progress)
        } else {
            match dictionary_in(followed(model, kid)) {
                Some(node) => {
                    let (read, after) = node_read(
                        model,
                        node,
                        Some(id),
                        path.insert(id),
                        depth,
                        progress,
                    );
                    (Some(read), after)
                },
                None => (None, progress),
            }
        },
        None => match dictionary_in(followed(model, kid)) {
            Some(node) => {
                let (read, after) = node_read(model, node, None, path, depth, progress);
                (Some(read), after)
            },
            None => (None, progress),
        },
    }
}

/// The nodes of `/Kids`, and what has been read after them.
pub open spec fn kids_read(
    model: Model,
    kids: Seq<Value>,
    path: Set<ObjectId>,
    depth: nat,
    progress: Progress,
) -> (Seq<TreeNode>, Progress)
    decreases MAX_TREE_DEPTH - depth, 2 + kids.len(),
{
    if kids.len() == 0 {
        (Seq::empty(), progress)
    } else {
        let (first, after_first) = kid_read(model, kids[0], path, depth, progress);
        let (rest, after) = kids_read(model, kids.drop_first(), path, depth, after_first);
        match first {
            Some(node) => (seq![node] + rest, after),
            None => (rest, after),
        }
    }
}

/// The tree whose root is a dictionary.
pub open spec fn tree_of(model: Model, root: Entries) -> TreeNode {
    node_read(
        model,
        root,
        None,
        Set::empty(),
        0,
        Progress { ids: Map::empty(), nodes: 0, entries: 0 },
    ).0
}

/// The value that an exact lookup finds in entries, which stops at the first larger key.
pub open spec fn listed_entry(entries: Seq<(i64, Value)>, key: i64) -> Option<Value>
    decreases entries.len(),
{
    if entries.len() == 0 || entries[0].0 > key {
        None
    } else if entries[0].0 == key {
        Some(entries[0].1)
    } else {
        listed_entry(entries.drop_first(), key)
    }
}

/// The value that an exact lookup of `key` finds in `node` or below.
pub open spec fn listed(node: TreeNode, key: i64) -> Option<Value>
    decreases node, 0nat,
{
    if node.limits matches Some((low, high)) && (key < low || key > high) {
        None
    } else {
        match node.content {
            TreeContent::Entries(entries) => listed_entry(entries, key),
            TreeContent::Kids(kids) => listed_in(kids, key),
            TreeContent::Nothing => None,
        }
    }
}

/// The value that an exact lookup of `key` finds in the first of `kids` that lists it.
pub open spec fn listed_in(kids: Seq<TreeNode>, key: i64) -> Option<Value>
    decreases kids, kids.len(),
{
    if kids.len() == 0 {
        None
    } else {
        match listed(kids[0], key) {
            Some(value) => Some(value),
            None => listed_in(kids.drop_first(), key),
        }
    }
}

/// The last of the entries at or below `number`.
pub open spec fn last_entry(entries: Seq<(i64, Value)>, number: i64) -> Option<(i64, Value)>
    decreases entries.len(),
{
    if entries.len() == 0 {
        None
    } else if entries.last().0 <= number {
        Some(entries.last())
    } else {
        last_entry(entries.drop_last(), number)
    }
}

/// The key and value that pdfium's lower bound for `number` gives in `node`: at or past the upper
/// limit, that limit and what is listed there; otherwise the last entry at or below `number`, or
/// what the last kid that gives a lower bound gives.
pub open spec fn lower_bound(node: TreeNode, number: i64) -> Option<(i64, Option<Value>)>
    decreases node, 0nat,
{
    if node.limits matches Some((low, high)) && number < low {
        None
    } else if node.limits matches Some((low, high)) && number >= high {
        let high = node.limits->Some_0.1;
        Some((high, listed(node, high)))
    } else {
        match node.content {
            TreeContent::Entries(entries) => match last_entry(entries, number) {
                Some((key, value)) => Some((key, Some(value))),
                None => None,
            },
            TreeContent::Kids(kids) => lower_bound_in(kids, number),
            TreeContent::Nothing => None,
        }
    }
}

/// What the last of `kids` that gives a lower bound gives.
pub open spec fn lower_bound_in(kids: Seq<TreeNode>, number: i64) -> Option<(i64, Option<Value>)>
    decreases kids, kids.len(),
{
    if kids.len() == 0 {
        None
    } else {
        match lower_bound(kids.last(), number) {
            Some(found) => Some(found),
            None => lower_bound_in(kids.drop_last(), number),
        }
    }
}

/// The smaller of two numbers.
pub open spec fn smaller(a: int, b: int) -> int {
    if a <= b {
        a
    } else {
        b
    }
}

/// The smallest of the numbers from position `from` on, or `i64::MAX` without any.
pub open spec fn least_from(numbers: Seq<i64>, from: int) -> int
    decreases numbers.len() - from,
{
    if 0 <= from < numbers.len() {
        smaller(numbers[from] as int, least_from(numbers, from + 1))
    } else {
        i64::MAX as int
    }
}

/// The keys of entries.
pub open spec fn keys_of(entries: Seq<(i64, Value)>) -> Seq<i64> {
    Seq::new(entries.len(), |i: int| entries[i].0)
}

/// The smallest number whose lower bound `node` gives, or `i64::MAX` when it gives none.
pub open spec fn threshold(node: TreeNode) -> i64
    decreases node, 0nat,
{
    let inner = match node.content {
        TreeContent::Entries(entries) => least_from(keys_of(entries), 0) as i64,
        TreeContent::Kids(kids) => least_threshold(kids),
        TreeContent::Nothing => i64::MAX,
    };
    match node.limits {
        // At or past the upper limit, a node always gives a lower bound.
        Some((low, high)) => {
            let upper = if high <= inner {
                high
            } else {
                inner
            };
            if low >= upper {
                low
            } else {
                upper
            }
        },
        None => inner,
    }
}

/// The smallest of the thresholds of `kids`, or `i64::MAX` without any.
pub open spec fn least_threshold(kids: Seq<TreeNode>) -> i64
    decreases kids, kids.len(),
{
    if kids.len() == 0 {
        i64::MAX
    } else {
        let first = threshold(kids[0]);
        let rest = least_threshold(kids.drop_first());
        if first <= rest {
            first
        } else {
            rest
        }
    }
}

proof fn lemma_least_from(numbers: Seq<i64>, from: int)
    requires
        0 <= from <= numbers.len(),
    ensures
        i64::MIN <= least_from(numbers, from) <= i64::MAX,
        forall|i: int| from <= i < numbers.len() ==> least_from(numbers, from) <= #[trigger] numbers[i],
        least_from(numbers, from) == i64::MAX || exists|i: int|
            from <= i < numbers.len() && #[trigger] numbers[i] == least_from(numbers, from),
    decreases numbers.len() - from,
{
    if from < numbers.len() {
        lemma_least_from(numbers, from + 1);
    }
}

proof fn lemma_last_entry(entries: Seq<(i64, Value)>, number: i64)
    ensures
        last_entry(entries, number) is Some <==> exists|i: int|
            0 <= i < entries.len() && (#[trigger] entries[i]).0 <= number,
    decreases entries.len(),
{
    if entries.len() > 0 {
        let head = entries.drop_last();
        lemma_last_entry(head, number);
        if last_entry(entries, number) is Some {
            if entries.last().0 <= number {
                assert(entries[entries.len() - 1].0 <= number);
            } else {
                let i = choose|i: int| 0 <= i < head.len() && (#[trigger] head[i]).0 <= number;
                assert(entries[i].0 <= number);
            }
        }
        if exists|i: int| 0 <= i < entries.len() && (#[trigger] entries[i]).0 <= number {
            let i = choose|i: int| 0 <= i < entries.len() && (#[trigger] entries[i]).0 <= number;
            if i < head.len() {
                assert(head[i].0 <= number);
            }
        }
    }
}

/// A node gives a lower bound exactly for the numbers from its threshold on.
pub proof fn lemma_threshold(node: TreeNode, number: i64)
    requires
        number < i64::MAX,
    ensures
        lower_bound(node, number) is Some <==> threshold(node) <= number,
    decreases node, 0nat,
{
    match node.content {
        TreeContent::Entries(entries) => {
            let keys = keys_of(entries);
            lemma_least_from(keys, 0);
            lemma_last_entry(entries, number);
            if last_entry(entries, number) is Some {
                let i = choose|i: int|
                    0 <= i < entries.len() && (#[trigger] entries[i]).0 <= number;
                assert(keys[i] <= number);
            } else if least_from(keys, 0) <= number {
                let i = choose|i: int|
                    0 <= i < keys.len() && #[trigger] keys[i] == least_from(keys, 0);
                assert(entries[i].0 <= number);
            }
        },
        TreeContent::Kids(kids) => {
            lemma_least_threshold(kids, number);
        },
        TreeContent::Nothing => {},
    }
}

/// Some kid gives a lower bound exactly for the numbers from the smallest threshold on.
pub proof fn lemma_least_threshold(kids: Seq<TreeNode>, number: i64)
    requires
        number < i64::MAX,
    ensures
        lower_bound_in(kids, number) is Some <==> least_threshold(kids) <= number,
    decreases kids, kids.len(),
{
    if kids.len() > 0 {
        lemma_threshold(kids[0], number);
        lemma_least_threshold(kids.drop_first(), number);
        lemma_lower_bound_in_split(kids, number);
    }
}

/// The last kid that gives a lower bound is among those after the first, or else the first.
proof fn lemma_lower_bound_in_split(kids: Seq<TreeNode>, number: i64)
    requires
        kids.len() > 0,
    ensures
        lower_bound_in(kids, number) == match lower_bound_in(kids.drop_first(), number) {
            Some(found) => Some(found),
            None => lower_bound(kids[0], number),
        },
    decreases kids.len(),
{
    if kids.len() == 1 {
        assert(kids.drop_first() =~= Seq::<TreeNode>::empty());
        assert(kids.drop_last() =~= Seq::<TreeNode>::empty());
    } else {
        let head = kids.drop_last();
        lemma_lower_bound_in_split(head, number);
        assert(kids.drop_first().drop_last() =~= head.drop_first());
    }
}

/// What a node holds.
pub enum Content {
    /// `/Nums` in the order the file lists them, and the smallest key from each entry on.
    Entries { keys: Vec<i64>, objects: Vec<Object>, suffix_min: Vec<i64> },
    /// `/Kids` in the order the file lists them, and the smallest threshold from each kid on.
    Kids { kids: Vec<usize>, suffix_min: Vec<i64> },
    Nothing,
}

/// A node, with the nodes under it given by their places in the tree.
pub struct Node {
    pub limits: Option<(i64, i64)>,
    pub content: Content,
    /// The smallest number whose lower bound this node gives.
    pub threshold: i64,
    /// The node that this one stands for.
    pub model: Ghost<TreeNode>,
}

/// The smallest of `numbers` from each position to the end.
pub open spec fn suffix_minima(numbers: Seq<i64>) -> Seq<i64> {
    Seq::new(numbers.len(), |i: int| least_from(numbers, i) as i64)
}

/// The thresholds of `kids`.
pub open spec fn thresholds(kids: Seq<TreeNode>) -> Seq<i64> {
    Seq::new(kids.len(), |i: int| threshold(kids[i]))
}

/// The entries that keys and values list.
pub open spec fn paired_entries(keys: Seq<i64>, objects: Seq<Object>) -> Seq<(i64, Value)> {
    Seq::new(keys.len(), |i: int| (keys[i], value(objects[i])))
}

/// The nodes at `places`.
pub open spec fn nodes_at(nodes: Seq<Node>, places: Seq<usize>) -> Seq<TreeNode> {
    Seq::new(places.len(), |i: int| nodes[places[i] as int].model@)
}

/// Whether the node at `place` holds what it stands for, with the nodes under it before it.
pub open spec fn node_holds(nodes: Seq<Node>, place: int) -> bool {
    let node = nodes[place];
    &&& node.model@.limits == node.limits
    &&& node.threshold == threshold(node.model@)
    &&& match node.content {
        Content::Entries { keys, objects, suffix_min } => {
            &&& objects@.len() == keys@.len()
            &&& suffix_min@ == suffix_minima(keys@)
            &&& node.model@.content == TreeContent::Entries(paired_entries(keys@, objects@))
        },
        Content::Kids { kids, suffix_min } => {
            &&& forall|i: int| 0 <= i < kids@.len() ==> #[trigger] kids@[i] < place
            &&& node.model@.content == TreeContent::Kids(nodes_at(nodes, kids@))
            &&& suffix_min@ == suffix_minima(thresholds(nodes_at(nodes, kids@)))
        },
        Content::Nothing => node.model@.content == TreeContent::Nothing,
    }
}

/// Whether every node holds what it stands for.
pub open spec fn nodes_hold(nodes: Seq<Node>) -> bool {
    forall|place: int| 0 <= place < nodes.len() ==> #[trigger] node_holds(nodes, place)
}

/// Whether each node gives a lower bound exactly for the numbers from its threshold on.
pub open spec fn thresholds_hold(nodes: Seq<Node>) -> bool {
    forall|place: int, number: i64|
        0 <= place < nodes.len() && number < i64::MAX ==> (#[trigger] lower_bound(
            nodes[place].model@,
            number,
        ) is Some <==> number >= nodes[place].threshold)
}

/// Nodes that hold what they stand for have the right thresholds.
pub proof fn lemma_thresholds_hold(nodes: Seq<Node>)
    requires
        nodes_hold(nodes),
    ensures
        thresholds_hold(nodes),
{
    assert forall|place: int, number: i64| 0 <= place < nodes.len() && number < i64::MAX implies (
    #[trigger] lower_bound(nodes[place].model@, number) is Some <==> number
        >= nodes[place].threshold) by {
        assert(node_holds(nodes, place));
        lemma_threshold(nodes[place].model@, number);
    }
}

proof fn lemma_nodes_hold_push(nodes: Seq<Node>, node: Node)
    requires
        nodes_hold(nodes),
        node_holds(nodes.push(node), nodes.len() as int),
    ensures
        nodes_hold(nodes.push(node)),
{
    let more = nodes.push(node);
    assert forall|place: int| 0 <= place < more.len() implies #[trigger] node_holds(
        more,
        place,
    ) by {
        if place < nodes.len() {
            assert(node_holds(nodes, place));
            if let Content::Kids { kids, .. } = nodes[place].content {
                assert(nodes_at(more, kids@) =~= nodes_at(nodes, kids@));
            }
        }
    }
}

/// The smallest of `numbers` from each position to the end, which never decreases.
fn suffix_minimum(numbers: &Vec<i64>) -> (r: Vec<i64>)
    ensures
        r@ == suffix_minima(numbers@),
{
    let mut minimum: Vec<i64> = Vec::new();
    minimum.resize(numbers.len(), i64::MAX);
    let mut running: i64 = i64::MAX;
    let mut position: usize = numbers.len();
    while position > 0
        invariant
            position <= numbers@.len(),
            minimum@.len() == numbers@.len(),
            running == least_from(numbers@, position as int),
            forall|i: int|
                position <= i < numbers@.len() ==> #[trigger] minimum@[i] == least_from(
                    numbers@,
                    i,
                ),
        decreases position,
    {
        position -= 1;
        if numbers[position] < running {
            running = numbers[position];
        }
        minimum.set(position, running);
    }
    assert(minimum@ =~= suffix_minima(numbers@));
    minimum
}

/// The last position whose suffix minimum is at or below `number`, which is the last position
/// whose number is.
fn last_at_or_below(suffix_min: &Vec<i64>, number: i64, Ghost(numbers): Ghost<Seq<i64>>) -> (r:
    Option<usize>)
    requires
        suffix_min@ == suffix_minima(numbers),
        number < i64::MAX,
    ensures
        match r {
            Some(last) => last < numbers.len() && numbers[last as int] <= number && forall|i: int|
                last < i < numbers.len() ==> #[trigger] numbers[i] > number,
            None => forall|i: int| 0 <= i < numbers.len() ==> #[trigger] numbers[i] > number,
        },
{
    let mut low: usize = 0;
    let mut high: usize = suffix_min.len();
    proof {
        lemma_least_from(numbers, numbers.len() as int);
    }
    while low < high
        invariant
            low <= high <= numbers.len(),
            suffix_min@ == suffix_minima(numbers),
            number < i64::MAX,
            low > 0 ==> least_from(numbers, low - 1) <= number,
            least_from(numbers, high as int) > number,
        decreases high - low,
    {
        let middle = low + (high - low) / 2;
        proof {
            lemma_least_from(numbers, middle as int);
        }
        if suffix_min[middle] <= number {
            low = middle + 1;
        } else {
            high = middle;
        }
    }
    proof {
        lemma_least_from(numbers, high as int);
        if low > 0 {
            lemma_least_from(numbers, low - 1);
        }
    }
    if low == 0 {
        None
    } else {
        Some(low - 1)
    }
}

proof fn lemma_last_entry_at(entries: Seq<(i64, Value)>, number: i64, last: int)
    requires
        0 <= last < entries.len(),
        entries[last].0 <= number,
        forall|i: int| last < i < entries.len() ==> (#[trigger] entries[i]).0 > number,
    ensures
        last_entry(entries, number) == Some(entries[last]),
    decreases entries.len(),
{
    if last < entries.len() - 1 {
        assert(entries[entries.len() - 1].0 > number);
        lemma_last_entry_at(entries.drop_last(), number, last);
    }
}

proof fn lemma_lower_bound_at(kids: Seq<TreeNode>, number: i64, last: int)
    requires
        number < i64::MAX,
        0 <= last < kids.len(),
        threshold(kids[last]) <= number,
        forall|i: int| last < i < kids.len() ==> threshold(#[trigger] kids[i]) > number,
    ensures
        lower_bound_in(kids, number) == lower_bound(kids[last], number),
    decreases kids.len(),
{
    lemma_threshold(kids.last(), number);
    if last < kids.len() - 1 {
        assert(threshold(kids[kids.len() - 1]) > number);
        lemma_lower_bound_at(kids.drop_last(), number, last);
    }
}

proof fn lemma_no_lower_bound(kids: Seq<TreeNode>, number: i64)
    requires
        number < i64::MAX,
        forall|i: int| 0 <= i < kids.len() ==> threshold(#[trigger] kids[i]) > number,
    ensures
        lower_bound_in(kids, number) is None,
    decreases kids.len(),
{
    if kids.len() > 0 {
        assert(threshold(kids[kids.len() - 1]) > number);
        lemma_threshold(kids.last(), number);
        lemma_no_lower_bound(kids.drop_last(), number);
    }
}

/// A number tree read once, with its references resolved.
pub struct NumberTree {
    nodes: Vec<Node>,
    /// For each node that a number at or past its upper limit was looked up in, the entry that an
    /// exact lookup finds at that limit.
    at_upper_limit: Vec<Option<Option<(usize, usize)>>>,
}

/// Whether `entry`, a node's place and a position in it, is where `expected` is.
pub open spec fn entry_holds(
    nodes: Seq<Node>,
    entry: Option<(usize, usize)>,
    expected: Option<Value>,
) -> bool {
    match entry {
        Some((place, position)) => {
            &&& place < nodes.len()
            &&& match nodes[place as int].content {
                Content::Entries { objects, .. } => position < objects@.len() && expected == Some(
                    value(objects@[position as int]),
                ),
                _ => false,
            }
        },
        None => expected is None,
    }
}

impl NumberTree {
    pub closed spec fn nodes(&self) -> Seq<Node> {
        self.nodes@
    }

    /// Every node holds what it stands for, and what is remembered at an upper limit is what is
    /// listed there.
    pub closed spec fn well_formed(&self) -> bool {
        &&& nodes_hold(self.nodes@)
        &&& self.at_upper_limit@.len() == self.nodes@.len()
        &&& forall|place: int|
            0 <= place < self.nodes@.len() ==> match #[trigger] self.at_upper_limit@[place] {
                Some(entry) => {
                    &&& self.nodes@[place].limits is Some
                    &&& entry_holds(
                        self.nodes@,
                        entry,
                        listed(
                            self.nodes@[place].model@,
                            self.nodes@[place].limits->Some_0.1,
                        ),
                    )
                },
                None => true,
            }
    }

    /// The tree of `nodes`.
    fn new(nodes: Vec<Node>) -> (r: Self)
        requires
            nodes_hold(nodes@),
        ensures
            r.well_formed(),
            r.nodes() == nodes@,
    {
        let mut at_upper_limit: Vec<Option<Option<(usize, usize)>>> = Vec::new();
        while at_upper_limit.len() < nodes.len()
            invariant
                at_upper_limit@.len() <= nodes@.len(),
                forall|place: int|
                    0 <= place < at_upper_limit@.len() ==> #[trigger] at_upper_limit@[place]
                        is None,
            decreases nodes@.len() - at_upper_limit@.len(),
        {
            at_upper_limit.push(None);
        }
        NumberTree { nodes, at_upper_limit }
    }

    /// The key and the place of the value that pdfium's lower bound for `number` gives in the node
    /// at `place`. There is no value when the node's upper limit is not listed under it.
    pub fn lower_bound(&mut self, place: usize, number: i64) -> (r: Option<
        (i64, Option<(usize, usize)>),
    >)
        requires
            old(self).well_formed(),
            place < old(self).nodes().len(),
            number < i64::MAX,
        ensures
            final(self).well_formed(),
            final(self).nodes() == old(self).nodes(),
            r is Some <==> number >= old(self).nodes()[place as int].threshold,
            match (r, lower_bound(old(self).nodes()[place as int].model@, number)) {
                (Some((key, entry)), Some((expected_key, expected))) => key == expected_key
                    && entry_holds(old(self).nodes(), entry, expected),
                (None, None) => true,
                _ => false,
            },
        decreases place,
    {
        assert(node_holds(self.nodes@, place as int));
        let ghost model = self.nodes@[place as int].model@;
        proof {
            lemma_threshold(model, number);
        }
        if let Some((low, high)) = self.nodes[place].limits {
            if number < low {
                return None;
            }
            if number >= high {
                if let Some(entry) = self.at_upper_limit[place] {
                    return Some((high, entry));
                }
                let entry = find_entry(&self.nodes, place, high);
                self.at_upper_limit.set(place, Some(entry));
                return Some((high, entry));
            }
        }
        match &self.nodes[place].content {
            // Scanning from the end, the first entry or kid at or below `number` is the last one
            // whose suffix minimum is.
            Content::Entries { keys, objects, suffix_min } => {
                let ghost entries = paired_entries(keys@, objects@);
                match last_at_or_below(suffix_min, number, Ghost(keys@)) {
                    Some(last) => {
                        proof {
                            lemma_last_entry_at(entries, number, last as int);
                        }
                        Some((keys[last], Some((place, last))))
                    },
                    None => {
                        proof {
                            lemma_last_entry(entries, number);
                        }
                        None
                    },
                }
            },
            Content::Kids { kids, suffix_min } => {
                let ghost nodes = nodes_at(self.nodes@, kids@);
                match last_at_or_below(suffix_min, number, Ghost(thresholds(nodes))) {
                    Some(last) => {
                        proof {
                            assert forall|i: int| last < i < nodes.len() implies threshold(
                                #[trigger] nodes[i],
                            ) > number by {
                                assert(thresholds(nodes)[i] > number);
                            }
                            lemma_lower_bound_at(nodes, number, last as int);
                        }
                        let kid = kids[last];
                        self.lower_bound(kid, number)
                    },
                    None => {
                        proof {
                            assert forall|i: int| 0 <= i < nodes.len() implies threshold(
                                #[trigger] nodes[i],
                            ) > number by {
                                assert(thresholds(nodes)[i] > number);
                            }
                            lemma_no_lower_bound(nodes, number);
                        }
                        None
                    },
                }
            },
            Content::Nothing => None,
        }
    }

    /// The value at `entry`.
    pub fn entry_value(&self, entry: (usize, usize), Ghost(expected): Ghost<Value>) -> (r: &Object)
        requires
            entry_holds(self.nodes(), Some(entry), Some(expected)),
        ensures
            r@ == expected,
    {
        match &self.nodes[entry.0].content {
            Content::Entries { objects, .. } => &objects[entry.1],
            _ => {
                assert(false);
                &Object::Null
            },
        }
    }
}

/// The entry listed under `key` in the node at `place` or below, found as pdfium's exact lookup
/// finds it.
fn find_entry(nodes: &Vec<Node>, place: usize, key: i64) -> (r: Option<(usize, usize)>)
    requires
        nodes_hold(nodes@),
        place < nodes@.len(),
    ensures
        entry_holds(nodes@, r, listed(nodes@[place as int].model@, key)),
    decreases place, 0nat,
{
    assert(node_holds(nodes@, place as int));
    if let Some((low, high)) = nodes[place].limits {
        if key < low || key > high {
            return None;
        }
    }
    match &nodes[place].content {
        Content::Entries { keys, objects, .. } => {
            let ghost entries = paired_entries(keys@, objects@);
            let mut position: usize = 0;
            assert(entries.skip(0) =~= entries);
            while position < keys.len()
                invariant
                    nodes_hold(nodes@),
                    place < nodes@.len(),
                    nodes@[place as int].content matches Content::Entries { objects: o, .. }
                        && o == *objects,
                    position <= keys@.len(),
                    keys@.len() == objects@.len(),
                    entries == paired_entries(keys@, objects@),
                    listed_entry(entries, key) == listed(nodes@[place as int].model@, key),
                    listed_entry(entries, key) == listed_entry(
                        entries.skip(position as int),
                        key,
                    ),
                decreases keys@.len() - position,
            {
                assert(entries.skip(position as int)[0] == entries[position as int]);
                // pdfium stops at the first larger key, taking `/Nums` to be sorted.
                if keys[position] > key {
                    return None;
                }
                if keys[position] == key {
                    return Some((place, position));
                }
                assert(entries.skip(position as int).drop_first() =~= entries.skip(position + 1));
                position += 1;
            }
            None
        },
        Content::Kids { kids, .. } => {
            let ghost models = nodes_at(nodes@, kids@);
            let mut i: usize = 0;
            assert(models.skip(0) =~= models);
            while i < kids.len()
                invariant
                    nodes_hold(nodes@),
                    place < nodes@.len(),
                    i <= kids@.len(),
                    forall|j: int| 0 <= j < kids@.len() ==> #[trigger] kids@[j] < place,
                    models == nodes_at(nodes@, kids@),
                    listed_in(models, key) == listed(nodes@[place as int].model@, key),
                    listed_in(models, key) == listed_in(models.skip(i as int), key),
                decreases kids@.len() - i,
            {
                assert(models.skip(i as int)[0] == models[i as int]);
                let kid = kids[i];
                let entry = find_entry(nodes, kid, key);
                if entry.is_some() {
                    return entry;
                }
                assert(models.skip(i as int).drop_first() =~= models.skip(i + 1));
                i += 1;
            }
            None
        },
        Content::Nothing => None,
    }
}

/// An integer as pdfium reads one: a real is truncated, and anything else is 0.
pub fn integer(object: &Object) -> (r: i64)
    ensures
        r == whole_number(object@),
{
    match object {
        Object::Integer(i) => *i,
        Object::Real(r) => r.truncate(),
        _ => 0,
    }
}

fn resolved_integer<R: ObjectResolver>(resolver: &R, object: &Object) -> (r: Result<i64>)
    ensures
        match r {
            Ok(i) => i == followed_number(resolver.model(), object@),
            Err(error) => source_failure(error, resolver.can_fail()),
        },
{
    match skip_unless_io(dereference(resolver, object)) {
        Ok(Some(object)) => Ok(integer(object_of(&object))),
        Ok(None) => Ok(0),
        Err(error) => Err(error),
    }
}

fn limit<R: ObjectResolver>(resolver: &R, limits: &Vec<Object>, position: usize) -> (r: Result<i64>)
    ensures
        match r {
            Ok(i) => i == bound(resolver.model(), values(limits@), position as int),
            Err(error) => source_failure(error, resolver.can_fail()),
        },
{
    if position < limits.len() {
        resolved_integer(resolver, &limits[position])
    } else {
        Ok(0)
    }
}

fn limits_of<R: ObjectResolver>(resolver: &R, node: &Dictionary) -> (r: Result<Option<(i64, i64)>>)
    ensures
        match r {
            Ok(limits) => limits == node_limits(resolver.model(), node@),
            Err(error) => source_failure(error, resolver.can_fail()),
        },
{
    match array_named(resolver, node, "Limits") {
        Ok(Some(limits)) => match limit(resolver, &limits, 0) {
            Ok(low) => match limit(resolver, &limits, 1) {
                Ok(high) => Ok(Some((low, high))),
                Err(error) => Err(error),
            },
            Err(error) => Err(error),
        },
        Ok(None) => Ok(None),
        Err(error) => Err(error),
    }
}

/// A range: the value resolved, and the entries of a range dictionary resolved too.
fn range<R: ObjectResolver>(resolver: &R, object: &Object) -> (r: Result<Object>)
    ensures
        match r {
            Ok(range) => range@ == range_value(resolver.model(), object@),
            Err(error) => source_failure(error, resolver.can_fail()),
        },
{
    let range = match skip_unless_io(dereference(resolver, object)) {
        Ok(Some(object)) => match into_owned(object) {
            Object::Dictionary(range) => range,
            object => {
                return Ok(object);
            },
        },
        Ok(None) => {
            return Ok(Object::Null);
        },
        Err(error) => {
            return Err(error);
        },
    };
    let mut resolved = Dictionary::new();
    let mut i: usize = 0;
    while i < range.entries.len()
        invariant
            i <= range.entries@.len(),
            resolved@ == resolved_entries(resolver.model(), range@.take(i as int)),
        decreases range.entries@.len() - i,
    {
        assert(range@.take(i + 1).drop_last() =~= range@.take(i as int));
        let (key, entry) = &range.entries[i];
        match skip_unless_io(dereference(resolver, entry)) {
            Ok(Some(entry)) => {
                resolved.set(bytes::to_vec(key.as_slice()), into_owned(entry));
            },
            Ok(None) => {},
            Err(error) => {
                return Err(error);
            },
        }
        i += 1;
    }
    assert(range@.take(i as int) =~= range@);
    Ok(Object::Dictionary(resolved))
}

/// Reads number-tree nodes.
pub struct TreeReader {
    nodes: Vec<Node>,
    /// Nodes already read, by object id, so that a node listed twice is read once.
    ids: IdMap<usize>,
    /// The nodes from the root to the one being read, so that a cycle ends.
    path: Vec<ObjectId>,
    entries: usize,
}

impl TreeReader {
    pub fn new() -> (r: Self)
        ensures
            r.well_formed(),
            r.nodes().len() == 0,
            r.path().len() == 0,
            r.progress() == (Progress { ids: Map::empty(), nodes: 0, entries: 0 }),
    {
        let reader = TreeReader {
            nodes: Vec::new(),
            ids: IdMap::new(),
            path: Vec::new(),
            entries: 0,
        };
        assert(reader.progress().ids =~= Map::<ObjectId, TreeNode>::empty());
        reader
    }

    /// The nodes read so far, each behind the nodes under it.
    pub closed spec fn nodes(&self) -> Seq<Node> {
        self.nodes@
    }

    /// The nodes from the root to the one being read.
    pub closed spec fn path(&self) -> Seq<ObjectId> {
        self.path@
    }

    pub closed spec fn well_formed(&self) -> bool {
        &&& nodes_hold(self.nodes@)
        &&& forall|id: ObjectId|
            self.ids@.contains_key(id) ==> #[trigger] self.ids@[id] < self.nodes@.len()
        &&& self.entries <= MAX_ENTRIES
    }

    pub closed spec fn progress(&self) -> Progress {
        Progress {
            ids: self.ids@.map_values(|place: usize| self.nodes@[place as int].model@),
            nodes: self.nodes@.len(),
            entries: self.entries as nat,
        }
    }

    /// Whether the nodes of `before` are still there, unchanged.
    pub open spec fn extends(&self, before: &Self) -> bool {
        &&& before.nodes().len() <= self.nodes().len()
        &&& forall|place: int|
            0 <= place < before.nodes().len() ==> self.nodes()[place]
                == #[trigger] before.nodes()[place]
    }

    /// Whether `path` holds `id`.
    fn on_path(&self, id: ObjectId) -> (r: bool)
        ensures
            r == self.path@.to_set().contains(id),
    {
        let mut i: usize = 0;
        while i < self.path.len()
            invariant
                i <= self.path@.len(),
                forall|j: int| 0 <= j < i ==> self.path@[j] != id,
            decreases self.path@.len() - i,
        {
            if self.path[i].0 == id.0 && self.path[i].1 == id.1 {
                assert(self.path@[i as int] == id);
                return true;
            }
            i += 1;
        }
        false
    }

    /// Adds a node, and returns its place.
    fn add_node(&mut self, node: Node, id: Option<ObjectId>) -> (r: usize)
        requires
            old(self).well_formed(),
            node_holds(old(self).nodes@.push(node), old(self).nodes@.len() as int),
        ensures
            final(self).well_formed(),
            final(self).extends(old(self)),
            final(self).path@ == old(self).path@,
            r == final(self).nodes@.len() - 1,
            final(self).nodes@[r as int].model == node.model,
            final(self).progress() == with_node(old(self).progress(), node.model@, id),
    {
        let ghost before = *self;
        let place = self.nodes.len();
        proof {
            lemma_nodes_hold_push(self.nodes@, node);
        }
        self.nodes.push(node);
        if let Some(id) = id {
            self.ids.insert(id, place);
        }
        proof {
            let expected = with_node(before.progress(), node.model@, id);
            assert(self.progress().ids =~= expected.ids);
        }
        place
    }

    /// Reads the entries of `/Nums`.
    fn read_entries<R: ObjectResolver>(&mut self, resolver: &R, nums: &Vec<Object>) -> (r: Result<
        (Vec<i64>, Vec<Object>),
    >)
        requires
            old(self).well_formed(),
        ensures
            final(self).nodes == old(self).nodes,
            final(self).ids == old(self).ids,
            final(self).path == old(self).path,
            match r {
                Ok((keys, objects)) => {
                    let count = entries_read(values(nums@), old(self).entries as nat);
                    &&& final(self).entries == old(self).entries + count
                    &&& final(self).entries <= MAX_ENTRIES
                    &&& keys@.len() == objects@.len()
                    &&& paired_entries(keys@, objects@) == tree_entries(
                        resolver.model(),
                        values(nums@),
                        count,
                    )
                },
                Err(error) => source_failure(error, resolver.can_fail()),
            },
    {
        let mut keys: Vec<i64> = Vec::new();
        let mut objects: Vec<Object> = Vec::new();
        let ghost before = *self;
        let ghost count = entries_read(values(nums@), before.entries as nat);
        while keys.len() < nums.len() / 2 && self.entries < MAX_ENTRIES
            invariant
                before == *old(self),
                before.entries <= MAX_ENTRIES,
                count == entries_read(values(nums@), before.entries as nat),
                self.nodes == before.nodes,
                self.ids == before.ids,
                self.path == before.path,
                self.entries == before.entries + keys@.len(),
                self.entries <= MAX_ENTRIES,
                keys@.len() <= nums@.len() / 2,
                keys@.len() == objects@.len(),
                forall|i: int|
                    0 <= i < keys@.len() ==> #[trigger] keys@[i] == followed_number(
                        resolver.model(),
                        values(nums@)[2 * i],
                    ),
                forall|i: int|
                    0 <= i < objects@.len() ==> (#[trigger] objects@[i])@ == range_value(
                        resolver.model(),
                        values(nums@)[2 * i + 1],
                    ),
            decreases nums@.len() / 2 - keys@.len(),
        {
            let position = keys.len();
            self.entries = self.entries + 1;
            match resolved_integer(resolver, &nums[2 * position]) {
                Ok(key) => {
                    keys.push(key);
                },
                Err(error) => {
                    return Err(error);
                },
            }
            match range(resolver, &nums[2 * position + 1]) {
                Ok(object) => {
                    objects.push(object);
                },
                Err(error) => {
                    return Err(error);
                },
            }
        }
        assert(keys@.len() == count);
        assert(paired_entries(keys@, objects@) =~= tree_entries(
            resolver.model(),
            values(nums@),
            count,
        ));
        Ok((keys, objects))
    }

    /// Reads `node`, with the object id `id`, and the nodes under it, and returns its place.
    pub fn read_node<R: ObjectResolver>(
        &mut self,
        resolver: &R,
        node: &Dictionary,
        id: Option<ObjectId>,
        depth: usize,
    ) -> (r: Result<usize>)
        requires
            old(self).well_formed(),
            depth <= MAX_TREE_DEPTH,
        ensures
            match r {
                Ok(place) => {
                    let (read, after) = node_read(
                        resolver.model(),
                        node@,
                        id,
                        old(self).path().to_set(),
                        depth as nat,
                        old(self).progress(),
                    );
                    &&& final(self).well_formed()
                    &&& final(self).extends(old(self))
                    &&& final(self).path() == old(self).path()
                    &&& place == final(self).nodes().len() - 1
                    &&& final(self).nodes()[place as int].model@ == read
                    &&& thresholds_hold(final(self).nodes())
                    &&& final(self).progress() == after
                },
                Err(error) => source_failure(error, resolver.can_fail()),
            },
        decreases MAX_TREE_DEPTH - depth, 0nat,
    {
        let ghost before = *self;
        let ghost model = resolver.model();
        let ghost path = self.path@.to_set();
        let limits = match limits_of(resolver, node) {
            Ok(limits) => limits,
            Err(error) => {
                return Err(error);
            },
        };
        let nums = match array_named(resolver, node, "Nums") {
            Ok(nums) => nums,
            Err(error) => {
                return Err(error);
            },
        };
        let content: Content;
        let inner: i64;
        let ghost mut read: TreeContent = TreeContent::Nothing;
        if let Some(nums) = nums {
            match self.read_entries(resolver, &nums) {
                Ok((keys, objects)) => {
                    let suffix_min = suffix_minimum(&keys);
                    proof {
                        let entries = paired_entries(keys@, objects@);
                        assert(keys_of(entries) =~= keys@);
                        lemma_least_from(keys@, 0);
                        read = TreeContent::Entries(entries);
                    }
                    inner = if suffix_min.len() > 0 {
                        suffix_min[0]
                    } else {
                        i64::MAX
                    };
                    content = Content::Entries { keys, objects, suffix_min };
                },
                Err(error) => {
                    return Err(error);
                },
            }
        } else {
            let kid_objects = match array_named(resolver, node, "Kids") {
                Ok(kids) => kids,
                Err(error) => {
                    return Err(error);
                },
            };
            match kid_objects {
                Some(kid_objects) if depth < MAX_TREE_DEPTH => {
                    let ghost all = values(kid_objects@);
                    let ghost expected = kids_read(
                        model,
                        all,
                        path,
                        (depth + 1) as nat,
                        before.progress(),
                    );
                    let mut kids: Vec<usize> = Vec::new();
                    let mut kid_thresholds: Vec<i64> = Vec::new();
                    let mut i: usize = 0;
                    proof {
                        assert(all.skip(0) =~= all);
                        assert(nodes_at(self.nodes@, kids@) =~= Seq::<TreeNode>::empty());
                        assert(Seq::<TreeNode>::empty() + expected.0 =~= expected.0);
                    }
                    while i < kid_objects.len()
                        invariant
                            depth < MAX_TREE_DEPTH,
                            model == resolver.model(),
                            path == before.path@.to_set(),
                            i <= kid_objects@.len(),
                            all == values(kid_objects@),
                            self.well_formed(),
                            self.extends(&before),
                            self.path@ == before.path@,
                            forall|j: int|
                                0 <= j < kids@.len() ==> #[trigger] kids@[j] < self.nodes@.len(),
                            kid_thresholds@ == thresholds(nodes_at(self.nodes@, kids@)),
                            ({
                                let left = kids_read(
                                    model,
                                    all.skip(i as int),
                                    path,
                                    (depth + 1) as nat,
                                    self.progress(),
                                );
                                expected == (nodes_at(self.nodes@, kids@) + left.0, left.1)
                            }),
                        decreases kid_objects@.len() - i,
                    {
                        let ghost earlier = *self;
                        let ghost done = nodes_at(self.nodes@, kids@);
                        assert(all.skip(i as int)[0] == all[i as int]);
                        assert(all.skip(i as int).drop_first() =~= all.skip(i + 1));
                        match self.read_kid(resolver, &kid_objects[i], depth + 1) {
                            Ok(Some(kid)) => {
                                proof {
                                    assert forall|j: int| 0 <= j < kids@.len() implies self.nodes@[
                                    kids@[j] as int] == earlier.nodes@[#[trigger] kids@[j] as int] by {}
                                    assert(nodes_at(self.nodes@, kids@) =~= done);
                                    assert(node_holds(self.nodes@, kid as int));
                                    assert(nodes_at(self.nodes@, kids@.push(kid)) =~= done.push(
                                        self.nodes@[kid as int].model@,
                                    ));
                                    assert(thresholds(done.push(self.nodes@[kid as int].model@))
                                        =~= kid_thresholds@.push(
                                        self.nodes@[kid as int].threshold,
                                    ));
                                    let left = kids_read(
                                        model,
                                        all.skip(i + 1),
                                        path,
                                        (depth + 1) as nat,
                                        self.progress(),
                                    );
                                    assert(done + (seq![self.nodes@[kid as int].model@] + left.0)
                                        =~= done.push(self.nodes@[kid as int].model@) + left.0);
                                }
                                kids.push(kid);
                                kid_thresholds.push(self.nodes[kid].threshold);
                            },
                            Ok(None) => {
                                proof {
                                    assert(nodes_at(self.nodes@, kids@) =~= done);
                                }
                            },
                            Err(error) => {
                                return Err(error);
                            },
                        }
                        i += 1;
                    }
                    let suffix_min = suffix_minimum(&kid_thresholds);
                    proof {
                        let nodes = nodes_at(self.nodes@, kids@);
                        assert(all.skip(i as int) =~= Seq::<Value>::empty());
                        assert(nodes + Seq::<TreeNode>::empty() =~= nodes);
                        lemma_least_thresholds(nodes, 0);
                        assert(nodes.skip(0) =~= nodes);
                        lemma_least_from(kid_thresholds@, 0);
                        read = TreeContent::Kids(nodes);
                    }
                    inner = if suffix_min.len() > 0 {
                        suffix_min[0]
                    } else {
                        i64::MAX
                    };
                    content = Content::Kids { kids, suffix_min };
                },
                _ => {
                    inner = i64::MAX;
                    content = Content::Nothing;
                },
            }
        }
        let threshold = match limits {
            // At or past the upper limit, a node always gives a lower bound.
            Some((low, high)) => {
                let upper = if high <= inner {
                    high
                } else {
                    inner
                };
                if low >= upper {
                    low
                } else {
                    upper
                }
            },
            None => inner,
        };
        let node = Node {
            limits,
            content,
            threshold,
            model: Ghost(TreeNode { limits, content: read }),
        };
        proof {
            let more = self.nodes@.push(node);
            let added = more.last();
            if let Content::Kids { kids, .. } = added.content {
                assert(nodes_at(more, kids@) =~= nodes_at(self.nodes@, kids@));
            }
            assert(node_holds(more, self.nodes@.len() as int));
        }
        let place = self.add_node(node, id);
        proof {
            lemma_thresholds_hold(self.nodes@);
        }
        Ok(place)
    }

    fn read_kid<R: ObjectResolver>(&mut self, resolver: &R, kid: &Object, depth: usize) -> (r:
        Result<Option<usize>>)
        requires
            old(self).well_formed(),
            depth <= MAX_TREE_DEPTH,
        ensures
            match r {
                Ok(place) => {
                    let (read, after) = kid_read(
                        resolver.model(),
                        kid@,
                        old(self).path@.to_set(),
                        depth as nat,
                        old(self).progress(),
                    );
                    &&& final(self).well_formed()
                    &&& final(self).extends(old(self))
                    &&& final(self).path@ == old(self).path@
                    &&& match place {
                        Some(place) => place < final(self).nodes@.len() && read == Some(
                            final(self).nodes@[place as int].model@,
                        ),
                        None => read is None,
                    }
                    &&& final(self).progress() == after
                },
                Err(error) => source_failure(error, resolver.can_fail()),
            },
        decreases MAX_TREE_DEPTH - depth, 1nat,
    {
        let ghost before = *self;
        let id = match kid {
            Object::Reference(id) => Some(*id),
            _ => None,
        };
        if let Some(id) = id {
            if let Some(place) = self.ids.get(id) {
                return Ok(Some(*place));
            }
            if self.on_path(id) || self.nodes.len() >= MAX_NODES {
                return Ok(None);
            }
        }
        let node = match skip_unless_io(dereference(resolver, kid)) {
            Ok(Some(object)) => match into_owned(object) {
                Object::Dictionary(node) => node,
                _ => {
                    return Ok(None);
                },
            },
            Ok(None) => {
                return Ok(None);
            },
            Err(error) => {
                return Err(error);
            },
        };
        if let Some(id) = id {
            self.path.push(id);
            assert(self.path@.to_set() =~= before.path@.to_set().insert(id)) by {
                assert(self.path@.last() == id);
                assert forall|other: ObjectId| before.path@.contains(other) implies self.path@.contains(
                    other,
                ) by {
                    let j = before.path@.index_of(other);
                    assert(self.path@[j] == other);
                }
            }
            assert(self.progress() == before.progress());
        }
        match self.read_node(resolver, &node, id, depth) {
            Ok(place) => {
                if id.is_some() {
                    self.path.pop();
                    assert(self.path@ =~= before.path@);
                }
                Ok(Some(place))
            },
            Err(error) => Err(error),
        }
    }
}

proof fn lemma_least_thresholds(kids: Seq<TreeNode>, from: int)
    requires
        0 <= from <= kids.len(),
    ensures
        least_from(thresholds(kids), from) == least_threshold(kids.skip(from)),
    decreases kids.len() - from,
{
    if from < kids.len() {
        lemma_least_thresholds(kids, from + 1);
        assert(kids.skip(from).drop_first() =~= kids.skip(from + 1));
        assert(kids.skip(from)[0] == kids[from]);
    }
}

/// The number tree whose root is `root`, and the root's place in it.
pub fn read_tree<R: ObjectResolver>(resolver: &R, root: &Dictionary) -> (r: Result<
    (NumberTree, usize),
>)
    ensures
        match r {
            Ok((tree, place)) => tree.well_formed() && place == tree.nodes().len() - 1
                && thresholds_hold(tree.nodes()) && tree.nodes()[place as int].model@ == tree_of(resolver.model(), root@),
            Err(error) => source_failure(error, resolver.can_fail()),
        },
{
    let mut reader = TreeReader::new();
    proof {
        assert(reader.path().to_set() =~= Set::<ObjectId>::empty());
    }
    match reader.read_node(resolver, root, None, 0) {
        Ok(place) => Ok((NumberTree::new(reader.nodes), place)),
        Err(error) => Err(error),
    }
}

} // verus!
