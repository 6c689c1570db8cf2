//! What built documents hold.

use vstd::prelude::*;

use crate::bytes::key;
use crate::fixtures::{
    built, entries_added, entries_from, entry_count, entry_node, explicit_value, font_value,
    heading_content, headings_content, lemma_entry_numbers, literal, numbered, page_references,
    page_value, pages_added, rectangle, tree_value, with_children, with_target, BuildModel,
    EntryModel, HeadingModel, NamedModel, PageModel, TargetModel,
};
use crate::laws::lemma_keys_differ;
use crate::object::{lemma_set_then_get, named_entry, set_entry, Entries, ObjectId, Value};

verus! {

/// Setting an entry leaves those under other names.
pub proof fn lemma_with(entries: Entries, name: Seq<char>, value: Value, other: Seq<char>)
    ensures
        named_entry(set_entry(entries, key(name), value), name) == Some(value),
        other != name ==> named_entry(set_entry(entries, key(name), value), other) == named_entry(
            entries,
            other,
        ),
{
    lemma_keys_differ(name, other);
    lemma_set_then_get(entries, key(name), value, key(other));
}

proof fn lemma_pages_added(
    objects: Map<ObjectId, Value>,
    pages: Seq<PageModel>,
    n: nat,
    i: int,
)
    requires
        n <= pages.len(),
        0 <= i < n,
        4 + 2 * n <= u32::MAX,
    ensures
        pages_added(objects, pages, n).contains_pair(
            ((3 + 2 * i) as u32, 0u16),
            Value::Stream(
                Seq::empty(),
                headings_content(pages[i].headings, pages[i].headings.len()),
            ),
        ),
        pages_added(objects, pages, n).contains_pair(
            ((4 + 2 * i) as u32, 0u16),
            page_value(pages[i].attributes, i),
        ),
    decreases n,
{
    if i < n - 1 {
        lemma_pages_added(objects, pages, (n - 1) as nat, i);
    }
}

proof fn lemma_highest_grows(
    b: BuildModel,
    parent: ObjectId,
    first: int,
    entries: Seq<EntryModel>,
    index: nat,
)
    ensures
        entries_from(b, parent, first, entries, index).highest >= b.highest,
    decreases entries, entries.len() - index,
{
    if index < entries.len() {
        let entry = entries[index as int];
        let id = numbered(first + index);
        lemma_highest_grows(
            BuildModel { highest: b.highest + entry.children.len(), ..b },
            id,
            b.highest + 1,
            entry.children,
            0,
        );
        let after = entries_added(b, id, entry.children);
        let node = with_children(
            entry_node(entry, parent, first, index as int, entries.len() as int),
            b.highest + 1,
            entry.children.len() as int,
        );
        lemma_highest_grows(
            BuildModel { objects: after.objects.insert(id, Value::Dictionary(node)), ..after },
            parent,
            first,
            entries,
            index + 1,
        );
    }
}

/// Entries take numbers of their own: what has a number below stays as it is.
proof fn lemma_numbers_below_stay(
    b: BuildModel,
    parent: ObjectId,
    first: int,
    entries: Seq<EntryModel>,
    index: nat,
    number: int,
)
    requires
        0 <= number < first + index,
        number <= b.highest,
        0 <= first,
        first + entries.len() - 1 <= b.highest,
        entries_from(b, parent, first, entries, index).highest <= u32::MAX,
    ensures
        entries_from(b, parent, first, entries, index).objects.contains_key(numbered(number))
            == b.objects.contains_key(numbered(number)),
        entries_from(b, parent, first, entries, index).objects[numbered(number)]
            == b.objects[numbered(number)],
    decreases entries, entries.len() - index,
{
    if index < entries.len() {
        let entry = entries[index as int];
        let id = numbered(first + index);
        let after = entries_added(b, id, entry.children);
        let node = with_children(
            entry_node(entry, parent, first, index as int, entries.len() as int),
            b.highest + 1,
            entry.children.len() as int,
        );
        let next = BuildModel {
            objects: after.objects.insert(id, Value::Dictionary(node)),
            ..after
        };
        let room = BuildModel { highest: b.highest + entry.children.len(), ..b };
        assert(after == entries_from(room, id, b.highest + 1, entry.children, 0));
        lemma_highest_grows(next, parent, first, entries, index + 1);
        lemma_highest_grows(room, id, b.highest + 1, entry.children, 0);
        lemma_numbers_below_stay(room, id, b.highest + 1, entry.children, 0, number);
        lemma_numbers_below_stay(next, parent, first, entries, index + 1, number);
        assert(numbered(number) != id);
        assert(entries_from(b, parent, first, entries, index) == entries_from(
            next,
            parent,
            first,
            entries,
            index + 1,
        ));
    }
}

/// How many numbers a built document of so many pages and entries takes.
pub open spec fn numbers_taken(pages: Seq<PageModel>, entries: Seq<EntryModel>) -> nat {
    4 + 2 * pages.len() + entry_count(entries, 0)
}

proof fn lemma_kept(
    pages: Seq<PageModel>,
    named: Seq<NamedModel>,
    entries: Seq<EntryModel>,
    number: int,
)
    requires
        numbers_taken(pages, entries) <= u32::MAX,
        0 <= number < 3 + 2 * pages.len(),
    ensures
        ({
            let start = Map::<ObjectId, Value>::empty().insert((2u32, 0u16), font_value());
            let with_pages = pages_added(start, pages, pages.len()).insert(
                (1u32, 0u16),
                tree_value(pages.len()),
            );
            &&& built(pages, named, entries).objects.contains_key(numbered(number))
                == with_pages.contains_key(numbered(number))
            &&& built(pages, named, entries).objects[numbered(number)] == with_pages[numbered(number)]
        }),
{
    let start = Map::<ObjectId, Value>::empty().insert((2u32, 0u16), font_value());
    let with_pages = pages_added(start, pages, pages.len()).insert(
        (1u32, 0u16),
        tree_value(pages.len()),
    );
    let outlines = 3 + 2 * pages.len() as int;
    let b = BuildModel { objects: with_pages, highest: outlines };
    let room = BuildModel { highest: outlines + entries.len(), ..b };
    lemma_entry_numbers(b, numbered(outlines), entries);
    assert(entries_added(b, numbered(outlines), entries) == entries_from(
        room,
        numbered(outlines),
        outlines + 1,
        entries,
        0,
    ));
    lemma_numbers_below_stay(room, numbered(outlines), outlines + 1, entries, 0, number);
}

/// A built document has its pages in order: each is a kid of the tree's root, says what it was given to say,
/// and has its headings for content.
pub proof fn lemma_built_pages(
    pages: Seq<PageModel>,
    named: Seq<NamedModel>,
    entries: Seq<EntryModel>,
    i: int,
    name: Seq<char>,
)
    requires
        numbers_taken(pages, entries) <= u32::MAX,
        0 <= i < pages.len(),
    ensures
        ({
            let objects = built(pages, named, entries).objects;
            let page_id: ObjectId = ((4 + 2 * i) as u32, 0u16);
            let content_id: ObjectId = ((3 + 2 * i) as u32, 0u16);
            &&& objects.contains_key((1u32, 0u16))
            &&& objects[(1u32, 0u16)] matches Value::Dictionary(tree) && {
                &&& named_entry(tree, "Type"@) == Some(Value::Name(key("Pages"@)))
                &&& named_entry(tree, "Kids"@) matches Some(Value::Array(kids)) && kids.len()
                    == pages.len() && kids[i] == Value::Reference(page_id)
            }
            &&& objects.contains_key(page_id)
            &&& objects[page_id] matches Value::Dictionary(page) && {
                &&& named_entry(page, "Type"@) == Some(Value::Name(key("Page"@)))
                &&& named_entry(page, "Parent"@) == Some(Value::Reference((1u32, 0u16)))
                &&& named_entry(page, "Contents"@) == Some(Value::Reference(content_id))
                &&& name != "Type"@ && name != "Parent"@ && name != "Contents"@ && name != "Resources"@
                    ==> named_entry(page, name) == named_entry(pages[i].attributes, name)
            }
            &&& objects.contains_key(content_id)
            &&& objects[content_id] matches Value::Stream(_, content) && content == Seq::new(
                pages[i].headings.len(),
                |k: int| heading_content(pages[i].headings[k]),
            ).flatten()
        }),
{
    let start = Map::<ObjectId, Value>::empty().insert((2u32, 0u16), font_value());
    lemma_kept(pages, named, entries, 1);
    lemma_kept(pages, named, entries, 3 + 2 * i);
    lemma_kept_page(pages, named, entries, i);
    lemma_pages_added(start, pages, pages.len(), i);
    lemma_headings(pages[i].headings, pages[i].headings.len());
    lemma_page_entries(pages[i].attributes, i, name);
    lemma_tree_entries(pages.len());
    assert(pages[i].headings.take(pages[i].headings.len() as int) =~= pages[i].headings);
    assert(Seq::new(pages[i].headings.len(), |k: int| heading_content(pages[i].headings[k]))
        =~= Seq::new(
        pages[i].headings.len(),
        |k: int| heading_content(pages[i].headings.take(pages[i].headings.len() as int)[k]),
    ));
}

proof fn lemma_kept_page(
    pages: Seq<PageModel>,
    named: Seq<NamedModel>,
    entries: Seq<EntryModel>,
    i: int,
)
    requires
        numbers_taken(pages, entries) <= u32::MAX,
        0 <= i < pages.len(),
    ensures
        ({
            let start = Map::<ObjectId, Value>::empty().insert((2u32, 0u16), font_value());
            let with_pages = pages_added(start, pages, pages.len()).insert(
                (1u32, 0u16),
                tree_value(pages.len()),
            );
            let id: ObjectId = ((4 + 2 * i) as u32, 0u16);
            &&& built(pages, named, entries).objects.contains_key(id) == with_pages.contains_key(id)
            &&& built(pages, named, entries).objects[id] == with_pages[id]
        }),
{
    lemma_kept(pages, named, entries, 4 + 2 * i);
}

proof fn lemma_headings(headings: Seq<HeadingModel>, n: nat)
    requires
        n <= headings.len(),
    ensures
        headings_content(headings, n) == Seq::new(n, |k: int| heading_content(headings[k])).flatten(),
    decreases n,
{
    let parts = Seq::new(n, |k: int| heading_content(headings[k]));
    if n == 0 {
        assert(parts.flatten() =~= Seq::empty());
    } else {
        lemma_headings(headings, (n - 1) as nat);
        let front = Seq::new((n - 1) as nat, |k: int| heading_content(headings[k]));
        front.lemma_flatten_push(heading_content(headings[n - 1]));
        assert(front.push(heading_content(headings[n - 1])) =~= parts);
    }
}

proof fn lemma_page_entries(attributes: Entries, i: int, name: Seq<char>)
    ensures
        page_value(attributes, i) matches Value::Dictionary(page) && {
            &&& named_entry(page, "Type"@) == Some(Value::Name(key("Page"@)))
            &&& named_entry(page, "Parent"@) == Some(Value::Reference((1u32, 0u16)))
            &&& named_entry(page, "Contents"@) == Some(
                Value::Reference(((3 + 2 * i) as u32, 0u16)),
            )
            &&& name != "Type"@ && name != "Parent"@ && name != "Contents"@ && name != "Resources"@
                ==> named_entry(page, name) == named_entry(attributes, name)
        },
{
    reveal_strlit("Type");
    reveal_strlit("Parent");
    reveal_strlit("Contents");
    reveal_strlit("Resources");
    let page = page_value(attributes, i)->Dictionary_0;
    let one = set_entry(attributes, key("Type"@), Value::Name(key("Page"@)));
    let two = set_entry(one, key("Parent"@), Value::Reference((1u32, 0u16)));
    let three = set_entry(two, key("Contents"@), Value::Reference(((3 + 2 * i) as u32, 0u16)));
    let resources = named_entry(page, "Resources"@);
    assert("Type"@.len() == 4 && "Parent"@.len() == 6 && "Contents"@.len() == 8 && "Resources"@.len()
        == 9);
    let fonts = set_entry(Seq::empty(), key("F1"@), Value::Reference(numbered(2)));
    let font = set_entry(Seq::empty(), key("Font"@), Value::Dictionary(fonts));
    assert(page == set_entry(three, key("Resources"@), Value::Dictionary(font)));
    lemma_with(attributes, "Type"@, Value::Name(key("Page"@)), name);
    lemma_with(one, "Parent"@, Value::Reference((1u32, 0u16)), name);
    lemma_with(one, "Parent"@, Value::Reference((1u32, 0u16)), "Type"@);
    lemma_with(two, "Contents"@, Value::Reference(((3 + 2 * i) as u32, 0u16)), name);
    lemma_with(two, "Contents"@, Value::Reference(((3 + 2 * i) as u32, 0u16)), "Type"@);
    lemma_with(two, "Contents"@, Value::Reference(((3 + 2 * i) as u32, 0u16)), "Parent"@);
    lemma_with(three, "Resources"@, Value::Dictionary(font), name);
    lemma_with(three, "Resources"@, Value::Dictionary(font), "Type"@);
    lemma_with(three, "Resources"@, Value::Dictionary(font), "Parent"@);
    lemma_with(three, "Resources"@, Value::Dictionary(font), "Contents"@);
}

proof fn lemma_tree_entries(count: nat)
    ensures
        tree_value(count) matches Value::Dictionary(tree) && {
            &&& named_entry(tree, "Type"@) == Some(Value::Name(key("Pages"@)))
            &&& named_entry(tree, "Kids"@) matches Some(Value::Array(kids)) && kids.len() == count
                && forall|i: int|
                0 <= i < count ==> #[trigger] kids[i] == Value::Reference(
                    ((4 + 2 * i) as u32, 0u16),
                )
        },
{
    reveal_strlit("Type");
    reveal_strlit("Count");
    reveal_strlit("Kids");
    reveal_strlit("MediaBox");
    assert("Type"@[0] == 'T' && "Count"@[0] == 'C' && "Kids"@[0] == 'K' && "MediaBox"@[0] == 'M');
    let tree = tree_value(count)->Dictionary_0;
    let kids = page_references(count);
    let one = set_entry(Seq::empty(), key("Type"@), Value::Name(key("Pages"@)));
    let two = set_entry(one, key("Count"@), Value::Integer(count as i64));
    let three = set_entry(two, key("Kids"@), Value::Array(kids));
    let size = rectangle(0, 0, 600, 800);
    assert(tree == set_entry(three, key("MediaBox"@), size));
    lemma_with(Seq::empty(), "Type"@, Value::Name(key("Pages"@)), "Type"@);
    lemma_with(one, "Count"@, Value::Integer(count as i64), "Type"@);
    lemma_with(two, "Kids"@, Value::Array(kids), "Type"@);
    lemma_with(three, "MediaBox"@, size, "Type"@);
    lemma_with(three, "MediaBox"@, size, "Kids"@);
}

/// Whether a node says where an entry leads: by `/Dest`, or by an action.
pub open spec fn says_target(node: Entries, target: TargetModel) -> bool {
    match target {
        TargetModel::Explicit(page, view, arguments) => named_entry(node, "Dest"@) == Some(
            Value::Array(
                seq![Value::Reference(((4 + 2 * page) as u32, 0u16)), Value::Name(view)] + arguments,
            ),
        ),
        TargetModel::DestsName(name) => named_entry(node, "Dest"@) == Some(Value::Name(name)),
        TargetModel::TreeName(name) => named_entry(node, "Dest"@) matches Some(Value::String(text, _))
            && text == name,
        TargetModel::GoTo(page, view, arguments) => named_entry(node, "A"@) matches Some(
            Value::Dictionary(action),
        ) && named_entry(action, "S"@) == Some(Value::Name(key("GoTo"@))) && named_entry(action, "D"@)
            == Some(
            Value::Array(
                seq![Value::Reference(((4 + 2 * page) as u32, 0u16)), Value::Name(view)] + arguments,
            ),
        ),
        TargetModel::RemoteGoTo => named_entry(node, "A"@) matches Some(Value::Dictionary(action))
            && named_entry(action, "S"@) == Some(Value::Name(key("GoToR"@))),
        TargetModel::Uri => named_entry(node, "A"@) matches Some(Value::Dictionary(action))
            && named_entry(action, "S"@) == Some(Value::Name(key("URI"@))),
        TargetModel::Nowhere => named_entry(node, "Dest"@) is None && named_entry(node, "A"@) is None,
    }
}

proof fn lemma_outline_names_differ()
    ensures
        forall|i: int, j: int|
            0 <= i < j < outline_names().len() ==> #[trigger] outline_names()[i]
                != #[trigger] outline_names()[j],
{
    reveal_strlit("Parent");
    reveal_strlit("Title");
    reveal_strlit("Prev");
    reveal_strlit("Next");
    reveal_strlit("Dest");
    reveal_strlit("A");
    reveal_strlit("First");
    reveal_strlit("Last");
    let names = outline_names();
    assert(names[0].len() == 6 && names[1].len() == 5 && names[2].len() == 4 && names[3].len() == 4
        && names[4].len() == 4 && names[5].len() == 1 && names[6].len() == 5 && names[7].len() == 4);
    assert(names[1][0] == 'T' && names[2][0] == 'P' && names[3][0] == 'N' && names[4][0] == 'D'
        && names[6][0] == 'F' && names[7][0] == 'L');
}

/// The names that an outline node can have.
pub open spec fn outline_names() -> Seq<Seq<char>> {
    seq!["Parent"@, "Title"@, "Prev"@, "Next"@, "Dest"@, "A"@, "First"@, "Last"@]
}

/// What a target says in a node leaves its other entries.
proof fn lemma_targets(node: Entries, target: TargetModel, name: Seq<char>)
    requires
        named_entry(node, "Dest"@) is None,
        named_entry(node, "A"@) is None,
    ensures
        says_target(with_target(node, target), target),
        name != "Dest"@ && name != "A"@ ==> named_entry(with_target(node, target), name) == named_entry(
            node,
            name,
        ),
{
    lemma_outline_names_differ();
    assert(outline_names()[4] != outline_names()[5]);
    reveal_strlit("S");
    reveal_strlit("D");
    reveal_strlit("F");
    reveal_strlit("URI");
    assert("S"@[0] == 'S' && "D"@[0] == 'D' && "F"@[0] == 'F' && "URI"@[0] == 'U');
    match target {
        TargetModel::Explicit(page, view, arguments) => {
            lemma_with(node, "Dest"@, explicit_value(page, view, arguments), name);
        },
        TargetModel::DestsName(named) => {
            lemma_with(node, "Dest"@, Value::Name(named), name);
        },
        TargetModel::TreeName(named) => {
            lemma_with(node, "Dest"@, literal(named), name);
        },
        TargetModel::GoTo(page, view, arguments) => {
            let one = set_entry(Seq::empty(), key("S"@), Value::Name(key("GoTo"@)));
            let action = set_entry(one, key("D"@), explicit_value(page, view, arguments));
            lemma_with(Seq::empty(), "S"@, Value::Name(key("GoTo"@)), "S"@);
            lemma_with(one, "D"@, explicit_value(page, view, arguments), "S"@);
            lemma_with(node, "A"@, Value::Dictionary(action), name);
        },
        TargetModel::RemoteGoTo => {
            let one = set_entry(Seq::empty(), key("S"@), Value::Name(key("GoToR"@)));
            let two = set_entry(one, key("F"@), literal(key("other.pdf"@)));
            let place = Value::Array(seq![Value::Integer(0), Value::Name(key("Fit"@))]);
            let action = set_entry(two, key("D"@), place);
            lemma_with(Seq::empty(), "S"@, Value::Name(key("GoToR"@)), "S"@);
            lemma_with(one, "F"@, literal(key("other.pdf"@)), "S"@);
            lemma_with(two, "D"@, place, "S"@);
            lemma_with(node, "A"@, Value::Dictionary(action), name);
        },
        TargetModel::Uri => {
            let one = set_entry(Seq::empty(), key("S"@), Value::Name(key("URI"@)));
            let action = set_entry(one, key("URI"@), literal(key("https://example.com"@)));
            lemma_with(Seq::empty(), "S"@, Value::Name(key("URI"@)), "S"@);
            lemma_with(one, "URI"@, literal(key("https://example.com"@)), "S"@);
            lemma_with(node, "A"@, Value::Dictionary(action), name);
        },
        TargetModel::Nowhere => {},
    }
}

/// The node of an entry has the entry's title and says where it leads; it refers to its parent, to the
/// entries before and behind it, if there are any, and to its first and last child, if it has any.
pub proof fn lemma_nodes(
    item: EntryModel,
    parent: ObjectId,
    first: int,
    index: int,
    count: int,
    child: int,
)
    requires
        0 <= index < count,
    ensures
        ({
            let node = with_children(
                entry_node(item, parent, first, index, count),
                child,
                item.children.len() as int,
            );
            &&& named_entry(node, "Parent"@) == Some(Value::Reference(parent))
            &&& named_entry(node, "Title"@) == match item.title {
                Some(title) => Some(literal(title)),
                None => None,
            }
            &&& named_entry(node, "Prev"@) == if index > 0 {
                Some(Value::Reference(((first + index - 1) as u32, 0u16)))
            } else {
                None
            }
            &&& named_entry(node, "Next"@) == if index < count - 1 {
                Some(Value::Reference(((first + index + 1) as u32, 0u16)))
            } else {
                None
            }
            &&& named_entry(node, "First"@) == if item.children.len() > 0 {
                Some(Value::Reference((child as u32, 0u16)))
            } else {
                None
            }
            &&& named_entry(node, "Last"@) == if item.children.len() > 0 {
                Some(Value::Reference(((child + item.children.len() - 1) as u32, 0u16)))
            } else {
                None
            }
            &&& says_target(node, item.target)
        }),
{
    lemma_outline_names_differ();
    let names = outline_names();
    assert(names[0] == "Parent"@ && names[1] == "Title"@ && names[2] == "Prev"@ && names[3] == "Next"@);
    assert(names[4] == "Dest"@ && names[5] == "A"@ && names[6] == "First"@ && names[7] == "Last"@);
    let placed = set_entry(Seq::empty(), key("Parent"@), Value::Reference(parent));
    let titled = match item.title {
        Some(title) => set_entry(placed, key("Title"@), literal(title)),
        None => placed,
    };
    let before = Value::Reference(numbered(first + index - 1));
    let after = if index > 0 {
        set_entry(titled, key("Prev"@), before)
    } else {
        titled
    };
    let behind = Value::Reference(numbered(first + index + 1));
    let between = if index + 1 < count {
        set_entry(after, key("Next"@), behind)
    } else {
        after
    };
    let led = with_target(between, item.target);
    assert(led == entry_node(item, parent, first, index, count));
    let child_value = Value::Reference(numbered(child));
    let last_value = Value::Reference(numbered(child + item.children.len() - 1));
    let opened = set_entry(led, key("First"@), child_value);
    assert forall|k: int| 0 <= k < 8 implies {
        let name = #[trigger] names[k];
        &&& named_entry(placed, name) == if k == 0 {
            Some(Value::Reference(parent))
        } else {
            None
        }
        &&& k != 1 ==> named_entry(titled, name) == named_entry(placed, name)
        &&& k != 2 ==> named_entry(after, name) == named_entry(titled, name)
        &&& k != 3 ==> named_entry(between, name) == named_entry(after, name)
        &&& k != 4 && k != 5 && named_entry(between, "Dest"@) is None && named_entry(between, "A"@)
            is None ==> named_entry(led, name) == named_entry(between, name)
        &&& k != 6 ==> named_entry(opened, name) == named_entry(led, name)
        &&& k != 7 ==> named_entry(set_entry(opened, key("Last"@), last_value), name) == named_entry(
            opened,
            name,
        )
    } by {
        let name = names[k];
        lemma_with(Seq::empty(), "Parent"@, Value::Reference(parent), name);
        if let Some(title) = item.title {
            lemma_with(placed, "Title"@, literal(title), name);
        }
        lemma_with(titled, "Prev"@, before, name);
        lemma_with(after, "Next"@, behind, name);
        if named_entry(between, "Dest"@) is None && named_entry(between, "A"@) is None {
            lemma_targets(between, item.target, name);
        }
        lemma_with(led, "First"@, child_value, name);
        lemma_with(opened, "Last"@, last_value, name);
    }
    lemma_with(titled, "Prev"@, before, "Prev"@);
    lemma_with(after, "Next"@, behind, "Next"@);
    lemma_with(led, "First"@, child_value, "First"@);
    lemma_with(opened, "Last"@, last_value, "Last"@);
    if let Some(title) = item.title {
        lemma_with(placed, "Title"@, literal(title), "Title"@);
    }
    assert(named_entry(placed, names[4]) is None && named_entry(placed, names[5]) is None);
    assert(named_entry(between, "Dest"@) is None);
    assert(named_entry(between, "A"@) is None);
    lemma_targets(between, item.target, "Title"@);
    let node = with_children(led, child, item.children.len() as int);
    assert(named_entry(node, names[0]) == named_entry(placed, names[0]));
    assert(named_entry(node, names[1]) == named_entry(titled, names[1]));
    assert(named_entry(node, names[2]) == named_entry(after, names[2]));
    assert(named_entry(node, names[3]) == named_entry(between, names[3]));
    assert(named_entry(node, names[4]) == named_entry(led, names[4]));
    assert(named_entry(node, names[5]) == named_entry(led, names[5]));
    assert(named_entry(node, names[6]) == if item.children.len() > 0 {
        Some(child_value)
    } else {
        None
    });
    assert(named_entry(node, names[7]) == if item.children.len() > 0 {
        Some(last_value)
    } else {
        None
    });
}

/// The entries of a list take the next numbers, in order, and each one's children the next numbers behind
/// those that are taken then.
pub proof fn lemma_entries_in_order(
    b: BuildModel,
    parent: ObjectId,
    entries: Seq<EntryModel>,
    k: int,
) -> (child: int)
    requires
        0 <= b.highest,
        0 <= k < entries.len(),
        entries_added(b, parent, entries).highest <= u32::MAX,
    ensures
        child > b.highest + entries.len(),
        ({
            let first = b.highest + 1;
            entries_added(b, parent, entries).objects.contains_pair(
                ((first + k) as u32, 0u16),
                Value::Dictionary(
                    with_children(
                        entry_node(entries[k], parent, first, k, entries.len() as int),
                        child,
                        entries[k].children.len() as int,
                    ),
                ),
            )
        }),
{
    let room = BuildModel { highest: b.highest + entries.len(), ..b };
    lemma_entry_at(room, parent, b.highest + 1, entries, 0, k)
}

proof fn lemma_entry_at(
    b: BuildModel,
    parent: ObjectId,
    first: int,
    entries: Seq<EntryModel>,
    index: nat,
    k: int,
) -> (child: int)
    requires
        0 <= first,
        index <= k < entries.len(),
        first + entries.len() - 1 <= b.highest,
        entries_from(b, parent, first, entries, index).highest <= u32::MAX,
    ensures
        child > b.highest,
        entries_from(b, parent, first, entries, index).objects.contains_pair(
            ((first + k) as u32, 0u16),
            Value::Dictionary(
                with_children(
                    entry_node(entries[k], parent, first, k, entries.len() as int),
                    child,
                    entries[k].children.len() as int,
                ),
            ),
        ),
    decreases entries.len() - index,
{
    let item = entries[index as int];
    let id = numbered(first + index);
    let after = entries_added(b, id, item.children);
    let node = with_children(
        entry_node(item, parent, first, index as int, entries.len() as int),
        b.highest + 1,
        item.children.len() as int,
    );
    let next = BuildModel { objects: after.objects.insert(id, Value::Dictionary(node)), ..after };
    let room = BuildModel { highest: b.highest + item.children.len(), ..b };
    assert(after == entries_from(room, id, b.highest + 1, item.children, 0));
    lemma_highest_grows(room, id, b.highest + 1, item.children, 0);
    lemma_highest_grows(next, parent, first, entries, index + 1);
    assert(entries_from(b, parent, first, entries, index) == entries_from(
        next,
        parent,
        first,
        entries,
        index + 1,
    ));
    if k == index {
        lemma_numbers_below_stay(next, parent, first, entries, index + 1, first + index);
        b.highest + 1
    } else {
        lemma_entry_at(next, parent, first, entries, index + 1, k)
    }
}

} // verus!
