//! The revisions of a file.

use vstd::prelude::*;

use crate::bytes::key;
use crate::error::Error;
use crate::laws::lemma_keys_differ;
use crate::lazy::file::{
    corrected_offset, lemma_section_keys, lemma_unseen_offsets, offset_in, opened, section_at,
    structure_of, tail_bytes, with_older, ReadOptions,
};
use crate::object::{
    entry, integer_of, lemma_remove_takes_the_key_out, named_entry, remove_entry, Entries, Value,
};
use crate::parser::file::xref_start_of;
use crate::xref::{merged, XrefEntry};

verus! {

/// The entries that the cross-reference section at `offset` lists.
pub open spec fn listed_at(file: Seq<u8>, options: ReadOptions, offset: int) -> Map<u32, XrefEntry> {
    section_at(file, options, offset)->Ok_0.0
}

/// The trailer of the cross-reference section at `offset`.
pub open spec fn trailer_at(file: Seq<u8>, options: ReadOptions, offset: int) -> Entries {
    section_at(file, options, offset)->Ok_0.1
}

/// The offset under a key of the trailer of the section at `offset`, if an integer is there.
pub open spec fn names_offset(
    file: Seq<u8>,
    options: ReadOptions,
    offset: int,
    name: Seq<char>,
    to: Option<int>,
) -> bool {
    match named_entry(trailer_at(file, options, offset), name) {
        Some(Value::Integer(i)) => to == Some(i as int),
        _ => to is None,
    }
}

/// Whether `chain` are the offsets of sections that can be read, each naming the next in its `/Prev`,
/// from the newest on: all of them but the newest are within the file and different from each other,
/// and the last names none, or one of the others again.
pub open spec fn is_chain(file: Seq<u8>, options: ReadOptions, chain: Seq<int>) -> bool {
    &&& chain.len() > 0
    &&& forall|i: int|
        0 <= i < chain.len() ==> section_at(file, options, #[trigger] chain[i]) is Ok
    &&& forall|i: int|
        0 < i < chain.len() ==> 0 <= #[trigger] chain[i] <= file.len() && names_offset(
            file,
            options,
            chain[i - 1],
            "Prev"@,
            Some(chain[i]),
        )
    &&& forall|i: int, j: int|
        0 < i < j < chain.len() ==> #[trigger] chain[i] != #[trigger] chain[j]
    &&& names_offset(file, options, chain.last(), "Prev"@, None) || exists|i: int|
        0 < i < chain.len() && names_offset(
            file,
            options,
            chain.last(),
            "Prev"@,
            Some(#[trigger] chain[i]),
        )
}

/// The entries of the sections of a chain, the newest first. The section that the newest trailer of a
/// file with an older revision names in its `/XRefStm` comes behind the second.
pub open spec fn tables_along(
    file: Seq<u8>,
    options: ReadOptions,
    chain: Seq<int>,
    hybrid: Option<int>,
) -> Seq<Map<u32, XrefEntry>> {
    let tables = Seq::new(chain.len(), |i: int| listed_at(file, options, chain[i]));
    match hybrid {
        Some(stream) if chain.len() > 1 => tables.take(2).push(listed_at(file, options, stream))
            + tables.skip(2),
        _ => tables,
    }
}

/// Whether each number has the entry of the first of `tables` that lists it, and no other has one.
pub open spec fn takes_the_first(table: Map<u32, XrefEntry>, tables: Seq<Map<u32, XrefEntry>>) -> bool {
    &&& forall|id: u32, k: int|
        0 <= k < tables.len() && (#[trigger] tables[k]).contains_key(id) && (forall|j: int|
            0 <= j < k ==> !(#[trigger] tables[j]).contains_key(id)) ==> (
        #[trigger] table.contains_key(id)) && table[id] == tables[k][id]
    &&& forall|id: u32| #[trigger]
        table.contains_key(id) ==> exists|k: int|
            0 <= k < tables.len() && (#[trigger] tables[k]).contains_key(id)
}

/// Merging one more table in keeps what the first tables give.
proof fn lemma_one_more(
    table: Map<u32, XrefEntry>,
    tables: Seq<Map<u32, XrefEntry>>,
    older: Map<u32, XrefEntry>,
)
    requires
        takes_the_first(table, tables),
    ensures
        takes_the_first(merged(table, older), tables.push(older)),
{
    let more = tables.push(older);
    let both = merged(table, older);
    assert forall|id: u32, k: int|
        0 <= k < more.len() && (#[trigger] more[k]).contains_key(id) && (forall|j: int|
            0 <= j < k ==> !(#[trigger] more[j]).contains_key(id)) implies (
    #[trigger] both.contains_key(id)) && both[id] == more[k][id] by {
        if k < tables.len() {
            assert(tables[k].contains_key(id));
            assert forall|j: int| 0 <= j < k implies !(#[trigger] tables[j]).contains_key(id) by {
                assert(!more[j].contains_key(id));
            }
            assert(table.contains_key(id));
        } else if table.contains_key(id) {
            let i = choose|i: int| 0 <= i < tables.len() && (#[trigger] tables[i]).contains_key(id);
            assert(more[i].contains_key(id));
        }
    }
    assert forall|id: u32| #[trigger] both.contains_key(id) implies exists|k: int|
        0 <= k < more.len() && (#[trigger] more[k]).contains_key(id) by {
        if table.contains_key(id) {
            let i = choose|i: int| 0 <= i < tables.len() && (#[trigger] tables[i]).contains_key(id);
            assert(more[i].contains_key(id));
        } else {
            assert(more[tables.len() as int].contains_key(id));
        }
    }
}

/// Older sections from the `k`th of a chain on are merged in, one behind the other.
proof fn lemma_rest_of_chain(
    file: Seq<u8>,
    options: ReadOptions,
    chain: Seq<int>,
    k: int,
    prev: Option<i64>,
    seen: Set<int>,
    table: Map<u32, XrefEntry>,
    trailer: Entries,
    tables: Seq<Map<u32, XrefEntry>>,
)
    requires
        is_chain(file, options, chain),
        1 < k <= chain.len(),
        takes_the_first(table, tables),
        named_entry(trailer, "XRefStm"@) is None,
        forall|offset: int|
            seen.contains(offset) <==> exists|i: int| 0 < i < k && #[trigger] chain[i] == offset,
        prev == match named_entry(trailer_at(file, options, chain[k - 1]), "Prev"@) {
            Some(value) => integer_of(value),
            None => None,
        },
    ensures
        with_older(file, options, prev, seen, table, trailer) matches Ok((whole, _))
            && takes_the_first(
            whole,
            tables + Seq::new(
                (chain.len() - k) as nat,
                |i: int| listed_at(file, options, chain[k + i]),
            ),
        ),
    decreases chain.len() - k,
{
    let rest = Seq::new(
        (chain.len() - k) as nat,
        |i: int| listed_at(file, options, chain[k + i]),
    );
    if k == chain.len() {
        assert(tables + rest =~= tables);
        if names_offset(file, options, chain.last(), "Prev"@, None) {
            assert(prev is None);
        } else {
            let i = choose|i: int|
                0 < i < chain.len() && names_offset(
                    file,
                    options,
                    chain.last(),
                    "Prev"@,
                    Some(#[trigger] chain[i]),
                );
            assert(prev == Some(chain[i] as i64));
            assert(seen.contains(chain[i]));
        }
    } else {
        let at = chain[k];
        assert(names_offset(file, options, chain[k - 1], "Prev"@, Some(at)));
        assert(prev == Some(at as i64));
        assert(!seen.contains(at)) by {
            if seen.contains(at) {
                let i = choose|i: int| 0 < i < k && #[trigger] chain[i] == at;
                assert(chain[i] != chain[k]);
            }
        }
        lemma_unseen_offsets(file.len(), seen, at);
        let older = listed_at(file, options, at);
        let older_trailer = trailer_at(file, options, at);
        let more = merged(table, older);
        lemma_one_more(table, tables, older);
        let after = seen.insert(at);
        assert forall|offset: int|
            after.contains(offset) <==> exists|i: int| 0 < i < k + 1 && #[trigger] chain[i]
                == offset by {
            if after.contains(offset) {
                if offset == at {
                    assert(chain[k] == offset);
                } else {
                    let i = choose|i: int| 0 < i < k && #[trigger] chain[i] == offset;
                    assert(chain[i] == offset);
                }
            }
        }
        let left = remove_entry(trailer, key("XRefStm"@));
        lemma_nothing_removed(trailer, key("XRefStm"@));
        let next = match named_entry(older_trailer, "Prev"@) {
            Some(value) => integer_of(value),
            None => None,
        };
        lemma_rest_of_chain(
            file,
            options,
            chain,
            k + 1,
            next,
            after,
            more,
            left,
            tables.push(older),
        );
        let others = Seq::new(
            (chain.len() - k - 1) as nat,
            |i: int| listed_at(file, options, chain[k + 1 + i]),
        );
        assert(tables.push(older) + others =~= tables + rest);
    }
}

/// Removing a key that is not there changes nothing.
proof fn lemma_nothing_removed(entries: Entries, name: Seq<u8>)
    requires
        entry(entries, name) is None,
    ensures
        remove_entry(entries, name) == entries,
    decreases entries.len(),
{
    if entries.len() > 0 {
        lemma_nothing_removed(entries.drop_first(), name);
        assert(seq![entries[0]] + entries.drop_first() =~= entries);
    }
}

/// The sections of a chain are merged into the newest.
proof fn lemma_whole_chain(
    file: Seq<u8>,
    options: ReadOptions,
    chain: Seq<int>,
    hybrid: Option<int>,
)
    requires
        is_chain(file, options, chain),
        names_offset(file, options, chain[0], "XRefStm"@, hybrid),
        hybrid matches Some(stream) ==> 0 <= stream <= file.len() && section_at(
            file,
            options,
            stream,
        ) is Ok,
    ensures
        with_older(
            file,
            options,
            offset_in(trailer_at(file, options, chain[0]), "Prev"@),
            Set::empty(),
            listed_at(file, options, chain[0]),
            remove_entry(trailer_at(file, options, chain[0]), key("Prev"@)),
        ) matches Ok((whole, _)) && takes_the_first(
            whole,
            tables_along(file, options, chain, hybrid),
        ),
{
    let tables = tables_along(file, options, chain, hybrid);
    let newest = listed_at(file, options, chain[0]);
    let own = trailer_at(file, options, chain[0]);
    let trailer = remove_entry(own, key("Prev"@));
    let prev = match named_entry(own, "Prev"@) {
        Some(value) => integer_of(value),
        None => None,
    };
    lemma_section_keys(file, options, chain[0]);
    lemma_remove_takes_the_key_out(own, key("Prev"@));
    assert(key("Prev"@) != key("XRefStm"@)) by {
        reveal_strlit("Prev");
        reveal_strlit("XRefStm");
        lemma_keys_differ("Prev"@, "XRefStm"@);
    }
    assert(named_entry(trailer, "XRefStm"@) == named_entry(own, "XRefStm"@));
    let none: Seq<Map<u32, XrefEntry>> = Seq::empty();
    let first = none.push(newest);
    assert(takes_the_first(newest, first)) by {
        assert(first[0] == newest);
        assert forall|id: u32| #[trigger] newest.contains_key(id) implies exists|k: int|
            0 <= k < first.len() && (#[trigger] first[k]).contains_key(id) by {
            assert(first[0].contains_key(id));
        }
    }
    let whole = with_older(file, options, prev, Set::empty(), newest, trailer);
    if chain.len() == 1 {
        assert(chain.last() == chain[0]);
        assert(prev is None);
        assert(tables =~= first);
        assert(whole == Ok::<(Map<u32, XrefEntry>, Entries), Error>((newest, trailer)));
    } else {
        let at = chain[1];
        assert(names_offset(file, options, chain[0], "Prev"@, Some(at)));
        assert(prev == Some(at as i64));
        lemma_unseen_offsets(file.len(), Set::empty(), at);
        let older = listed_at(file, options, at);
        let more = merged(newest, older);
        lemma_one_more(newest, first, older);
        let two = first.push(older);
        let left = remove_entry(trailer, key("XRefStm"@));
        lemma_remove_takes_the_key_out(trailer, key("XRefStm"@));
        let next = match named_entry(trailer_at(file, options, at), "Prev"@) {
            Some(value) => integer_of(value),
            None => None,
        };
        let seen = Set::<int>::empty().insert(at);
        assert forall|offset: int|
            seen.contains(offset) <==> exists|i: int| 0 < i < 2 && #[trigger] chain[i] == offset by {
            if seen.contains(offset) {
                assert(chain[1] == offset);
            }
        }
        let others = Seq::new(
            (chain.len() - 2) as nat,
            |i: int| listed_at(file, options, chain[2 + i]),
        );
        match hybrid {
            Some(stream) => {
                let extra = listed_at(file, options, stream);
                lemma_one_more(more, two, extra);
                lemma_rest_of_chain(
                    file,
                    options,
                    chain,
                    2,
                    next,
                    seen,
                    merged(more, extra),
                    left,
                    two.push(extra),
                );
                assert(two.push(extra) + others =~= tables);
            },
            None => {
                lemma_rest_of_chain(file, options, chain, 2, next, seen, more, left, two);
                assert(two + others =~= tables);
            },
        }
    }
}

/// The cross-reference data of a file is that of all its revisions: the sections that `/Prev` leads to
/// from the newest on, however many, are all read, and each number has the entry of the first of them
/// that lists it. The file can be opened if they can be read, but for an object number that leaves no
/// room for another.
pub proof fn lemma_every_revision_counts(
    file: Seq<u8>,
    options: ReadOptions,
    start: int,
    chain: Seq<int>,
    hybrid: Option<int>,
)
    requires
        xref_start_of(tail_bytes(file)) == Some(start as nat),
        0 <= start <= file.len(),
        is_chain(file, options, chain),
        chain[0] == corrected_offset(file, options.strict, start),
        names_offset(file, options, chain[0], "XRefStm"@, hybrid),
        hybrid matches Some(stream) ==> 0 <= stream <= file.len() && section_at(
            file,
            options,
            stream,
        ) is Ok,
    ensures
        match structure_of(file, options) {
            Ok(structure) => takes_the_first(
                structure.table,
                tables_along(file, options, chain, hybrid),
            ),
            Err(_) => exists|k: int|
                0 <= k < tables_along(file, options, chain, hybrid).len() && (
                #[trigger] tables_along(file, options, chain, hybrid)[k]).contains_key(u32::MAX),
        },
{
    let tables = tables_along(file, options, chain, hybrid);
    lemma_whole_chain(file, options, chain, hybrid);
    let own = trailer_at(file, options, chain[0]);
    let whole = with_older(
        file,
        options,
        offset_in(own, "Prev"@),
        Set::empty(),
        listed_at(file, options, chain[0]),
        remove_entry(own, key("Prev"@)),
    );
    assert(section_at(file, options, chain[0]) is Ok);
    let table = whole->Ok_0.0;
    if table.contains_key(u32::MAX) {
        let k = choose|k: int| 0 <= k < tables.len() && (#[trigger] tables[k]).contains_key(u32::MAX);
        assert(tables_along(file, options, chain, hybrid)[k].contains_key(u32::MAX));
    }
}

/// Every number that a revision lists has an entry in the document that is opened, and that of the
/// newest revision that lists it.
pub proof fn lemma_opened_with_every_revision(
    content: Seq<u8>,
    options: ReadOptions,
    base: int,
    start: int,
    chain: Seq<int>,
    k: int,
    id: u32,
)
    requires
        opened(content, options) is Ok,
        opened(content, options)->Ok_0.1 == base,
        xref_start_of(tail_bytes(content.skip(base))) == Some(start as nat),
        0 <= start <= content.skip(base).len(),
        is_chain(content.skip(base), options, chain),
        chain[0] == corrected_offset(content.skip(base), options.strict, start),
        names_offset(content.skip(base), options, chain[0], "XRefStm"@, None),
        0 <= k < chain.len(),
        listed_at(content.skip(base), options, chain[k]).contains_key(id),
        forall|j: int|
            0 <= j < k ==> !listed_at(
                content.skip(base),
                options,
                #[trigger] chain[j],
            ).contains_key(id),
    ensures
        opened(content, options)->Ok_0.2.table.contains_key(id),
        opened(content, options)->Ok_0.2.table[id] == listed_at(
            content.skip(base),
            options,
            chain[k],
        )[id],
{
    let file = content.skip(base);
    lemma_every_revision_counts(file, options, start, chain, None);
    let tables = tables_along(file, options, chain, None);
    assert(tables[k].contains_key(id));
    assert forall|j: int| 0 <= j < k implies !(#[trigger] tables[j]).contains_key(id) by {
        assert(tables[j] == listed_at(file, options, chain[j]));
    }
    assert(opened(content, options)->Ok_0.2.table.contains_key(id));
}

} // verus!
