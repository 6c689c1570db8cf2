//! A document that is saved opens as it was.

use vstd::prelude::*;
use vstd::utf8::{encode_utf8_decode_utf8, encode_utf8_valid_utf8};

use crate::bytes::key;
use crate::document::Document;
use crate::error::{Error, ParseError};
use crate::fixtures::numbered;
use crate::laws::built_documents::lemma_with;
use crate::laws::composites::{are_table_entries, lemma_last_tag, lemma_subsections};
use crate::laws::numbers::{are_digits, lemma_after_digits_at};
use crate::laws::sections::{are_subsections, lemma_tables, lemma_tables_are_sections, trailer_word};
use crate::laws::stored_objects::{
    are_windows, lemma_dictionary_object, lemma_first_windows, lemma_headers, lemma_in_window,
    lemma_object_ends, lemma_objects_at_offsets, lemma_objects_with_ids, lemma_tagged, lemma_words,
    obj_word, stands_at, starts_there, stream_word, xref_word,
};
use crate::laws::written::{
    is_ended, is_writable, lemma_digit_bytes, lemma_number_stands, lemma_stand_apart,
    lemma_written_comes_back,
};
use crate::lazy::document::{first_window, object_end, stored_object, FileModel};
use crate::lazy::file::{
    corrected_offset, head_bytes, header_base, opened, recovery_start, section_at, size_limit,
    structure_of, tail_bytes, window_end, with_older, ReadOptions, Structure,
};
use crate::object::{entry, named_entry, remove_entry, Entries, ObjectId, Value};
use crate::parser::file::{
    header_version, lemma_file_keywords, subsection_at, table_and_trailer, table_entries_at,
    table_entry_at, xref_start_of,
};
use crate::parser::indirect::{head_of, HeadModel};
use crate::parser::lexical::{
    after_digits, after_space, after_white, digits_worth, object_id_at, tagged, unsigned_at,
};
use crate::parser::objects::dictionary_at;
use crate::text::digits;
use crate::writer::{
    block, blocks, header_line, last_lines, object_bytes, padded, sized_trailer, table_lines,
    with_table,
};
use crate::xref::XrefEntry;

verus! {

proof fn lemma_blocks_grow(objects: Map<ObjectId, Value>, head: Seq<u8>, m: nat, n: nat)
    requires
        m <= n,
    ensures
        blocks(objects, head, m).len() <= blocks(objects, head, n).len(),
        blocks(objects, head, n).take(blocks(objects, head, m).len() as int) == blocks(
            objects,
            head,
            m,
        ),
    decreases n,
{
    let early = blocks(objects, head, m);
    let late = blocks(objects, head, n);
    if m == n {
        assert(late.take(early.len() as int) =~= early);
    } else {
        lemma_blocks_grow(objects, head, m, (n - 1) as nat);
        let before = blocks(objects, head, (n - 1) as nat);
        assert(late.take(early.len() as int) =~= before.take(early.len() as int));
    }
}

/// An object stands where the objects numbered below it end.
proof fn lemma_block_stands(objects: Map<ObjectId, Value>, head: Seq<u8>, n: nat, count: nat)
    requires
        0 < n <= count,
        objects.contains_key(numbered(n as int)),
    ensures
        stands_at(
            blocks(objects, head, count),
            blocks(objects, head, (n - 1) as nat).len() as int,
            block(n as int, objects[numbered(n as int)]),
        ),
        blocks(objects, head, n).len() == blocks(objects, head, (n - 1) as nat).len() + block(
            n as int,
            objects[numbered(n as int)],
        ).len(),
        blocks(objects, head, n).len() <= blocks(objects, head, count).len(),
{
    let all = blocks(objects, head, count);
    let upto = blocks(objects, head, n);
    let before = blocks(objects, head, (n - 1) as nat);
    let own = block(n as int, objects[numbered(n as int)]);
    lemma_blocks_grow(objects, head, n, count);
    assert forall|i: int| 0 <= i < own.len() implies all[before.len() + i] == #[trigger] own[i] by {
        assert(all.take(upto.len() as int)[before.len() + i] == upto[before.len() + i]);
    }
}

proof fn lemma_padded(n: nat, width: nat)
    ensures
        padded(n, width).len() == width,
        forall|i: int| 0 <= i < width ==> 0x30 <= #[trigger] padded(n, width)[i] <= 0x39,
    decreases width,
{
    if width > 0 {
        lemma_padded(n / 10, (width - 1) as nat);
    }
}

/// Padded digits are worth their number, if they are enough.
proof fn lemma_padded_worth(bytes: Seq<u8>, at: int, n: nat, width: nat)
    requires
        stands_at(bytes, at, padded(n, width)),
    ensures
        digits_worth(bytes, at, at + width) == n % ten_to(width),
        ten_to(width) > 0,
    decreases width,
{
    lemma_padded(n, width);
    if width > 0 {
        let rest = padded(n / 10, (width - 1) as nat);
        lemma_padded(n / 10, (width - 1) as nat);
        assert(stands_at(bytes, at, rest)) by {
            assert forall|i: int| 0 <= i < rest.len() implies bytes[at + i] == #[trigger] rest[i] by {
                assert(bytes[at + i] == padded(n, width)[i]);
            }
        }
        lemma_padded_worth(bytes, at, n / 10, (width - 1) as nat);
        assert(bytes[at + (width - 1)] == padded(n, width)[width - 1]);
        let t = ten_to((width - 1) as nat);
        lemma_split(n, t);
    }
}

/// 10 to the power of `width`.
spec fn ten_to(width: nat) -> nat
    decreases width,
{
    if width == 0 {
        1
    } else {
        10 * ten_to((width - 1) as nat)
    }
}

proof fn lemma_split(n: nat, t: nat)
    requires
        t > 0,
    ensures
        (n / 10) % t * 10 + n % 10 == n % (10 * t),
{
    let q = (n / 10) / t;
    let r = (n / 10) % t;
    assert(n / 10 == t * q + r && 0 <= r < t) by (nonlinear_arith)
        requires
            t > 0,
            q == (n / 10) / t,
            r == (n / 10) % t,
    ;
    let low = n % 10;
    let rest = 10 * r + low;
    assert(n == (10 * t) * q + rest) by (nonlinear_arith)
        requires
            n == 10 * (n / 10) + low,
            n / 10 == t * q + r,
            rest == 10 * r + low,
    ;
    assert(0 <= rest < 10 * t);
    assert(n % (10 * t) == rest) by (nonlinear_arith)
        requires
            n == (10 * t) * q + rest,
            0 <= rest < 10 * t,
    ;
}

/// The entry of a cross-reference table for an object number.
pub open spec fn table_entry(objects: Map<ObjectId, Value>, head: Seq<u8>, n: int) -> (nat, nat, bool) {
    if n == 0 {
        (0, 65_535, false)
    } else if objects.contains_key(numbered(n)) {
        (blocks(objects, head, (n - 1) as nat).len(), 0, true)
    } else {
        (0, 0, false)
    }
}

/// The line of an entry: ten digits, five digits, and what it is.
#[verifier::opaque]
spec fn line(entry: (nat, nat, bool)) -> Seq<u8> {
    padded(entry.0, 10) + seq![0x20u8] + padded(entry.1, 5) + seq![
        0x20u8,
        if entry.2 {
            0x6eu8
        } else {
            0x66u8
        },
        0x20u8,
        0x0au8,
    ]
}

proof fn lemma_line(bytes: Seq<u8>, at: int, entry: (nat, nat, bool))
    requires
        stands_at(bytes, at, line(entry)),
        entry.0 <= 0x7fff_ffff,
        entry.1 <= 65_535,
        at + 20 < bytes.len(),
        !crate::parser::lexical::is_white(bytes[at + 20]),
    ensures
        table_entry_at(bytes, at) == Some((entry.0, entry.1, entry.2, at + 20)),
{
    reveal(line);
    let kind: u8 = if entry.2 {
        0x6eu8
    } else {
        0x66u8
    };
    let tail = seq![0x20u8, kind, 0x20u8, 0x0au8];
    lemma_padded(entry.0, 10);
    lemma_padded(entry.1, 5);
    lemma_stand_apart(bytes, at, padded(entry.0, 10) + seq![0x20u8] + padded(entry.1, 5), tail);
    lemma_stand_apart(bytes, at, padded(entry.0, 10) + seq![0x20u8], padded(entry.1, 5));
    lemma_stand_apart(bytes, at, padded(entry.0, 10), seq![0x20u8]);
    assert(bytes[at + 10 + 0] == seq![0x20u8][0]);
    assert(bytes[at + 16 + 0] == tail[0]);
    assert(bytes[at + 16 + 1] == tail[1]);
    assert(bytes[at + 16 + 2] == tail[2]);
    assert(bytes[at + 16 + 3] == tail[3]);
    assert forall|p: int| at <= p < at + 10 implies 0x30 <= #[trigger] bytes[p] <= 0x39 by {
        assert(bytes[at + (p - at)] == padded(entry.0, 10)[p - at]);
    }
    assert forall|p: int| at + 11 <= p < at + 16 implies 0x30 <= #[trigger] bytes[p] <= 0x39 by {
        assert(bytes[at + 11 + (p - at - 11)] == padded(entry.1, 5)[p - at - 11]);
    }
    lemma_after_digits_at(bytes, at, at + 10);
    lemma_after_digits_at(bytes, at + 11, at + 16);
    lemma_padded_worth(bytes, at, entry.0, 10);
    lemma_padded_worth(bytes, at + 11, entry.1, 5);
    reveal_with_fuel(ten_to, 11);
    assert(ten_to(10) == 10_000_000_000);
    assert(ten_to(5) == 100_000);
    assert(digits_worth(bytes, at, at + 10) == entry.0);
    assert(at + 11 + 5 == at + 16);
    assert(digits_worth(bytes, at + 11, at + 11 + 5) == entry.1 % 100_000);
    assert(digits_worth(bytes, at + 11, at + 16) == entry.1);
    assert(after_white(bytes, at + 11) == at + 11);
    assert(after_white(bytes, at + 10) == at + 11);
    assert(after_white(bytes, at + 17) == at + 17);
    assert(after_white(bytes, at + 16) == at + 17);
    assert(after_white(bytes, at + 20) == at + 20);
    assert(after_white(bytes, at + 19) == at + 20);
    assert(after_white(bytes, at + 18) == at + 20);
}

proof fn lemma_literal_lines()
    ensures
        key("\n0000000000 65535 f \n"@) == seq![0x0au8] + line((0, 65_535, false)),
        key("0000000000 00000 f \n"@) == line((0, 0, false)),
        key(" 00000 n \n"@) == line((0, 0, true)).skip(10),
{
    reveal(line);
    reveal_strlit("\n0000000000 65535 f \n");
    reveal_strlit("0000000000 00000 f \n");
    reveal_strlit(" 00000 n \n");
    vstd::utf8::is_ascii_chars_encode_utf8("\n0000000000 65535 f \n"@);
    vstd::utf8::is_ascii_chars_encode_utf8("0000000000 00000 f \n"@);
    vstd::utf8::is_ascii_chars_encode_utf8(" 00000 n \n"@);
    lemma_padded(0, 10);
    lemma_padded(0, 5);
    lemma_padded(65_535, 5);
    reveal_with_fuel(padded, 11);
    assert(padded(0, 5) =~= seq![0x30u8, 0x30, 0x30, 0x30, 0x30]);
    assert(padded(65_535, 5) =~= seq![0x36u8, 0x35, 0x35, 0x33, 0x35]);
    assert(padded(0, 10) =~= seq![0x30u8, 0x30, 0x30, 0x30, 0x30, 0x30, 0x30, 0x30, 0x30, 0x30]);
    assert(key("\n0000000000 65535 f \n"@) =~= seq![0x0au8] + line((0, 65_535, false)));
    assert(key("0000000000 00000 f \n"@) =~= line((0, 0, false)));
    assert(key(" 00000 n \n"@) =~= line((0, 0, true)).skip(10));
}

/// The lines of a table are those of its entries, of twenty bytes each.
proof fn lemma_table_lines(objects: Map<ObjectId, Value>, head: Seq<u8>, n: nat, k: int)
    requires
        0 < k <= n,
    ensures
        table_lines(objects, head, n).len() == 20 * n,
        stands_at(
            table_lines(objects, head, n),
            20 * (k - 1),
            line(table_entry(objects, head, k)),
        ),
    decreases n,
{
    reveal(line);
    lemma_literal_lines();
    let all = table_lines(objects, head, n);
    let before = table_lines(objects, head, (n - 1) as nat);
    let own = table_entry(objects, head, n as int);
    lemma_padded(own.0, 10);
    lemma_padded(own.1, 5);
    lemma_padded(0, 10);
    lemma_padded(0, 5);
    assert(all =~= before + line(own)) by {
        if objects.contains_key(numbered(n as int)) {
            assert(line((0, 0, true)).skip(10) =~= line(own).skip(10));
            assert(line(own) =~= padded(own.0, 10) + line(own).skip(10));
        }
    }
    if n > 1 {
        lemma_table_lines(objects, head, (n - 1) as nat, if k < n {
            k
        } else {
            1
        });
    } else {
        assert(table_lines(objects, head, 0).len() == 0);
    }
    if k < n {
        assert forall|i: int| 0 <= i < line(table_entry(objects, head, k)).len() implies all[20 * (k
            - 1) + i] == #[trigger] line(table_entry(objects, head, k))[i] by {
            assert(before[20 * (k - 1) + i] == line(table_entry(objects, head, k))[i]);
        }
    } else {
        assert forall|i: int| 0 <= i < line(own).len() implies all[20 * (k - 1) + i]
            == #[trigger] line(own)[i] by {}
    }
}

/// A cross-reference table with its trailer and the last lines of the file, for the objects behind `head`.
#[verifier::opaque]
spec fn table_part(
    objects: Map<ObjectId, Value>,
    head: Seq<u8>,
    count: nat,
    trailer: Entries,
) -> Seq<u8> {
    seq![0x78u8, 0x72, 0x65, 0x66, 0x0a, 0x30, 0x20] + (key(digits(count + 1)) + ((seq![0x0au8] + line(
        (0, 65_535, false),
    )) + (table_lines(objects, head, count) + ((trailer_word() + seq![0x0au8]) + (object_bytes(
        Value::Dictionary(sized_trailer(trailer, count as int + 1)),
    ) + (seq![0x0au8] + last_lines(blocks(objects, head, count).len())))))))
}

proof fn lemma_file_parts(document: &Document)
    ensures
        ({
            let objects = document.stored();
            let head = header_line(document.version@);
            let count = document.max_id as nat;
            with_table(document) == blocks(objects, head, count) + table_part(
                objects,
                head,
                count,
                document.trailer@,
            )
        }),
{
    reveal(table_part);
    reveal_strlit("xref\n0 ");
    reveal_strlit("trailer\n");
    reveal_strlit("\n");
    vstd::utf8::is_ascii_chars_encode_utf8("xref\n0 "@);
    vstd::utf8::is_ascii_chars_encode_utf8("trailer\n"@);
    vstd::utf8::is_ascii_chars_encode_utf8("\n"@);
    lemma_literal_lines();
    let objects = document.stored();
    let head = header_line(document.version@);
    let count = document.max_id as nat;
    assert(key("xref\n0 "@) =~= seq![0x78u8, 0x72, 0x65, 0x66, 0x0a, 0x30, 0x20]);
    assert(key("trailer\n"@) =~= trailer_word() + seq![0x0au8]);
    assert(key("\n"@) =~= seq![0x0au8]);
    lemma_nine_parts(
        blocks(objects, head, count),
        key("xref\n0 "@),
        key(digits(count + 1)),
        key("\n0000000000 65535 f \n"@),
        table_lines(objects, head, count),
        key("trailer\n"@),
        object_bytes(Value::Dictionary(sized_trailer(document.trailer@, count as int + 1))),
        key("\n"@),
        last_lines(blocks(objects, head, count).len()),
    );
}

proof fn lemma_nine_parts(
    a: Seq<u8>,
    b: Seq<u8>,
    c: Seq<u8>,
    d: Seq<u8>,
    e: Seq<u8>,
    f: Seq<u8>,
    g: Seq<u8>,
    h: Seq<u8>,
    i: Seq<u8>,
)
    ensures
        a + b + c + d + e + f + g + h + i == a + (b + (c + (d + (e + (f + (g + (h + i))))))),
{
    assert(a + b + c + d + e + f + g + h + i =~= a + (b + (c + (d + (e + (f + (g + (h + i))))))));
}

proof fn lemma_parts_stand(
    bytes: Seq<u8>,
    objects: Map<ObjectId, Value>,
    head: Seq<u8>,
    count: nat,
    trailer: Entries,
)
    requires
        bytes == table_part(objects, head, count, trailer),
    ensures
        ({
            let d = key(digits(count + 1)).len() as int;
            let h = 8 + d;
            let t = h + 20 * (count + 1);
            let dict = object_bytes(Value::Dictionary(sized_trailer(trailer, count as int + 1)));
            &&& stands_at(bytes, 0, seq![0x78u8, 0x72, 0x65, 0x66, 0x0a, 0x30, 0x20])
            &&& stands_at(bytes, 7, key(digits(count + 1)))
            &&& bytes[7 + d] == 0x0a
            &&& stands_at(bytes, h, line((0, 65_535, false)))
            &&& stands_at(bytes, h + 20, table_lines(objects, head, count))
            &&& stands_at(bytes, t, trailer_word())
            &&& bytes[t + 7] == 0x0a
            &&& stands_at(bytes, t + 8, dict)
            &&& bytes[t + 8 + dict.len()] == 0x0a
            &&& stands_at(
                bytes,
                t + 9 + dict.len(),
                last_lines(blocks(objects, head, count).len()),
            )
            &&& bytes.len() == t + 9 + dict.len() + last_lines(blocks(objects, head, count).len()).len()
            &&& table_lines(objects, head, count).len() == 20 * count
        }),
{
    reveal(table_part);
    let x = seq![0x78u8, 0x72, 0x65, 0x66, 0x0a, 0x30, 0x20];
    let number = key(digits(count + 1));
    let first = line((0, 65_535, false));
    let newline = seq![0x0au8];
    let lines = table_lines(objects, head, count);
    let dict = object_bytes(Value::Dictionary(sized_trailer(trailer, count as int + 1)));
    let last = last_lines(blocks(objects, head, count).len());
    lemma_line_starts((0, 65_535, false));
    if count > 0 {
        lemma_table_lines(objects, head, count, 1);
    } else {
        assert(lines.len() == 0);
    }
    let d = number.len() as int;
    let h = 8 + d;
    let t = h + 20 * (count + 1);
    let after_dict = newline + last;
    let after_trailer = dict + after_dict;
    let after_lines = (trailer_word() + newline) + after_trailer;
    let after_first = lines + after_lines;
    let after_number = (newline + first) + after_first;
    assert(bytes == x + (number + after_number));
    lemma_whole(bytes);
    lemma_stand_apart(bytes, 0, x, number + after_number);
    lemma_stand_apart(bytes, 7, number, after_number);
    lemma_stand_apart(bytes, 7 + d, newline + first, after_first);
    lemma_stand_apart(bytes, 7 + d, newline, first);
    lemma_stand_apart(bytes, h + 20, lines, after_lines);
    lemma_stand_apart(bytes, t, trailer_word() + newline, after_trailer);
    lemma_stand_apart(bytes, t, trailer_word(), newline);
    lemma_stand_apart(bytes, t + 8, dict, after_dict);
    lemma_stand_apart(bytes, t + 8 + dict.len(), newline, last);
    assert(bytes[7 + d + 0] == newline[0]);
    assert(bytes[t + 7 + 0] == newline[0]);
    assert(bytes[t + 8 + dict.len() + 0] == newline[0]);
}

proof fn lemma_whole(bytes: Seq<u8>)
    ensures
        stands_at(bytes, 0, bytes),
{
}

/// The lines of the table, from the first on.
proof fn lemma_line_stands(
    bytes: Seq<u8>,
    objects: Map<ObjectId, Value>,
    head: Seq<u8>,
    count: nat,
    trailer: Entries,
    k: int,
)
    requires
        bytes == table_part(objects, head, count, trailer),
        0 <= k <= count,
    ensures
        stands_at(
            bytes,
            8 + key(digits(count + 1)).len() + 20 * k,
            line(table_entry(objects, head, k)),
        ),
{
    lemma_parts_stand(bytes, objects, head, count, trailer);
    let h = 8 + key(digits(count + 1)).len() as int;
    if k > 0 {
        lemma_table_lines(objects, head, count, k);
        let lines = table_lines(objects, head, count);
        let own = line(table_entry(objects, head, k));
        assert forall|i: int| 0 <= i < own.len() implies bytes[h + 20 * k + i] == #[trigger] own[i] by {
            assert(lines[20 * (k - 1) + i] == own[i]);
            assert(bytes[h + 20 + (20 * (k - 1) + i)] == lines[20 * (k - 1) + i]);
        }
    }
}

proof fn lemma_line_starts(entry: (nat, nat, bool))
    ensures
        line(entry).len() == 20,
        0x30 <= line(entry)[0] <= 0x39,
{
    reveal(line);
    lemma_padded(entry.0, 10);
    lemma_padded(entry.1, 5);
    assert(line(entry)[0] == padded(entry.0, 10)[0]);
}

/// The entries of the table, as they are read.
proof fn lemma_entries_read(
    bytes: Seq<u8>,
    objects: Map<ObjectId, Value>,
    head: Seq<u8>,
    count: nat,
    trailer: Entries,
)
    requires
        bytes == table_part(objects, head, count, trailer),
        blocks(objects, head, count).len() <= 0x7fff_ffff,
    ensures
        are_table_entries(
            bytes,
            Seq::new(count + 2, |k: int| 8 + key(digits(count + 1)).len() + 20 * k),
            Seq::new(count + 1, |k: int| table_entry(objects, head, k)),
        ),
{
    let h = 8 + key(digits(count + 1)).len() as int;
    let starts = Seq::new(count + 2, |k: int| 8 + key(digits(count + 1)).len() + 20 * k);
    let entries = Seq::new(count + 1, |k: int| table_entry(objects, head, k));
    lemma_parts_stand(bytes, objects, head, count, trailer);
    let t = h + 20 * (count + 1);
    assert(bytes[t + 0] == trailer_word()[0]);
    assert forall|k: int| 0 <= k < entries.len() implies table_entry_at(bytes, starts[k]) == Some(
        ((#[trigger] entries[k]).0, entries[k].1, entries[k].2, starts[k + 1]),
    ) && starts[k] < starts[k + 1] <= bytes.len() by {
        lemma_line_stands(bytes, objects, head, count, trailer, k);
        let own = table_entry(objects, head, k);
        if k < count {
            lemma_line_stands(bytes, objects, head, count, trailer, k + 1);
            let next = line(table_entry(objects, head, k + 1));
            lemma_line_starts(table_entry(objects, head, k + 1));
            assert(bytes[h + 20 * (k + 1) + 0] == next[0]);
        }
        assert(own.0 <= 0x7fff_ffff) by {
            if k > 0 {
                lemma_blocks_grow(objects, head, (k - 1) as nat, count);
            }
        }
        lemma_line(bytes, h + 20 * k, own);
    }
    assert forall|k: int| 0 <= k < entries.len() implies starts[k] < #[trigger] starts[k + 1]
        <= bytes.len() by {
        assert(entries[k] == table_entry(objects, head, k));
    }
    assert(after_digits(bytes, t) == t);
    assert(starts.last() == t);
}

proof fn lemma_subsection_read(
    bytes: Seq<u8>,
    objects: Map<ObjectId, Value>,
    head: Seq<u8>,
    count: nat,
    trailer: Entries,
)
    requires
        bytes == table_part(objects, head, count, trailer),
        count < u32::MAX,
    ensures
        subsection_at(bytes, 5) == Some((0nat, 8 + key(digits(count + 1)).len() as int)),
        after_space(bytes, 0) == 0,
        after_space(bytes, 4) == 5,
        stands_at(bytes, 0, xref_word()),
        subsection_at(bytes, 8 + key(digits(count + 1)).len() as int + 20 * (count + 1)) is None,
{
    lemma_parts_stand(bytes, objects, head, count, trailer);
    let x = seq![0x78u8, 0x72, 0x65, 0x66, 0x0a, 0x30, 0x20];
    let d = key(digits(count + 1)).len() as int;
    let h = 8 + d;
    let t = h + 20 * (count + 1);
    assert(bytes[0 + 0int] == x[0] && bytes[0 + 1int] == x[1] && bytes[0 + 2int] == x[2]);
    assert(bytes[0 + 3int] == x[3]);
    assert(bytes[0 + 4int] == x[4] && bytes[0 + 5int] == x[5] && bytes[0 + 6int] == x[6]);
    assert(after_space(bytes, 5) == 5);
    assert(after_space(bytes, 4) == 5);
    lemma_digit_bytes(count + 1);
    assert(bytes[7 + 0int] == key(digits(count + 1))[0]);
    lemma_number_stands(bytes, 7, count + 1);
    assert(are_digits(bytes, 5, 6));
    lemma_after_digits_at(bytes, 5, 6);
    reveal_with_fuel(digits_worth, 2);
    assert(digits_worth(bytes, 5, 6) == 0);
    assert(after_white(bytes, 7) == 7);
    assert(after_white(bytes, 6) == 7);
    lemma_line_starts((0, 65_535, false));
    assert(bytes[h + 0] == line((0, 65_535, false))[0]);
    assert(after_white(bytes, h) == h);
    assert(after_white(bytes, 7 + d) == h);
    assert(unsigned_at(bytes, 5, u32::MAX as nat) == Some((0nat, 6int)));
    assert(unsigned_at(bytes, 7, u32::MAX as nat) == Some((count + 1, 7 + d)));
    assert(bytes[t + 0] == trailer_word()[0]);
    assert(after_digits(bytes, t) == t);
    assert(xref_word() =~= x.take(4));
    assert forall|i: int| 0 <= i < 4 implies bytes[0 + i] == #[trigger] xref_word()[i] by {
        assert(bytes[0 + i] == x[i]);
    }
}

proof fn lemma_listed(
    bytes: Seq<u8>,
    objects: Map<ObjectId, Value>,
    head: Seq<u8>,
    count: nat,
    trailer: Entries,
    number: u32,
)
    requires
        bytes == table_part(objects, head, count, trailer),
        blocks(objects, head, count).len() <= 0x7fff_ffff,
        count < u32::MAX,
    ensures
        ({
            let h = 8 + key(digits(count + 1)).len() as int;
            let (table, end) = table_entries_at(bytes, h, 0, Map::empty());
            &&& end == h + 20 * (count + 1)
            &&& table.contains_key(number) <==> 0 < number <= count && objects.contains_key(
                (number, 0u16),
            )
            &&& table.contains_key(number) ==> table[number] == (XrefEntry::Normal {
                offset: blocks(objects, head, (number - 1) as nat).len() as u32,
                generation: 0,
            })
        }),
{
    lemma_entries_read(bytes, objects, head, count, trailer);
    let h = 8 + key(digits(count + 1)).len() as int;
    let starts = Seq::new(count + 2, |k: int| 8 + key(digits(count + 1)).len() + 20 * k);
    let entries = Seq::new(count + 1, |k: int| table_entry(objects, head, k));
    assert(starts[0] == h);
    assert(starts.last() == h + 20 * (count + 1));
    lemma_subsections(bytes, starts, entries, 0, Map::empty(), number);
    if number <= count {
        assert(entries[number - 0] == table_entry(objects, head, number as int));
    }
}

/// The table and the trailer of a saved document are read as they were.
#[verifier::spinoff_prover]
#[verifier::rlimit(60)]
proof fn lemma_table_read(
    bytes: Seq<u8>,
    objects: Map<ObjectId, Value>,
    head: Seq<u8>,
    count: nat,
    trailer: Entries,
) -> (table: Map<u32, XrefEntry>)
    requires
        bytes == table_part(objects, head, count, trailer),
        blocks(objects, head, count).len() <= 0x7fff_ffff,
        count < u32::MAX,
        is_writable(Value::Dictionary(sized_trailer(trailer, count as int + 1)), 256),
    ensures
        table_and_trailer(bytes) == Ok::<(Map<u32, XrefEntry>, Entries, u32), ParseError>(
            (table, sized_trailer(trailer, count as int + 1), (count + 1) as u32),
        ),
        forall|number: u32| #[trigger]
            table.contains_key(number) <==> 0 < number <= count && objects.contains_key((number, 0u16)),
        forall|number: u32| #[trigger]
            table.contains_key(number) ==> table[number] == (XrefEntry::Normal {
                offset: blocks(objects, head, (number - 1) as nat).len() as u32,
                generation: 0,
            }),
{
    let d = key(digits(count + 1)).len() as int;
    let h = 8 + d;
    let t = h + 20 * (count + 1);
    let sized = sized_trailer(trailer, count as int + 1);
    let dict = object_bytes(Value::Dictionary(sized));
    lemma_parts_stand(bytes, objects, head, count, trailer);
    lemma_subsection_read(bytes, objects, head, count, trailer);
    let nothing = Map::<u32, XrefEntry>::empty();
    let (table, end) = table_entries_at(bytes, h, 0, nothing);
    assert forall|number: u32| #[trigger] table.contains_key(number) <==> 0 < number <= count
        && objects.contains_key((number, 0u16)) by {
        lemma_listed(bytes, objects, head, count, trailer, number);
    }
    assert forall|number: u32| #[trigger] table.contains_key(number) implies table[number] == (
    XrefEntry::Normal {
        offset: blocks(objects, head, (number - 1) as nat).len() as u32,
        generation: 0,
    }) by {
        lemma_listed(bytes, objects, head, count, trailer, number);
    }
    lemma_listed(bytes, objects, head, count, trailer, 0);
    lemma_trailer_read(bytes, objects, head, count, trailer);
    lemma_with(trailer, "Size"@, Value::Integer((count + 1) as i64), "Size"@);
    assert(bytes[t + 0] == trailer_word()[0]);
    lemma_one_subsection(bytes, h, t, table, sized, (count + 1) as i64);
    table
}

proof fn lemma_one_subsection(
    bytes: Seq<u8>,
    h: int,
    t: int,
    table: Map<u32, XrefEntry>,
    trailer: Entries,
    size: i64,
)
    requires
        subsection_at(bytes, 5) == Some((0nat, h)),
        table_entries_at(bytes, h, 0, Map::empty()) == (table, t),
        5 < h <= t <= bytes.len(),
        subsection_at(bytes, t) is None,
        after_space(bytes, 0) == 0,
        after_space(bytes, 4) == 5,
        stands_at(bytes, 0, xref_word()),
        stands_at(bytes, t, trailer_word()),
        dictionary_at(bytes, after_space(bytes, t + 7), 255) matches Some((read, _)) && read == trailer,
        named_entry(trailer, "Size"@) == Some(Value::Integer(size)),
        0 <= size <= 0xffff_ffff,
    ensures
        table_and_trailer(bytes) == Ok::<(Map<u32, XrefEntry>, Entries, u32), ParseError>(
            (table, trailer, size as u32),
        ),
{
    let nothing = Map::<u32, XrefEntry>::empty();
    let sections = seq![5int, t];
    let firsts = seq![0nat];
    let heads = seq![h];
    let tables = seq![nothing, table];
    assert(sections[0] == 5 && sections[1] == t && firsts[0] == 0 && heads[0] == h && tables[0]
        == nothing && tables[1] == table);
    assert(are_subsections(bytes, sections, firsts, heads, tables));
    assert(bytes[t + 0] == trailer_word()[0]);
    assert(after_space(bytes, t) == t);
    lemma_tables(bytes, sections, firsts, heads, tables);
}

proof fn lemma_trailer_read(
    bytes: Seq<u8>,
    objects: Map<ObjectId, Value>,
    head: Seq<u8>,
    count: nat,
    trailer: Entries,
)
    requires
        bytes == table_part(objects, head, count, trailer),
        is_writable(Value::Dictionary(sized_trailer(trailer, count as int + 1)), 256),
    ensures
        ({
            let t = 8 + key(digits(count + 1)).len() as int + 20 * (count + 1);
            let sized = sized_trailer(trailer, count as int + 1);
            dictionary_at(bytes, after_space(bytes, t + 7), 255) matches Some((read, _)) && read
                == sized
        }),
{
    lemma_parts_stand(bytes, objects, head, count, trailer);
    let t = 8 + key(digits(count + 1)).len() as int + 20 * (count + 1);
    let sized = sized_trailer(trailer, count as int + 1);
    let dict = object_bytes(Value::Dictionary(sized));
    let end = t + 8 + dict.len();
    lemma_last_lines(blocks(objects, head, count).len());
    assert(bytes[end + 1 + 0] == last_lines(blocks(objects, head, count).len())[0]);
    assert(is_ended(bytes, end));
    lemma_written_comes_back(Value::Dictionary(sized), bytes, t + 8, 256);
    assert(after_space(bytes, t + 8) == t + 8);
    assert(after_space(bytes, t + 7) == t + 8);
    lemma_dictionary_object(bytes, t + 8);
}

/// `startxref`, in bytes.
spec fn start_word() -> Seq<u8> {
    seq![0x73u8, 0x74, 0x61, 0x72, 0x74, 0x78, 0x72, 0x65, 0x66]
}

/// The end of a file, in bytes.
spec fn end_word() -> Seq<u8> {
    seq![0x0au8, 0x25, 0x25, 0x45, 0x4f, 0x46, 0x0a]
}

proof fn lemma_last_lines(start: nat)
    ensures
        last_lines(start) == start_word() + (seq![0x0au8] + (key(digits(start)) + end_word())),
        key("startxref"@) == start_word(),
        last_lines(start).len() > 0,
        last_lines(start)[0] == 0x73,
{
    reveal_strlit("startxref\n");
    reveal_strlit("startxref");
    reveal_strlit("\n%%EOF\n");
    vstd::utf8::is_ascii_chars_encode_utf8("startxref\n"@);
    vstd::utf8::is_ascii_chars_encode_utf8("startxref"@);
    vstd::utf8::is_ascii_chars_encode_utf8("\n%%EOF\n"@);
    assert(key("startxref\n"@) =~= start_word() + seq![0x0au8]);
    assert(key("startxref"@) =~= start_word());
    assert(key("\n%%EOF\n"@) =~= end_word());
    assert(last_lines(start) =~= start_word() + (seq![0x0au8] + (key(digits(start)) + end_word())));
}

proof fn lemma_few_digits(n: nat)
    requires
        n <= 0x7fff_ffff,
    ensures
        digits(n).len() <= 10,
{
    reveal_with_fuel(ten_to, 11);
    assert(ten_to(10) == 10_000_000_000);
    lemma_digits_len(n, 10);
}

proof fn lemma_digits_len(n: nat, width: nat)
    requires
        width > 0,
        n < ten_to(width),
    ensures
        digits(n).len() <= width,
    decreases width,
{
    if n >= 10 {
        if width == 1 {
            reveal_with_fuel(ten_to, 2);
        } else {
            lemma_digits_len(n / 10, (width - 1) as nat);
        }
    }
}

/// The place of the section is read from the last lines.
proof fn lemma_start_read(file: Seq<u8>, body: Seq<u8>, start: nat)
    requires
        file == body + last_lines(start),
        start <= 0x7fff_ffff,
    ensures
        xref_start_of(tail_bytes(file)) == Some(start),
{
    lemma_last_lines(start);
    lemma_few_digits(start);
    lemma_digit_bytes(start);
    let last = last_lines(start);
    let n = file.len() as int;
    let from = if n < 1024 {
        0
    } else {
        n - 1024
    };
    let tail = tail_bytes(file);
    assert(tail =~= file.skip(from));
    let a = body.len() - from;
    assert(last.len() == 9 + 1 + key(digits(start)).len() + 7);
    assert(stands_at(tail, a, last)) by {
        assert forall|i: int| 0 <= i < last.len() implies tail[a + i] == #[trigger] last[i] by {
            assert(tail[a + i] == file[body.len() + i]);
        }
    }
    lemma_start_in(tail, a, start);
}

proof fn lemma_start_in(tail: Seq<u8>, a: int, start: nat)
    requires
        stands_at(tail, a, last_lines(start)),
        a + last_lines(start).len() == tail.len(),
        start <= 0x7fff_ffff,
    ensures
        xref_start_of(tail) == Some(start),
{
    lemma_last_lines(start);
    lemma_digit_bytes(start);
    let number = key(digits(start));
    let newline = seq![0x0au8];
    lemma_stand_apart(tail, a, start_word(), newline + (number + end_word()));
    lemma_stand_apart(tail, a + 9, newline, number + end_word());
    lemma_stand_apart(tail, a + 10, number, end_word());
    assert(tail[a + 9 + 0] == newline[0]);
    assert(tail[a + 10 + 0] == number[0]);
    let e = a + 10 + number.len();
    assert(tail[e + 0] == end_word()[0]);
    lemma_number_stands(tail, a + 10, start);
    assert(after_space(tail, a + 10) == a + 10);
    assert(after_space(tail, a + 9) == a + 10);
    lemma_tagged(tail, a, start_word());
    assert forall|p: int| a < p < tail.len() implies !#[trigger] tagged(tail, p, start_word()) by {
        lemma_no_later_start(tail, a, number, p);
    }
    lemma_last_tag(tail, tail.len() as int, start_word(), a);
    assert(unsigned_at(tail, a + 10, 0x7fff_ffff) == Some((start, e)));
}

proof fn lemma_no_later_start(tail: Seq<u8>, a: int, number: Seq<u8>, p: int)
    requires
        stands_at(tail, a, start_word()),
        tail[a + 9] == 0x0a,
        stands_at(tail, a + 10, number),
        forall|i: int| 0 <= i < number.len() ==> 0x30 <= #[trigger] number[i] <= 0x39,
        stands_at(tail, a + 10 + number.len(), end_word()),
        a + 17 + number.len() == tail.len(),
        a < p < tail.len(),
    ensures
        !tagged(tail, p, start_word()),
{
    lemma_tagged(tail, p, start_word());
    if stands_at(tail, p, start_word()) {
        let e = a + 10 + number.len();
        assert(tail[p + 0] == start_word()[0]);
        if p < a + 9 {
            assert(tail[a + (p - a)] == start_word()[p - a]);
        } else if a + 10 <= p < e {
            assert(tail[a + 10 + (p - a - 10)] == number[p - a - 10]);
        } else if p >= e {
            assert(tail[e + (p - e)] == end_word()[p - e]);
        }
    }
}

/// A section that starts with `xref` is where it should be.
proof fn lemma_offset_is_right(file: Seq<u8>, strict: bool, offset: int)
    requires
        0 <= offset,
        stands_at(file, offset, xref_word()),
    ensures
        corrected_offset(file, strict, offset) == offset,
{
    lemma_words();
    if !strict {
        let from = recovery_start(offset);
        let to = window_end(file.len(), offset, 64);
        lemma_in_window(file, from, to, offset, xref_word());
        lemma_tagged(file.subrange(from, to), offset - from, xref_word());
    }
}

proof fn lemma_nothing_to_remove(entries: Entries, name: Seq<u8>)
    requires
        entry(entries, name) is None,
    ensures
        remove_entry(entries, name) == entries,
    decreases entries.len(),
{
    if entries.len() > 0 {
        lemma_nothing_to_remove(entries.drop_first(), name);
        assert(seq![entries[0]] + entries.drop_first() =~= entries);
    }
}

/// Whether a document can be saved with a table that is read at once: its version is one line, its trailer
/// is written as it is read, and names no older revision, and its objects and its table are not too long.
pub open spec fn is_saved(document: &Document) -> bool {
    let objects = document.stored();
    let head = header_line(document.version@);
    let count = document.max_id as nat;
    &&& document.max_id < u32::MAX
    &&& blocks(objects, head, count).len() <= 0x7fff_ffff
    &&& with_table(document).len() <= blocks(objects, head, count).len() + 65_536
    &&& key(document.version@).len() <= 4000
    &&& forall|i: int|
        0 <= i < key(document.version@).len() ==> #[trigger] key(document.version@)[i] != 0x0a && key(
            document.version@,
        )[i] != 0x0d
    &&& named_entry(document.trailer@, "Prev"@) is None
    &&& is_writable(Value::Dictionary(sized_trailer(document.trailer@, count as int + 1)), 256)
}

proof fn lemma_header_read(document: &Document)
    requires
        is_saved(document),
    ensures
        header_base(with_table(document)) == 0,
        header_version(head_bytes(with_table(document)).skip(0)) == Some(document.version@),
{
    let file = with_table(document);
    let objects = document.stored();
    let head = header_line(document.version@);
    let count = document.max_id as nat;
    let body = blocks(objects, head, count);
    let version = key(document.version@);
    lemma_file_parts(document);
    lemma_blocks_grow(objects, head, 0, count);
    lemma_file_keywords();
    reveal_strlit("\n");
    vstd::utf8::is_ascii_chars_encode_utf8("\n"@);
    assert(key("\n"@) =~= seq![0x0au8]);
    let tag = key("%PDF-"@);
    let newline = seq![0x0au8];
    assert(head =~= tag + (version + newline));
    assert(stands_at(file, 0, head)) by {
        assert forall|i: int| 0 <= i < head.len() implies file[0 + i] == #[trigger] head[i] by {
            assert(body.take(head.len() as int)[i] == body[i]);
        }
    }
    lemma_stand_apart(file, 0, tag, version + newline);
    lemma_stand_apart(file, 5, version, newline);
    let end = 5 + version.len() as int;
    assert(file[end + 0] == newline[0]);
    assert(file.len() > end) by {
        lemma_table_is_there(document);
    }
    let start = head_bytes(file);
    assert(stands_at(start, 0, tag)) by {
        assert forall|i: int| 0 <= i < tag.len() implies start[0 + i] == #[trigger] tag[i] by {
            assert(file[0 + i] == tag[i]);
        }
    }
    assert forall|p: int| 5 <= p < end implies file[p] != 0x0a && #[trigger] file[p] != 0x0d by {
        assert(file[5 + (p - 5)] == version[p - 5]);
        assert(key(document.version@)[p - 5] != 0x0a);
    }
    assert(file.subrange(5, end) =~= version) by {
        assert forall|i: int| 0 <= i < version.len() implies file[5 + i] == #[trigger] version[i] by {}
    }
    encode_utf8_decode_utf8(document.version@);
    encode_utf8_valid_utf8(document.version@);
    lemma_headers(file, 0, end);
}

proof fn lemma_table_is_there(document: &Document)
    ensures
        ({
            let objects = document.stored();
            let head = header_line(document.version@);
            let count = document.max_id as nat;
            let body = blocks(objects, head, count);
            let part = table_part(objects, head, count, document.trailer@);
            &&& with_table(document) == body + part
            &&& part.len() > 20
            &&& stands_at(with_table(document), body.len() as int, xref_word())
            &&& exists|front: Seq<u8>| with_table(document) == #[trigger] (front + last_lines(body.len()))
        }),
{
    let objects = document.stored();
    let head = header_line(document.version@);
    let count = document.max_id as nat;
    let body = blocks(objects, head, count);
    let part = table_part(objects, head, count, document.trailer@);
    let file = with_table(document);
    lemma_file_parts(document);
    lemma_parts_stand(part, objects, head, count, document.trailer@);
    let x = seq![0x78u8, 0x72, 0x65, 0x66, 0x0a, 0x30, 0x20];
    assert forall|i: int| 0 <= i < 4 implies file[body.len() + i] == #[trigger] xref_word()[i] by {
        assert(part[0 + i] == x[i]);
    }
    let last = last_lines(body.len());
    let at = part.len() - last.len();
    let front = body + part.take(at);
    assert(file =~= front + last) by {
        assert forall|i: int| 0 <= i < last.len() implies part[at + i] == #[trigger] last[i] by {}
        assert(part =~= part.take(at) + last);
    }
}

/// A saved document opens with its version, its trailer, and every object that it has listed where it
/// stands.
#[verifier::spinoff_prover]
#[verifier::rlimit(60)]
pub proof fn lemma_saved_document_opens(document: &Document, options: ReadOptions) -> (structure:
    Structure)
    requires
        is_saved(document),
    ensures
        opened(with_table(document), options) == Ok::<(Seq<char>, int, Structure), Error>(
            (document.version@, 0, structure),
        ),
        structure.trailer == sized_trailer(document.trailer@, document.max_id as int + 1),
        structure.xref_start == blocks(
            document.stored(),
            header_line(document.version@),
            document.max_id as nat,
        ).len(),
        forall|number: u32| #[trigger]
            structure.table.contains_key(number) <==> 0 < number <= document.max_id
                && document.stored().contains_key((number, 0u16)),
        forall|number: u32| #[trigger]
            structure.table.contains_key(number) ==> structure.table[number] == (XrefEntry::Normal {
                offset: blocks(
                    document.stored(),
                    header_line(document.version@),
                    (number - 1) as nat,
                ).len() as u32,
                generation: 0,
            }),
{
    let file = with_table(document);
    let objects = document.stored();
    let head = header_line(document.version@);
    let count = document.max_id as nat;
    let body = blocks(objects, head, count);
    let part = table_part(objects, head, count, document.trailer@);
    let sized = sized_trailer(document.trailer@, count as int + 1);
    lemma_header_read(document);
    lemma_table_is_there(document);
    let front = choose|front: Seq<u8>| file == #[trigger] (front + last_lines(body.len()));
    lemma_start_read(file, front, body.len());
    lemma_offset_is_right(file, options.strict, body.len() as int);
    let table = lemma_table_read(part, objects, head, count, document.trailer@);
    lemma_section_read(file, body, part, options, (table, sized, (count + 1) as u32));
    reveal_strlit("Prev");
    reveal_strlit("Size");
    assert("Prev"@[0] == 'P' && "Size"@[0] == 'S');
    lemma_with(document.trailer@, "Size"@, Value::Integer((count + 1) as i64), "Prev"@);
    assert(!table.contains_key(u32::MAX));
    lemma_structure_read(file, options, body.len(), table, sized, (count + 1) as u32);
    let structure = Structure { xref_start: body.len() as int, table, trailer: sized };
    lemma_opened_so(file, options, document.version@, structure);
    structure
}

proof fn lemma_opened_so(
    file: Seq<u8>,
    options: ReadOptions,
    version: Seq<char>,
    structure: Structure,
)
    requires
        header_base(file) == 0,
        header_version(head_bytes(file).skip(0)) == Some(version),
        file.len() <= 0xffff_ffff,
        structure_of(file, options) == Ok::<Structure, Error>(structure),
    ensures
        opened(file, options) == Ok::<(Seq<char>, int, Structure), Error>((version, 0, structure)),
{
    assert(file.skip(0) =~= file);
}

proof fn lemma_section_read(
    file: Seq<u8>,
    body: Seq<u8>,
    part: Seq<u8>,
    options: ReadOptions,
    section: (Map<u32, XrefEntry>, Entries, u32),
)
    requires
        file == body + part,
        part.len() <= 65_536,
        table_and_trailer(part) == Ok::<(Map<u32, XrefEntry>, Entries, u32), ParseError>(section),
        corrected_offset(file, options.strict, body.len() as int) == body.len(),
    ensures
        section_at(file, options, body.len() as int) == Ok::<
            (Map<u32, XrefEntry>, Entries, u32),
            Error,
        >(section),
{
    lemma_tables_are_sections(part, size_limit(options));
    reveal(section_at);
    assert(file.subrange(body.len() as int, file.len() as int) =~= part);
}

proof fn lemma_structure_read(
    file: Seq<u8>,
    options: ReadOptions,
    start: nat,
    table: Map<u32, XrefEntry>,
    trailer: Entries,
    size: u32,
)
    requires
        xref_start_of(tail_bytes(file)) == Some(start),
        start <= file.len(),
        corrected_offset(file, options.strict, start as int) == start,
        section_at(file, options, start as int) == Ok::<(Map<u32, XrefEntry>, Entries, u32), Error>(
            (table, trailer, size),
        ),
        named_entry(trailer, "Prev"@) is None,
        !table.contains_key(u32::MAX),
    ensures
        structure_of(file, options) == Ok::<Structure, Error>(
            Structure { xref_start: start as int, table, trailer },
        ),
{
    lemma_nothing_to_remove(trailer, key("Prev"@));
    assert(with_older(file, options, None, Set::empty(), table, trailer) == Ok::<
        (Map<u32, XrefEntry>, Entries),
        Error,
    >((table, trailer)));
}

/// An object with its number, as it is read where it stands.
#[verifier::spinoff_prover]
#[verifier::rlimit(60)]
proof fn lemma_block_read(window: Seq<u8>, n: u32, value: Value)
    requires
        stands_at(window, 0, block(n as int, value)),
        is_writable(value, 256),
    ensures
        head_of(window) == Some(((n, 0u16), HeadModel::Object(value))),
{
    reveal_strlit(" 0 obj\n");
    reveal_strlit("\nendobj\n");
    vstd::utf8::is_ascii_chars_encode_utf8(" 0 obj\n"@);
    vstd::utf8::is_ascii_chars_encode_utf8("\nendobj\n"@);
    let number = key(digits(n as nat));
    let middle = seq![0x20u8, 0x30, 0x20, 0x6f, 0x62, 0x6a, 0x0a];
    let own = object_bytes(value);
    let close = seq![0x0au8, 0x65, 0x6e, 0x64, 0x6f, 0x62, 0x6a, 0x0a];
    assert(key(" 0 obj\n"@) =~= middle);
    assert(key("\nendobj\n"@) =~= close);
    assert(block(n as int, value) =~= number + (middle + (own + close)));
    lemma_block_parts(window, number, middle, own, close);
    let d = number.len() as int;
    let at = d + 7;
    let end = at + own.len();
    lemma_id_read(window, n);
    assert(is_ended(window, end));
    lemma_written_comes_back(value, window, at, 256);
    assert(after_space(window, at) == at);
    assert(after_space(window, d + 6) == at);
    assert(after_space(window, end + 1) == end + 1);
    assert(after_space(window, end) == end + 1);
    assert(!stands_at(window, end + 1, stream_word())) by {
        if stands_at(window, end + 1, stream_word()) {
            assert(window[end + 1 + 0] == stream_word()[0]);
        }
    }
    assert(stands_at(window, d + 3, obj_word())) by {
        assert forall|i: int| 0 <= i < 3 implies window[d + 3 + i] == #[trigger] obj_word()[i] by {}
    }
    lemma_objects_with_ids(window, (n, 0u16), d + 3, value, end, 0);
}

proof fn lemma_id_read(window: Seq<u8>, n: u32)
    requires
        stands_at(window, 0, key(digits(n as nat))),
        ({
            let d = key(digits(n as nat)).len() as int;
            &&& d + 4 <= window.len()
            &&& window[d] == 0x20
            &&& window[d + 1] == 0x30
            &&& window[d + 2] == 0x20
            &&& window[d + 3] == 0x6f
        }),
    ensures
        after_space(window, 0) == 0,
        object_id_at(window, 0) == Some(((n, 0u16), key(digits(n as nat)).len() as int + 3)),
{
    let d = key(digits(n as nat)).len() as int;
    lemma_digit_bytes(n as nat);
    lemma_number_stands(window, 0, n as nat);
    assert(are_digits(window, d + 1, d + 2));
    lemma_after_digits_at(window, d + 1, d + 2);
    reveal_with_fuel(digits_worth, 2);
    assert(digits_worth(window, d + 1, d + 2) == 0);
    assert(after_space(window, d + 1) == d + 1);
    assert(after_space(window, d) == d + 1);
    assert(after_space(window, d + 3) == d + 3);
    assert(after_space(window, d + 2) == d + 3);
}

proof fn lemma_block_parts(
    window: Seq<u8>,
    number: Seq<u8>,
    middle: Seq<u8>,
    own: Seq<u8>,
    close: Seq<u8>,
)
    requires
        stands_at(window, 0, number + (middle + (own + close))),
        middle == seq![0x20u8, 0x30, 0x20, 0x6f, 0x62, 0x6a, 0x0a],
        close == seq![0x0au8, 0x65, 0x6e, 0x64, 0x6f, 0x62, 0x6a, 0x0a],
    ensures
        ({
            let d = number.len() as int;
            let end = d + 7 + own.len();
            &&& stands_at(window, 0, number)
            &&& window[d] == 0x20
            &&& window[d + 1] == 0x30
            &&& window[d + 2] == 0x20
            &&& window[d + 3] == 0x6f
            &&& window[d + 4] == 0x62
            &&& window[d + 5] == 0x6a
            &&& window[d + 6] == 0x0a
            &&& stands_at(window, d + 7, own)
            &&& window[end] == 0x0a
            &&& window[end + 1] == 0x65
            &&& end + 8 <= window.len()
        }),
{
    let d = number.len() as int;
    lemma_stand_apart(window, 0, number, middle + (own + close));
    lemma_stand_apart(window, d, middle, own + close);
    lemma_stand_apart(window, d + 7, own, close);
    let end = d + 7 + own.len();
    assert(window[d + 0] == middle[0] && window[d + 1] == middle[1] && window[d + 2] == middle[2]
        && window[d + 3] == middle[3]);
    assert(window[d + 4] == middle[4] && window[d + 5] == middle[5] && window[d + 6] == middle[6]);
    assert(window[end + 0] == close[0] && window[end + 1] == close[1]);
}

/// The next thing behind an object stands where the object ends.
proof fn lemma_next_start(objects: Map<ObjectId, Value>, head: Seq<u8>, n: nat, count: nat) -> (next: nat)
    requires
        n <= count,
    ensures
        n <= next <= count,
        blocks(objects, head, next).len() == blocks(objects, head, n).len(),
        next < count ==> objects.contains_key(numbered(next as int + 1)),
    decreases count - n,
{
    if n < count && !objects.contains_key(numbered(n as int + 1)) {
        assert(blocks(objects, head, n + 1) == blocks(objects, head, n));
        lemma_next_start(objects, head, n + 1, count)
    } else {
        n
    }
}

proof fn lemma_saved_end(document: &Document, file: FileModel, n: u32)
    requires
        is_saved(document),
        file.bytes == with_table(document),
        file.structure.xref_start == blocks(
            document.stored(),
            header_line(document.version@),
            document.max_id as nat,
        ).len(),
        forall|number: u32| #[trigger]
            file.structure.table.contains_key(number) <==> 0 < number <= document.max_id
                && document.stored().contains_key((number, 0u16)),
        forall|number: u32| #[trigger]
            file.structure.table.contains_key(number) ==> file.structure.table[number] == (
            XrefEntry::Normal {
                offset: blocks(
                    document.stored(),
                    header_line(document.version@),
                    (number - 1) as nat,
                ).len() as u32,
                generation: 0,
            }),
        0 < n <= document.max_id,
        document.stored().contains_key((n, 0u16)),
    ensures
        object_end(
            file,
            blocks(document.stored(), header_line(document.version@), (n - 1) as nat).len() as int,
        ) == blocks(document.stored(), header_line(document.version@), n as nat).len(),
{
    let objects = document.stored();
    let head = header_line(document.version@);
    let count = document.max_id as nat;
    let offset = blocks(objects, head, (n - 1) as nat).len() as int;
    let end = blocks(objects, head, n as nat).len() as int;
    lemma_table_is_there(document);
    lemma_block_stands(objects, head, n as nat, count);
    lemma_blocks_grow(objects, head, n as nat, count);
    let next = lemma_next_start(objects, head, n as nat, count);
    assert(starts_there(file, end)) by {
        if next < count {
            let number = (next + 1) as u32;
            assert(numbered(next as int + 1) == (number, 0u16));
            assert(file.structure.table.contains_key(number));
            lemma_blocks_grow(objects, head, next, count);
            assert(file.structure.table[number] matches XrefEntry::Normal { offset, .. } && offset
                == end);
        }
    }
    assert(block(n as int, objects[numbered(n as int)]).len() > 0) by {
        lemma_digit_bytes(n as nat);
    }
    assert forall|at: int| offset < at < end implies !#[trigger] starts_there(file, at) by {
        if starts_there(file, at) {
            if at != file.structure.xref_start {
                let number = choose|number: u32|
                    file.structure.table.contains_key(number) && (
                    #[trigger] file.structure.table[number] matches XrefEntry::Normal {
                        offset,
                        ..
                    } && offset == at);
                assert(file.structure.table.contains_key(number));
                lemma_blocks_grow(objects, head, (number - 1) as nat, count);
                if number <= n {
                    lemma_blocks_grow(objects, head, (number - 1) as nat, (n - 1) as nat);
                } else {
                    lemma_blocks_grow(objects, head, n as nat, (number - 1) as nat);
                }
            }
        }
    }
    lemma_object_ends(file, offset, end);
}

/// Every object of a saved document, but for streams, is read as it was.
#[verifier::spinoff_prover]
#[verifier::rlimit(60)]
pub proof fn lemma_saved_objects_come_back(
    document: &Document,
    options: ReadOptions,
    limit: usize,
    n: u32,
)
    requires
        is_saved(document),
        0 < n <= document.max_id,
        document.stored().contains_key((n, 0u16)),
        is_writable(document.stored()[(n, 0u16)], 256),
    ensures
        opened(with_table(document), options) matches Ok((_, base, structure)) && stored_object(
            FileModel {
                bytes: with_table(document).skip(base),
                structure,
                limit,
                decryption: None,
                encryption_id: None,
            },
            (n, 0u16),
        ) == Ok::<Value, Error>(document.stored()[(n, 0u16)]),
{
    let structure = lemma_saved_document_opens(document, options);
    let bytes = with_table(document);
    assert(bytes.skip(0) =~= bytes);
    let file = FileModel { bytes, structure, limit, decryption: None, encryption_id: None };
    let objects = document.stored();
    let head = header_line(document.version@);
    let count = document.max_id as nat;
    let value = objects[(n, 0u16)];
    let offset = blocks(objects, head, (n - 1) as nat).len() as int;
    let end = blocks(objects, head, n as nat).len() as int;
    lemma_table_is_there(document);
    lemma_block_stands(objects, head, n as nat, count);
    lemma_saved_end(document, file, n);
    lemma_first_windows(file, offset);
    let stop = first_window(file, offset);
    let window = bytes.subrange(offset, stop);
    let own = block(n as int, value);
    let body = blocks(objects, head, count);
    assert(numbered(n as int) == (n, 0u16));
    assert(stands_at(window, 0, own)) by {
        assert forall|i: int| 0 <= i < own.len() implies window[0 + i] == #[trigger] own[i] by {
            assert(body[offset + i] == own[i]);
            assert(bytes[offset + i] == body[offset + i]);
        }
    }
    lemma_block_read(window, n, value);
    let windows = seq![stop];
    assert(are_windows(file, offset, windows));
    assert(file.structure.table.contains_key(n));
    lemma_objects_at_offsets(file, (n, 0u16), offset as u32, windows, value);
}

} // verus!
