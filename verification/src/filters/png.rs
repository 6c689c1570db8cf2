//! PNG predictors, which a producer applies to rows of bytes before it compresses them.

use vstd::prelude::*;

use crate::object::{integer_of, named_entry, Dictionary, Entries, Object};

verus! {

/// Rows of bytes: how many bytes there are to a row, and how many to a pixel.
pub struct RowLayout {
    pub row_len: nat,
    pub pixel_len: nat,
}

/// A number among a filter's parameters, or `default` where there is none.
pub open spec fn parameter(parameters: Entries, name: Seq<char>, default: int) -> int {
    match named_entry(parameters, name) {
        Some(value) => match integer_of(value) {
            Some(i) => i as int,
            None => default,
        },
        None => default,
    }
}

/// The larger of two numbers.
pub open spec fn at_least(least: int, n: int) -> int {
    if n < least {
        least
    } else {
        n
    }
}

/// Whether a filter's parameters ask for a PNG predictor.
pub open spec fn has_predictor(parameters: Entries) -> bool {
    10 <= parameter(parameters, "Predictor"@, 1) <= 15
}

/// The rows that a filter's parameters describe.
pub open spec fn row_layout(parameters: Entries) -> RowLayout {
    let columns = at_least(1, parameter(parameters, "Columns"@, 1));
    let colors = at_least(1, parameter(parameters, "Colors"@, 1));
    let bits = at_least(8, parameter(parameters, "BitsPerComponent"@, 8));
    let pixel_len = colors * bits / 8;
    RowLayout { row_len: (pixel_len * columns) as nat, pixel_len: pixel_len as nat }
}

/// How far apart two numbers are.
pub open spec fn distance(a: int, b: int) -> int {
    if a < b {
        b - a
    } else {
        a - b
    }
}

/// Which of the bytes to the left, above, and above to the left is nearest to left plus above minus
/// above to the left.
pub open spec fn paeth(left: u8, above: u8, corner: u8) -> u8 {
    let estimate = left + above - corner;
    let to_left = distance(estimate, left as int);
    let to_above = distance(estimate, above as int);
    let to_corner = distance(estimate, corner as int);
    if to_left <= to_above && to_left <= to_corner {
        left
    } else if to_above <= to_corner {
        above
    } else {
        corner
    }
}

/// What a row's filter predicts of a byte, from those around it.
pub open spec fn predicted(filter: u8, left: u8, above: u8, corner: u8) -> int {
    if filter == 1 {
        left as int
    } else if filter == 2 {
        above as int
    } else if filter == 3 {
        (left + above) / 2
    } else if filter == 4 {
        paeth(left, above, corner) as int
    } else {
        0
    }
}

/// The byte of `row` a pixel before `i`, or zero at the row's start.
pub open spec fn pixel_before(row: Seq<u8>, i: int, pixel_len: nat) -> u8 {
    if i >= pixel_len {
        row[i - pixel_len]
    } else {
        0
    }
}

/// The first `n` bytes of a row: each is its difference and what is predicted of it, added.
pub open spec fn row_start(
    filter: u8,
    pixel_len: nat,
    previous: Seq<u8>,
    differences: Seq<u8>,
    n: nat,
) -> Seq<u8>
    decreases n,
{
    if n == 0 {
        Seq::empty()
    } else {
        let i = n - 1;
        let head = row_start(filter, pixel_len, previous, differences, i as nat);
        let prediction = predicted(
            filter,
            pixel_before(head, i, pixel_len),
            previous[i],
            pixel_before(previous, i, pixel_len),
        );
        head.push(((differences[i] + prediction) % 256) as u8)
    }
}

/// The rows from `at` on, below the row `previous`, or `None` when one has a filter that there is
/// not. A row that is cut short is left out.
pub open spec fn rows_from(
    content: Seq<u8>,
    layout: RowLayout,
    previous: Seq<u8>,
    at: int,
) -> Option<Seq<u8>>
    decreases content.len() - at,
{
    if at < 0 || at >= content.len() {
        Some(Seq::empty())
    } else if content[at] > 4 {
        None
    } else if at + 1 + layout.row_len > content.len() {
        Some(Seq::empty())
    } else {
        let end = at + 1 + layout.row_len;
        let row = row_start(
            content[at],
            layout.pixel_len,
            previous,
            content.subrange(at + 1, end),
            layout.row_len,
        );
        match rows_from(content, layout, row, end) {
            Some(rest) => Some(row + rest),
            None => None,
        }
    }
}

/// What `content` stands for with a PNG predictor undone: rows behind a byte for their filter, the
/// first below a row of zeros.
pub open spec fn unpredicted(content: Seq<u8>, layout: RowLayout) -> Option<Seq<u8>> {
    rows_from(content, layout, Seq::new(layout.row_len, |i: int| 0u8), 0)
}

/// What a filter leaves of byte `i` of `row`, below the row `previous`: its difference from what is
/// predicted of it.
pub open spec fn difference(
    filter: u8,
    pixel_len: nat,
    previous: Seq<u8>,
    row: Seq<u8>,
    i: int,
) -> u8 {
    ((row[i] - predicted(
        filter,
        pixel_before(row, i, pixel_len),
        previous[i],
        pixel_before(previous, i, pixel_len),
    )) % 256) as u8
}

/// A row comes back from its differences.
pub proof fn lemma_row_comes_back(filter: u8, pixel_len: nat, previous: Seq<u8>, row: Seq<u8>)
    requires
        pixel_len >= 1,
    ensures
        row_start(
            filter,
            pixel_len,
            previous,
            Seq::new(row.len(), |i: int| difference(filter, pixel_len, previous, row, i)),
            row.len(),
        ) == row,
{
    lemma_row_start_comes_back(filter, pixel_len, previous, row, row.len());
    assert(row.take(row.len() as int) =~= row);
}

proof fn lemma_row_start_comes_back(
    filter: u8,
    pixel_len: nat,
    previous: Seq<u8>,
    row: Seq<u8>,
    n: nat,
)
    requires
        pixel_len >= 1,
        n <= row.len(),
    ensures
        row_start(
            filter,
            pixel_len,
            previous,
            Seq::new(row.len(), |i: int| difference(filter, pixel_len, previous, row, i)),
            n,
        ) == row.take(n as int),
    decreases n,
{
    let differences = Seq::new(
        row.len(),
        |i: int| difference(filter, pixel_len, previous, row, i),
    );
    if n == 0 {
        assert(row.take(0) =~= Seq::<u8>::empty());
    } else {
        let i = n - 1;
        lemma_row_start_comes_back(filter, pixel_len, previous, row, i as nat);
        let head = row.take(i);
        assert(pixel_before(head, i, pixel_len) == pixel_before(row, i, pixel_len));
        let prediction = predicted(
            filter,
            pixel_before(row, i, pixel_len),
            previous[i],
            pixel_before(previous, i, pixel_len),
        );
        assert(differences[i] == ((row[i] - prediction) % 256) as u8);
        assert((((row[i] - prediction) % 256) + prediction) % 256 == row[i]);
        assert(row.take(n as int) =~= head.push(row[i]));
    }
}

fn number_parameter(parameters: &Dictionary, name: &str, default: i64) -> (r: i64)
    ensures
        r == parameter(parameters@, name@, default as int),
{
    match parameters.named(name) {
        Some(Object::Integer(i)) => *i,
        _ => default,
    }
}

/// Whether a filter's parameters ask for a PNG predictor.
pub fn asks_for_predictor(parameters: &Dictionary) -> (r: bool)
    ensures
        r == has_predictor(parameters@),
{
    let predictor = number_parameter(parameters, "Predictor", 1);
    10 <= predictor && predictor <= 15
}

/// The bytes to a row and to a pixel that a filter's parameters describe, if a `usize` can count
/// them.
pub fn layout_of(parameters: &Dictionary) -> (r: Option<(usize, usize)>)
    ensures
        match r {
            Some((row_len, pixel_len)) => row_layout(parameters@) == (RowLayout {
                row_len: row_len as nat,
                pixel_len: pixel_len as nat,
            }) && pixel_len >= 1,
            None => row_layout(parameters@).row_len > usize::MAX,
        },
{
    let columns = number_parameter(parameters, "Columns", 1);
    let colors = number_parameter(parameters, "Colors", 1);
    let bits = number_parameter(parameters, "BitsPerComponent", 8);
    let columns: u128 = if columns < 1 {
        1
    } else {
        columns as u128
    };
    let colors: u128 = if colors < 1 {
        1
    } else {
        colors as u128
    };
    let bits: u128 = if bits < 8 {
        8
    } else {
        bits as u128
    };
    let ghost layout = row_layout(parameters@);
    assert(colors * bits <= 0x8000_0000_0000_0000 * 0x8000_0000_0000_0000) by (nonlinear_arith)
        requires
            colors <= 0x8000_0000_0000_0000,
            bits <= 0x8000_0000_0000_0000,
    ;
    assert(colors * bits >= 8) by (nonlinear_arith)
        requires
            colors >= 1,
            bits >= 8,
    ;
    let pixel_len = colors * bits / 8;
    assert(layout.pixel_len == pixel_len);
    assert(layout.row_len == pixel_len * columns);
    assert(pixel_len * columns >= pixel_len) by (nonlinear_arith)
        requires
            columns >= 1,
            pixel_len >= 0,
    ;
    let largest = usize::MAX as u128;
    if pixel_len > largest {
        return None;
    }
    assert(pixel_len * columns <= 0x1_0000_0000_0000_0000 * 0x8000_0000_0000_0000)
        by (nonlinear_arith)
        requires
            pixel_len <= 0x1_0000_0000_0000_0000,
            columns <= 0x8000_0000_0000_0000,
    ;
    let row_len = pixel_len * columns;
    if row_len > largest {
        return None;
    }
    Some((row_len as usize, pixel_len as usize))
}

fn predict(filter: u8, left: u8, above: u8, corner: u8) -> (r: u8)
    ensures
        r == predicted(filter, left, above, corner),
{
    if filter == 1 {
        left
    } else if filter == 2 {
        above
    } else if filter == 3 {
        ((left as u16 + above as u16) / 2) as u8
    } else if filter == 4 {
        let estimate = left as i16 + above as i16 - corner as i16;
        let to_left = if estimate < left as i16 {
            left as i16 - estimate
        } else {
            estimate - left as i16
        };
        let to_above = if estimate < above as i16 {
            above as i16 - estimate
        } else {
            estimate - above as i16
        };
        let to_corner = if estimate < corner as i16 {
            corner as i16 - estimate
        } else {
            estimate - corner as i16
        };
        if to_left <= to_above && to_left <= to_corner {
            left
        } else if to_above <= to_corner {
            above
        } else {
            corner
        }
    } else {
        0
    }
}

/// The row of `differences` at `at`, below the row `previous`.
fn decode_row(
    filter: u8,
    pixel_len: usize,
    previous: &Vec<u8>,
    content: &[u8],
    at: usize,
) -> (r: Vec<u8>)
    requires
        pixel_len >= 1,
        at + previous@.len() <= content@.len(),
    ensures
        r@ == row_start(
            filter,
            pixel_len as nat,
            previous@,
            content@.subrange(at as int, at + previous@.len()),
            previous@.len(),
        ),
        r@.len() == previous@.len(),
{
    let ghost differences = content@.subrange(at as int, at + previous@.len());
    let len = previous.len();
    let total = content.len();
    let mut row: Vec<u8> = Vec::new();
    let mut i: usize = 0;
    while i < len
        invariant
            i <= len == previous@.len(),
            pixel_len >= 1,
            at + len <= total == content@.len(),
            differences == content@.subrange(at as int, at + previous@.len()),
            row@.len() == i,
            row@ == row_start(filter, pixel_len as nat, previous@, differences, i as nat),
        decreases len - i,
    {
        let (left, corner) = if i >= pixel_len {
            (row[i - pixel_len], previous[i - pixel_len])
        } else {
            (0, 0)
        };
        let prediction = predict(filter, left, previous[i], corner);
        let sum = content[at + i] as u16 + prediction as u16;
        row.push((sum % 256) as u8);
        i += 1;
    }
    row
}

/// `content` with a PNG predictor undone, or `None` when a row has a filter that there is not.
pub fn decode_frame(content: &[u8], row_len: usize, pixel_len: usize) -> (r: Option<Vec<u8>>)
    requires
        pixel_len >= 1,
    ensures
        match r {
            Some(plain) => unpredicted(
                content@,
                RowLayout { row_len: row_len as nat, pixel_len: pixel_len as nat },
            ) == Some(plain@),
            None => unpredicted(
                content@,
                RowLayout { row_len: row_len as nat, pixel_len: pixel_len as nat },
            ) is None,
        },
{
    let ghost layout = RowLayout { row_len: row_len as nat, pixel_len: pixel_len as nat };
    let ghost expected = unpredicted(content@, layout);
    let mut plain: Vec<u8> = Vec::new();
    let len = content.len();
    if len == 0 || row_len > len - 1 {
        // Not even one row.
        return if len > 0 && content[0] > 4 {
            None
        } else {
            assert(plain@ =~= Seq::<u8>::empty());
            Some(plain)
        };
    }
    let mut previous: Vec<u8> = Vec::new();
    while previous.len() < row_len
        invariant
            previous@.len() <= row_len,
            forall|i: int| 0 <= i < previous@.len() ==> #[trigger] previous@[i] == 0,
        decreases row_len - previous@.len(),
    {
        previous.push(0);
    }
    assert(previous@ =~= Seq::new(layout.row_len, |i: int| 0u8));
    let mut at: usize = 0;
    proof {
        let rest = rows_from(content@, layout, previous@, 0);
        if let Some(rest) = rest {
            assert(plain@ + rest =~= rest);
        }
    }
    while at < len
        invariant
            len == content@.len(),
            at <= len <= usize::MAX,
            pixel_len >= 1,
            layout == (RowLayout { row_len: row_len as nat, pixel_len: pixel_len as nat }),
            previous@.len() == row_len,
            expected == unpredicted(content@, layout),
            expected == match rows_from(content@, layout, previous@, at as int) {
                Some(rest) => Some(plain@ + rest),
                None => None,
            },
        decreases len - at,
    {
        let filter = content[at];
        if filter > 4 {
            return None;
        }
        if row_len > len - at - 1 {
            assert(plain@ + Seq::<u8>::empty() =~= plain@);
            return Some(plain);
        }
        let row = decode_row(filter, pixel_len, &previous, content, at + 1);
        proof {
            let rest = rows_from(content@, layout, row@, at + 1 + row_len);
            if let Some(rest) = rest {
                assert(plain@ + (row@ + rest) =~= (plain@ + row@) + rest);
            }
        }
        let ghost before = plain@;
        plain.extend_from_slice(row.as_slice());
        assert(plain@ =~= before + row@);
        previous = row;
        at = at + 1 + row_len;
    }
    assert(plain@ + Seq::<u8>::empty() =~= plain@);
    Some(plain)
}

} // verus!
