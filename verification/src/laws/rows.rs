//! What stored content stands for once its filters and predictors are undone.

use vstd::prelude::*;

use crate::bytes::key;
use crate::error::{DecompressError, Error};
use crate::filters::png::{
    pixel_before, predicted, row_layout, row_start, rows_from, unpredicted, RowLayout,
};
use crate::object::{named_entry, Entries, Value};
use crate::stream_filters::{all_names, inflated_within, plain_within, undone, with_parameters};

verus! {

/// How far apart two numbers are.
pub open spec fn apart(a: int, b: int) -> int {
    if a >= b {
        a - b
    } else {
        b - a
    }
}

/// Whether `prediction` is what the filter `filter` predicts of a byte from those to the left, above, and
/// above to the left: nothing, the left one, the one above, their mean rounded down, or the one nearest to
/// left and above less the corner, the left one first and the one above next.
pub open spec fn is_prediction(filter: u8, left: u8, above: u8, corner: u8, prediction: int) -> bool {
    let estimate = left + above - corner;
    &&& filter == 0 ==> prediction == 0
    &&& filter == 1 ==> prediction == left
    &&& filter == 2 ==> prediction == above
    &&& filter == 3 ==> 2 * prediction <= left + above < 2 * prediction + 2
    &&& filter == 4 ==> {
        &&& prediction == left || prediction == above || prediction == corner
        &&& apart(estimate, prediction) <= apart(estimate, left as int)
        &&& apart(estimate, prediction) <= apart(estimate, above as int)
        &&& apart(estimate, prediction) <= apart(estimate, corner as int)
        &&& apart(estimate, prediction) == apart(estimate, left as int) ==> prediction == left
        &&& apart(estimate, prediction) == apart(estimate, above as int) && prediction != left
            ==> prediction == above
    }
}

/// The byte of `row` that is `pixel_len` before `i`, or 0 before the start of the row.
pub open spec fn byte_before(row: Seq<u8>, i: int, pixel_len: nat) -> u8 {
    if i < pixel_len {
        0
    } else {
        row[i - pixel_len]
    }
}

/// Whether `row` is stored as `stored` below the row `previous`: the number of its filter, and each byte
/// less what the filter predicts of it.
pub open spec fn is_stored_row(
    stored: Seq<u8>,
    row: Seq<u8>,
    previous: Seq<u8>,
    pixel_len: nat,
) -> bool {
    &&& stored.len() == row.len() + 1
    &&& stored[0] <= 4
    &&& forall|i: int|
        0 <= i < row.len() ==> exists|prediction: int| #[trigger]
            is_prediction(
                stored[0],
                byte_before(row, i, pixel_len),
                previous[i],
                byte_before(previous, i, pixel_len),
                prediction,
            ) && (stored[i + 1] + prediction) % 256 == #[trigger] row[i]
}

proof fn lemma_predictions(filter: u8, left: u8, above: u8, corner: u8, prediction: int)
    requires
        filter <= 4,
        is_prediction(filter, left, above, corner, prediction),
    ensures
        predicted(filter, left, above, corner) == prediction,
{
}

proof fn lemma_row(stored: Seq<u8>, row: Seq<u8>, previous: Seq<u8>, pixel_len: nat, n: nat)
    requires
        is_stored_row(stored, row, previous, pixel_len),
        n <= row.len(),
        pixel_len >= 1,
    ensures
        row_start(stored[0], pixel_len, previous, stored.drop_first(), n) == row.take(n as int),
    decreases n,
{
    if n == 0 {
        assert(row.take(0) =~= Seq::empty());
    } else {
        let i = n - 1;
        lemma_row(stored, row, previous, pixel_len, i as nat);
        let head = row.take(i);
        assert(row[i] == row[i]);
        let prediction = choose|prediction: int| #[trigger]
            is_prediction(
                stored[0],
                byte_before(row, i, pixel_len),
                previous[i],
                byte_before(previous, i, pixel_len),
                prediction,
            ) && (stored[i + 1] + prediction) % 256 == row[i];
        assert(pixel_before(head, i, pixel_len) == byte_before(row, i, pixel_len));
        lemma_predictions(
            stored[0],
            byte_before(row, i, pixel_len),
            previous[i],
            byte_before(previous, i, pixel_len),
            prediction,
        );
        assert(stored.drop_first()[i] == stored[i + 1]);
        assert(row.take(n as int) =~= head.push(row[i]));
    }
}

/// The row above row `k`, which for the first one is zeros.
pub open spec fn row_above(rows: Seq<Seq<u8>>, k: int, row_len: nat) -> Seq<u8> {
    if k == 0 {
        Seq::new(row_len, |i: int| 0u8)
    } else {
        rows[k - 1]
    }
}

/// Whether `content` is `rows` one after the other, each stored as a row below the one before it, and
/// behind them no more than part of a row.
pub open spec fn are_stored_rows(content: Seq<u8>, rows: Seq<Seq<u8>>, layout: RowLayout) -> bool {
    let width = layout.row_len + 1;
    &&& rows.len() * width <= content.len() < (rows.len() + 1) * width
    &&& content.len() > rows.len() * width ==> content[rows.len() * width as int] <= 4
    &&& forall|k: int|
        0 <= k < rows.len() ==> (#[trigger] rows[k]).len() == layout.row_len && is_stored_row(
            content.subrange(k * width, k * width + width),
            rows[k],
            row_above(rows, k, layout.row_len),
            layout.pixel_len,
        )
}

proof fn lemma_rows_from(content: Seq<u8>, rows: Seq<Seq<u8>>, layout: RowLayout, k: int)
    requires
        are_stored_rows(content, rows, layout),
        layout.pixel_len >= 1,
        0 <= k <= rows.len(),
    ensures
        rows_from(content, layout, row_above(rows, k, layout.row_len), k * (layout.row_len + 1))
            == Some(rows.skip(k).flatten()),
    decreases rows.len() - k,
{
    let width = layout.row_len + 1;
    let at = k * width;
    let above = row_above(rows, k, layout.row_len);
    assert(at >= 0) by (nonlinear_arith)
        requires
            at == k * width,
            k >= 0,
            width >= 0,
    ;
    if k == rows.len() {
        assert(rows.skip(k) =~= Seq::empty());
        assert((rows.len() + 1) * width == at + width) by (nonlinear_arith)
            requires
                at == k * width,
                k == rows.len(),
        ;
        assert(rows.skip(k).flatten() =~= Seq::empty());
    } else {
        let end = at + width;
        assert(end == (k + 1) * width) by (nonlinear_arith)
            requires
                at == k * width,
                end == at + width,
        ;
        assert((k + 1) * width <= rows.len() * width) by (nonlinear_arith)
            requires
                k + 1 <= rows.len(),
                width >= 0,
        ;
        let row = rows[k];
        assert(row.len() == layout.row_len);
        let stored = content.subrange(at, end);
        assert(stored[0] == content[at]);
        assert(stored.drop_first() =~= content.subrange(at + 1, end));
        lemma_row(stored, row, above, layout.pixel_len, layout.row_len);
        assert(row.take(layout.row_len as int) =~= row);
        lemma_rows_from(content, rows, layout, k + 1);
        assert(row_above(rows, k + 1, layout.row_len) == row);
        assert(rows.skip(k).drop_first() =~= rows.skip(k + 1));
        assert(rows.skip(k)[0] == row);
    }
}

/// Rows that are stored with predictors come back, one after the other; part of a row at the end does not
/// count.
pub proof fn lemma_rows_come_back(content: Seq<u8>, rows: Seq<Seq<u8>>, layout: RowLayout)
    requires
        are_stored_rows(content, rows, layout),
        layout.pixel_len >= 1,
    ensures
        unpredicted(content, layout) == Some(rows.flatten()),
{
    lemma_rows_from(content, rows, layout, 0);
    assert(rows.skip(0) =~= rows);
    assert(0 * (layout.row_len + 1) == 0);
}

/// A row whose filter there is not cannot be undone.
pub proof fn lemma_unknown_row_filter(content: Seq<u8>, layout: RowLayout)
    requires
        content.len() > 0,
        content[0] > 4,
    ensures
        unpredicted(content, layout) is None,
{
}

/// Whether `value` is the number that the parameters give under `name`, or `default` where they give none.
pub open spec fn is_parameter(parameters: Entries, name: Seq<char>, default: int, value: int) -> bool {
    match named_entry(parameters, name) {
        Some(Value::Integer(i)) => value == i,
        _ => value == default,
    }
}

/// A pixel has as many bytes as its colours have bits together, by eight, and a row as many as its pixels
/// have together. Of what is not given there is one column, one colour and eight bits.
pub proof fn lemma_row_layouts(parameters: Entries, columns: int, colors: int, bits: int)
    requires
        is_parameter(parameters, "Columns"@, 1, columns),
        is_parameter(parameters, "Colors"@, 1, colors),
        is_parameter(parameters, "BitsPerComponent"@, 8, bits),
        columns >= 1,
        colors >= 1,
        bits >= 8,
        bits % 8 == 0,
    ensures
        8 * row_layout(parameters).pixel_len == colors * bits,
        8 * row_layout(parameters).row_len == columns * colors * bits,
        row_layout(parameters).pixel_len >= 1,
{
    let bytes = bits / 8;
    assert(bits == 8 * bytes);
    let whole = colors * bits;
    let pixel_len = whole / 8;
    assert(whole == 8 * (colors * bytes)) by (nonlinear_arith)
        requires
            whole == colors * bits,
            bits == 8 * bytes,
    ;
    assert(pixel_len == colors * bytes);
    assert(colors * bytes >= 1) by (nonlinear_arith)
        requires
            colors >= 1,
            bytes >= 1,
    ;
    assert(pixel_len * columns >= 0) by (nonlinear_arith)
        requires
            pixel_len >= 1,
            columns >= 1,
    ;
    assert(8 * (pixel_len * columns) == columns * colors * bits) by (nonlinear_arith)
        requires
            pixel_len == colors * bytes,
            bits == 8 * bytes,
    ;
}

/// The predictors from 10 to 15 are undone, and with any other, or none, content is left as it is.
pub proof fn lemma_predictors(parameters: Entries, predictor: int, plain: Seq<u8>)
    requires
        is_parameter(parameters, "Predictor"@, 1, predictor),
    ensures
        with_parameters(None, plain) == Ok::<Seq<u8>, Error>(plain),
        !(10 <= predictor <= 15) ==> with_parameters(Some(parameters), plain) == Ok::<Seq<u8>, Error>(
            plain,
        ),
        10 <= predictor <= 15 && row_layout(parameters).row_len <= usize::MAX ==> match unpredicted(
            plain,
            row_layout(parameters),
        ) {
            Some(rows) => with_parameters(Some(parameters), plain) == Ok::<Seq<u8>, Error>(rows),
            None => with_parameters(Some(parameters), plain) is Err,
        },
{
}

/// Filters are undone in turn, the first one first: what is left after the first ones is what the others
/// are undone on.
pub proof fn lemma_filters_in_turn(
    first: Seq<Seq<u8>>,
    others: Seq<Seq<u8>>,
    parameters: Option<Entries>,
    content: Seq<u8>,
    limit: usize,
)
    ensures
        undone(first + others, parameters, content, limit) == match undone(
            first,
            parameters,
            content,
            limit,
        ) {
            Ok(plain) => undone(others, parameters, plain, limit),
            Err(error) => Err(error),
        },
    decreases first.len(),
{
    if first.len() == 0 {
        assert(first + others =~= others);
    } else {
        let all = first + others;
        assert(all[0] == first[0]);
        assert(all.drop_first() =~= first.drop_first() + others);
        if first[0] == key("FlateDecode"@) {
            if let Ok(inflated) = inflated_within(content, limit) {
                if let Ok(plain) = with_parameters(parameters, inflated) {
                    lemma_filters_in_turn(first.drop_first(), others, parameters, plain, limit);
                }
            }
        }
    }
}

/// Content without a filter is itself; with one it is inflated and its predictor is undone, within the limit
/// or not at all; and a filter that is not known is said to be.
pub proof fn lemma_one_filter(dict: Entries, content: Seq<u8>, limit: usize)
    ensures
        named_entry(dict, "Filter"@) is None ==> plain_within(dict, content, limit) == Ok::<
            Seq<u8>,
            Error,
        >(content),
        named_entry(dict, "Filter"@) == Some(Value::Name(key("FlateDecode"@))) && named_entry(
            dict,
            "DecodeParms"@,
        ) is None ==> plain_within(dict, content, limit) == inflated_within(content, limit),
        (named_entry(dict, "Filter"@) matches Some(Value::Name(name)) && name != key("FlateDecode"@))
            && named_entry(dict, "DecodeParms"@) is None ==> plain_within(dict, content, limit) == Err::<
            Seq<u8>,
            Error,
        >(Error::Decompress(DecompressError::UnsupportedFilter)),
        named_entry(dict, "Filter"@) == Some(Value::Name(key("FlateDecode"@))) && named_entry(
            dict,
            "DecodeParms"@,
        ) is None ==> (plain_within(dict, content, limit) matches Ok(plain) ==> plain.len() <= limit),
{
    if let Some(Value::Name(name)) = named_entry(dict, "Filter"@) {
        let filters = seq![name];
        assert(filters[0] == name);
        assert(filters.drop_first() =~= Seq::empty());
        if name == key("FlateDecode"@) {
            if let Ok(plain) = inflated_within(content, limit) {
                assert(undone(filters.drop_first(), None, plain, limit) == Ok::<Seq<u8>, Error>(plain));
            }
        }
    }
}

/// The filters of a stream are the names that its array lists, in order.
pub proof fn lemma_filter_names(items: Seq<Value>, names: Seq<Seq<u8>>)
    requires
        items.len() == names.len(),
        forall|i: int| 0 <= i < items.len() ==> #[trigger] items[i] == Value::Name(names[i]),
    ensures
        all_names(items) == Some(names),
    decreases items.len(),
{
    if items.len() == 0 {
        assert(names =~= Seq::empty());
    } else {
        let front = items.drop_last();
        assert forall|i: int| 0 <= i < front.len() implies #[trigger] front[i] == Value::Name(
            names.drop_last()[i],
        ) by {
            assert(front[i] == items[i]);
        }
        lemma_filter_names(front, names.drop_last());
        assert(items[items.len() - 1] == Value::Name(names[items.len() - 1]));
        assert(names.drop_last().push(names.last()) =~= names);
    }
}

} // verus!
