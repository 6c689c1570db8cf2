//! A page's content, decoded a chunk at a time.

use vstd::prelude::*;
use vstd::slice::slice_subrange;

use crate::document::{chased, Document, DEREF_LIMIT};
use crate::error::{DecompressError, Error, Result};
use crate::filters::flate::{full_run, inflate_start, InflateState, Inflater};
use crate::object::{
    named_entry, reference_of, value, values, Dictionary, Entries, Object, ObjectId, Stream, Value,
};
use crate::stream_filters::{
    decoded_within, decompressed_content_with_limit, filter_names, filters, inflates_alone,
    is_inflated_alone, lemma_decode_errors,
};

verus! {

/// The most content one [`PageContent::read_into`] appends.
pub const CHUNK: usize = 65_536;

/// Bounds on what reading a page decodes.
#[derive(Clone, Copy, Debug, PartialEq, Eq)]
pub struct DecodeLimits {
    /// The most bytes that one stream held whole may decode to: a font's `/ToUnicode` CMap, a
    /// content stream that cannot be decoded a piece at a time, or one content operation.
    pub max_stream_size: usize,
    /// The most bytes that a page's content may decode to. Text extraction holds them while it reads
    /// a page.
    pub max_page_content_size: usize,
    /// The most bytes that the content of all the pages read in one call may decode to.
    pub max_total_content_size: usize,
}

impl DecodeLimits {
    /// No bounds at all.
    pub fn unbounded() -> (r: Self)
        ensures
            r.max_stream_size == usize::MAX,
            r.max_page_content_size == usize::MAX,
            r.max_total_content_size == usize::MAX,
    {
        Self::uniform(usize::MAX)
    }

    /// `max` bytes for a stream and for a page, however many pages are read.
    pub fn uniform(max: usize) -> (r: Self)
        ensures
            r.max_stream_size == max,
            r.max_page_content_size == max,
            r.max_total_content_size == usize::MAX,
    {
        DecodeLimits {
            max_stream_size: max,
            max_page_content_size: max,
            max_total_content_size: usize::MAX,
        }
    }

    /// The bounds on one page, once the pages before it decoded to `spent` bytes.
    pub fn page_limits(&self, spent: usize) -> (r: PageLimits)
        ensures
            r == page_limits(*self, spent),
    {
        let left = if spent < self.max_total_content_size {
            self.max_total_content_size - spent
        } else {
            0
        };
        if left < self.max_page_content_size {
            PageLimits {
                max_stream_size: self.max_stream_size,
                max_content_size: left,
                reported: self.max_total_content_size,
            }
        } else {
            PageLimits {
                max_stream_size: self.max_stream_size,
                max_content_size: self.max_page_content_size,
                reported: self.max_page_content_size,
            }
        }
    }
}

/// Bounds on what reading one page decodes.
#[derive(Clone, Copy, Debug, PartialEq, Eq)]
pub struct PageLimits {
    /// The most bytes that one stream held whole may decode to.
    pub max_stream_size: usize,
    /// The most bytes that the page's content may decode to.
    pub max_content_size: usize,
    /// The bound that is reported of a page whose content decodes to more.
    pub reported: usize,
}

/// What `limits` leave for one page, once the pages before it decoded to `spent` bytes: the bound on
/// a page, or what is left in all, if that is less.
pub open spec fn page_limits(limits: DecodeLimits, spent: usize) -> PageLimits {
    let left = if spent < limits.max_total_content_size {
        (limits.max_total_content_size - spent) as usize
    } else {
        0
    };
    if left < limits.max_page_content_size {
        PageLimits {
            max_stream_size: limits.max_stream_size,
            max_content_size: left,
            reported: limits.max_total_content_size,
        }
    } else {
        PageLimits {
            max_stream_size: limits.max_stream_size,
            max_content_size: limits.max_page_content_size,
            reported: limits.max_page_content_size,
        }
    }
}

/// A page is left no more than its own bound and no more than the pages before it left of the total,
/// and each bound is reported of the pages that it is the first to stop.
pub proof fn lemma_pages_share_the_total(limits: DecodeLimits, spent: usize)
    ensures
        ({
            let page = page_limits(limits, spent);
            &&& page.max_content_size <= limits.max_page_content_size
            &&& page.max_content_size == 0 || spent + page.max_content_size
                <= limits.max_total_content_size
            &&& page.reported == limits.max_page_content_size || page.reported
                == limits.max_total_content_size
            &&& spent + limits.max_page_content_size <= limits.max_total_content_size
                ==> page.max_content_size == page.reported == limits.max_page_content_size
        }),
{
}

/// The references among `items`.
pub open spec fn references_in(items: Seq<Value>) -> Seq<ObjectId>
    decreases items.len(),
{
    if items.len() == 0 {
        Seq::empty()
    } else {
        let head = references_in(items.drop_last());
        match reference_of(items.last()) {
            Some(id) => head.push(id),
            None => head,
        }
    }
}

/// The content streams that `contents` names: an array's references, or the one stream, or the one
/// missing object, that a chain of no more than `left` references leads to.
pub open spec fn content_ids(objects: Map<ObjectId, Value>, contents: Value, left: nat) -> Seq<
    ObjectId,
>
    decreases left,
{
    match contents {
        Value::Reference(id) => if !objects.contains_key(id) || objects[id] is Stream {
            seq![id]
        } else if left <= 1 {
            Seq::empty()
        } else {
            content_ids(objects, objects[id], (left - 1) as nat)
        },
        Value::Array(items) => references_in(items),
        _ => Seq::empty(),
    }
}

/// The content streams of a page.
pub open spec fn page_content_ids(objects: Map<ObjectId, Value>, page: ObjectId) -> Seq<ObjectId> {
    match chased(objects, page, DEREF_LIMIT as nat) {
        Ok(Value::Dictionary(page)) => match named_entry(page, "Contents"@) {
            Some(contents) => content_ids(objects, contents, DEREF_LIMIT as nat),
            None => Seq::empty(),
        },
        _ => Seq::empty(),
    }
}

/// How far a content stream has been decoded.
pub enum DecodingModel {
    Inflating(InflateState),
    /// What is left of content decoded whole, or read as it is stored.
    Decoded(Seq<u8>),
}

/// How far a page's content has been read.
pub struct ContentModel {
    pub streams: Seq<ObjectId>,
    pub current: Option<DecodingModel>,
    /// How many bytes have been read, as far as a `usize` counts.
    pub len: usize,
}

/// A sum, kept within what a `usize` holds.
pub open spec fn counted(len: usize, more: int) -> usize {
    if len + more > usize::MAX {
        usize::MAX
    } else {
        (len + more) as usize
    }
}

/// How many bytes a page's content may still decode to.
pub open spec fn remaining(limits: PageLimits, len: usize) -> usize {
    if len < limits.max_content_size {
        (limits.max_content_size - len) as usize
    } else {
        0
    }
}

/// What is said of a page whose content decodes to too much.
pub open spec fn page_limit_exceeded(limits: PageLimits) -> Error {
    Error::Decompress(
        DecompressError::MemoryLimitExceeded { limit: limits.reported },
    )
}

/// How the content of a stream is decoded: inflated as it is read, read as it is stored when it
/// has no filter or one that cannot be undone, or decoded whole.
pub open spec fn decoding_start(
    dict: Entries,
    content: Seq<u8>,
    limits: PageLimits,
    len: usize,
) -> std::result::Result<DecodingModel, Error> {
    let left = remaining(limits, len);
    let limit = if left < limits.max_stream_size {
        left
    } else {
        limits.max_stream_size
    };
    if inflates_alone(dict) {
        Ok(DecodingModel::Inflating(inflate_start(content)))
    } else if filter_names(dict) is None {
        Ok(DecodingModel::Decoded(content))
    } else {
        match decoded_within(dict, content, limit) {
            Ok(plain) => Ok(DecodingModel::Decoded(plain)),
            Err(Error::Decompress(DecompressError::MemoryLimitExceeded { limit: exceeded })) => if limit
                == left {
                Err(page_limit_exceeded(limits))
            } else {
                Err(Error::Decompress(DecompressError::MemoryLimitExceeded { limit: exceeded }))
            },
            Err(_) => Ok(DecodingModel::Decoded(content)),
        }
    }
}

/// Up to `wanted` more bytes of a content stream, and how far it has been decoded after them.
pub open spec fn decoded_more(decoding: DecodingModel, wanted: nat) -> (DecodingModel, Seq<u8>) {
    match decoding {
        DecodingModel::Inflating(state) => {
            let (after, bytes) = full_run(state, wanted);
            (DecodingModel::Inflating(after), bytes)
        },
        DecodingModel::Decoded(rest) => {
            let count = if rest.len() < wanted {
                rest.len() as int
            } else {
                wanted as int
            };
            (DecodingModel::Decoded(rest.skip(count)), rest.take(count))
        },
    }
}

/// Reading the next chunk of a page's content: how far it has been read after it, what it gives,
/// and whether there was any, or what went wrong.
pub open spec fn content_read(
    objects: Map<ObjectId, Value>,
    limits: PageLimits,
    at: ContentModel,
) -> (ContentModel, Seq<u8>, std::result::Result<bool, Error>)
    decreases
            at.streams.len(),
            if at.current is None {
                1int
            } else {
                0int
            },
{
    match at.current {
        None => if at.streams.len() == 0 {
            (at, Seq::empty(), Ok(false))
        } else {
            let next = ContentModel { streams: at.streams.drop_first(), ..at };
            match chased(objects, at.streams[0], DEREF_LIMIT as nat) {
                Ok(Value::Stream(dict, content)) => match decoding_start(
                    dict,
                    content,
                    limits,
                    at.len,
                ) {
                    Ok(decoding) => content_read(
                        objects,
                        limits,
                        ContentModel { current: Some(decoding), ..next },
                    ),
                    Err(error) => (next, Seq::empty(), Err(error)),
                },
                _ => content_read(objects, limits, next),
            }
        },
        Some(decoding) => {
            let left = remaining(limits, at.len);
            // One byte past the budget tells that the page goes over it.
            let wanted: nat = if left < CHUNK {
                (left + 1) as nat
            } else {
                CHUNK as nat
            };
            let (after, bytes) = decoded_more(decoding, wanted);
            if bytes.len() > left {
                (ContentModel { current: Some(after), ..at }, bytes, Err(page_limit_exceeded(limits)))
            } else if bytes.len() == 0 {
                // Each content stream is followed by a newline.
                (
                    ContentModel { current: None, len: counted(at.len, 1), ..at },
                    seq![10u8],
                    Ok(true),
                )
            } else {
                (
                    ContentModel {
                        current: Some(after),
                        len: counted(at.len, bytes.len() as int),
                        ..at
                    },
                    bytes,
                    Ok(true),
                )
            }
        },
    }
}

/// A chunk that is given counts in full, and apart from the newline after a stream it keeps within
/// what the page may decode to. Once there is none, there is none again.
pub proof fn lemma_chunks_count(
    objects: Map<ObjectId, Value>,
    limits: PageLimits,
    at: ContentModel,
)
    ensures
        ({
            let (after, chunk, more) = content_read(objects, limits, at);
            more == Ok::<bool, Error>(true) ==> {
                &&& chunk.len() > 0
                &&& after.len == counted(at.len, chunk.len() as int)
                &&& chunk == seq![10u8] || chunk.len() <= remaining(limits, at.len)
            }
        }),
        content_read(objects, limits, at).2 == Ok::<bool, Error>(false) ==> {
            let (after, chunk, _) = content_read(objects, limits, at);
            &&& chunk.len() == 0
            &&& after.len == at.len
            &&& content_read(objects, limits, after) == (after, chunk, Ok::<bool, Error>(false))
        },
    decreases
            at.streams.len(),
            if at.current is None {
                1int
            } else {
                0int
            },
{
    if at.current is None && at.streams.len() > 0 {
        let next = ContentModel { streams: at.streams.drop_first(), ..at };
        match chased(objects, at.streams[0], DEREF_LIMIT as nat) {
            Ok(Value::Stream(dict, content)) => match decoding_start(dict, content, limits, at.len) {
                Ok(decoding) => {
                    lemma_chunks_count(
                        objects,
                        limits,
                        ContentModel { current: Some(decoding), ..next },
                    );
                },
                Err(_) => {},
            },
            _ => {
                lemma_chunks_count(objects, limits, next);
            },
        }
    }
}

/// How many content streams are not read to their end.
pub open spec fn unfinished(at: ContentModel) -> nat {
    at.streams.len() + if at.current is Some {
        1nat
    } else {
        0nat
    }
}

/// With each chunk a content stream ends, or less may still be decoded.
pub proof fn lemma_chunks_end(objects: Map<ObjectId, Value>, limits: PageLimits, at: ContentModel)
    ensures
        ({
            let (after, chunk, more) = content_read(objects, limits, at);
            more == Ok::<bool, Error>(true) ==> {
                ||| unfinished(after) < unfinished(at)
                ||| unfinished(after) == unfinished(at) && remaining(limits, after.len) < remaining(
                    limits,
                    at.len,
                )
            }
        }),
    decreases
            at.streams.len(),
            if at.current is None {
                1int
            } else {
                0int
            },
{
    if at.current is None && at.streams.len() > 0 {
        let next = ContentModel { streams: at.streams.drop_first(), ..at };
        match chased(objects, at.streams[0], DEREF_LIMIT as nat) {
            Ok(Value::Stream(dict, content)) => match decoding_start(dict, content, limits, at.len) {
                Ok(decoding) => {
                    lemma_chunks_end(
                        objects,
                        limits,
                        ContentModel { current: Some(decoding), ..next },
                    );
                },
                Err(_) => {},
            },
            _ => {
                lemma_chunks_end(objects, limits, next);
            },
        }
    }
}

/// The rest of the content, how much has then been decoded, and what went wrong, if anything did.
pub open spec fn content_rest(
    objects: Map<ObjectId, Value>,
    limits: PageLimits,
    at: ContentModel,
) -> (Seq<u8>, usize, Option<Error>)
    decreases unfinished(at), remaining(limits, at.len),
    via content_rest_ends
{
    let (after, chunk, more) = content_read(objects, limits, at);
    match more {
        Ok(true) => {
            let (rest, len, failure) = content_rest(objects, limits, after);
            (chunk + rest, len, failure)
        },
        Ok(false) => (Seq::empty(), after.len, None),
        Err(error) => (Seq::empty(), after.len, Some(error)),
    }
}

#[via_fn]
proof fn content_rest_ends(objects: Map<ObjectId, Value>, limits: PageLimits, at: ContentModel) {
    lemma_chunks_end(objects, limits, at);
}

/// Whether `error` says that content decodes to more than `limits` allow.
pub open spec fn is_limit_error(error: Error, limits: PageLimits) -> bool {
    &&& error matches Error::Decompress(DecompressError::MemoryLimitExceeded { limit })
    &&& limit == limits.reported || limit == limits.max_stream_size
}

/// Content fails only by decoding to more than its limits allow: what cannot be decoded is read as
/// it is stored.
pub proof fn lemma_content_errors(
    objects: Map<ObjectId, Value>,
    limits: PageLimits,
    at: ContentModel,
)
    ensures
        content_rest(objects, limits, at).2 matches Some(error) ==> is_limit_error(error, limits),
    decreases unfinished(at), remaining(limits, at.len),
{
    lemma_chunk_errors(objects, limits, at);
    lemma_chunks_end(objects, limits, at);
    let (after, _, more) = content_read(objects, limits, at);
    if more == Ok::<bool, Error>(true) {
        lemma_content_errors(objects, limits, after);
    }
}

proof fn lemma_chunk_errors(objects: Map<ObjectId, Value>, limits: PageLimits, at: ContentModel)
    ensures
        content_read(objects, limits, at).2 matches Err(error) ==> is_limit_error(error, limits),
    decreases
            at.streams.len(),
            if at.current is None {
                1int
            } else {
                0int
            },
{
    if at.current is None && at.streams.len() > 0 {
        let next = ContentModel { streams: at.streams.drop_first(), ..at };
        match chased(objects, at.streams[0], DEREF_LIMIT as nat) {
            Ok(Value::Stream(dict, content)) => {
                lemma_decode_errors(dict, content, limits.max_stream_size);
                match decoding_start(dict, content, limits, at.len) {
                    Ok(decoding) => {
                        lemma_chunk_errors(
                            objects,
                            limits,
                            ContentModel { current: Some(decoding), ..next },
                        );
                    },
                    Err(_) => {},
                }
            },
            _ => {
                lemma_chunk_errors(objects, limits, next);
            },
        }
    }
}

impl Document {
    /// The content streams of page `page_id`, in order.
    pub fn get_page_contents(&self, page_id: ObjectId) -> (r: Vec<ObjectId>)
        ensures
            r@ == page_content_ids(self.stored(), page_id),
    {
        let mut streams: Vec<ObjectId> = Vec::new();
        let page = match self.get_object(page_id) {
            Ok(Object::Dictionary(page)) => page,
            _ => {
                return streams;
            },
        };
        let mut contents = match page.named("Contents") {
            Some(contents) => contents,
            None => {
                return streams;
            },
        };
        let ghost objects = self.stored();
        let mut left: usize = DEREF_LIMIT;
        loop
            invariant
                objects == self.stored(),
                streams@.len() == 0,
                left >= 1,
                content_ids(objects, contents@, left as nat) == page_content_ids(objects, page_id),
            decreases left,
        {
            match contents {
                Object::Reference(id) => match self.objects.get(*id) {
                    None => {
                        streams.push(*id);
                        assert(streams@ =~= seq![*id]);
                        return streams;
                    },
                    Some(object) => {
                        assert(objects[*id] == object@);
                        if let Object::Stream(_) = object {
                            streams.push(*id);
                            assert(streams@ =~= seq![*id]);
                            return streams;
                        }
                        if left == 1 {
                            return streams;
                        }
                        left -= 1;
                        contents = object;
                    },
                },
                Object::Array(items) => {
                    return references(items);
                },
                _ => {
                    return streams;
                },
            }
        }
    }
}

/// The references among `items`.
pub fn references(items: &Vec<Object>) -> (r: Vec<ObjectId>)
    ensures
        r@ == references_in(values(items@)),
{
    let ghost all = values(items@);
    let mut ids: Vec<ObjectId> = Vec::new();
    let mut i: usize = 0;
    while i < items.len()
        invariant
            all == values(items@),
            i <= items@.len(),
            ids@ == references_in(all.take(i as int)),
        decreases items@.len() - i,
    {
        assert(all.take(i + 1).drop_last() =~= all.take(i as int));
        assert(all.take(i + 1).last() == value(items@[i as int]));
        if let Object::Reference(id) = &items[i] {
            ids.push(*id);
        }
        i += 1;
    }
    assert(all.take(i as int) =~= all);
    ids
}

/// The content of a page: its content streams in order, each followed by a newline, decoded a
/// chunk at a time. `/FlateDecode` streams inflate as they are read; any other stream decodes
/// whole, within [`DecodeLimits::max_stream_size`], and one that cannot be decoded is read as it
/// is stored.
pub struct PageContent<'a> {
    document: &'a Document,
    streams: Vec<ObjectId>,
    /// How many of `streams` have been started.
    started: usize,
    current: Option<Decoding<'a>>,
    len: usize,
    limits: PageLimits,
}

enum Decoding<'a> {
    Inflating(Inflater<'a>),
    Stored { bytes: &'a [u8], position: usize },
    Decoded { bytes: Vec<u8>, position: usize },
}

impl<'a> Decoding<'a> {
    spec fn model(&self) -> DecodingModel {
        match self {
            Decoding::Inflating(inflater) => DecodingModel::Inflating(inflater@),
            Decoding::Stored { bytes, position } => DecodingModel::Decoded(
                bytes@.skip(*position as int),
            ),
            Decoding::Decoded { bytes, position } => DecodingModel::Decoded(
                bytes@.skip(*position as int),
            ),
        }
    }

    spec fn well_formed(&self) -> bool {
        match self {
            Decoding::Inflating(inflater) => inflater.well_formed(),
            Decoding::Stored { bytes, position } => *position <= bytes@.len(),
            Decoding::Decoded { bytes, position } => *position <= bytes@.len(),
        }
    }

    /// Appends up to `wanted` more bytes to `output`, and returns how many.
    fn read_into(&mut self, output: &mut Vec<u8>, wanted: usize) -> (r: usize)
        requires
            old(self).well_formed(),
        ensures
            final(self).well_formed(),
            ({
                let (after, bytes) = decoded_more(old(self).model(), wanted as nat);
                &&& final(self).model() == after
                &&& final(output)@ == old(output)@ + bytes
                &&& r == bytes.len()
            }),
            r <= wanted,
    {
        match self {
            Decoding::Inflating(inflater) => inflater.read_into(output, wanted),
            Decoding::Stored { bytes, position } => {
                let ghost rest = bytes@.skip(*position as int);
                let count = copy_chunk(*bytes, *position, wanted, output);
                *position = *position + count;
                assert(bytes@.skip(*position as int) =~= rest.skip(count as int));
                count
            },
            Decoding::Decoded { bytes, position } => {
                let ghost rest = bytes@.skip(*position as int);
                let count = copy_chunk(bytes.as_slice(), *position, wanted, output);
                *position = *position + count;
                assert(bytes@.skip(*position as int) =~= rest.skip(count as int));
                count
            },
        }
    }
}

/// Appends up to `wanted` bytes of `bytes` from `position` on to `output`, and returns how many.
fn copy_chunk(bytes: &[u8], position: usize, wanted: usize, output: &mut Vec<u8>) -> (r: usize)
    requires
        position <= bytes@.len(),
    ensures
        r == if bytes@.len() - position < wanted {
            bytes@.len() - position
        } else {
            wanted as int
        },
        position + r <= usize::MAX,
        final(output)@ == old(output)@ + bytes@.skip(position as int).take(r as int),
{
    let rest = bytes.len() - position;
    let count = if rest < wanted {
        rest
    } else {
        wanted
    };
    let chunk = slice_subrange(bytes, position, position + count);
    assert(chunk@ =~= bytes@.skip(position as int).take(count as int));
    let ghost before = output@;
    output.extend_from_slice(chunk);
    assert(output@ =~= before + chunk@);
    count
}

impl<'a> PageContent<'a> {
    pub closed spec fn document(&self) -> &'a Document {
        self.document
    }

    pub closed spec fn limits(&self) -> PageLimits {
        self.limits
    }

    pub closed spec fn well_formed(&self) -> bool {
        &&& self.started <= self.streams@.len()
        &&& self.current matches Some(decoding) ==> decoding.well_formed()
    }

    /// How far the content has been read.
    pub closed spec fn progress(&self) -> ContentModel {
        ContentModel {
            streams: self.streams@.skip(self.started as int),
            current: match self.current {
                Some(decoding) => Some(decoding.model()),
                None => None,
            },
            len: self.len,
        }
    }

    /// The content of page `page_id`, read on its own.
    pub fn new(document: &'a Document, page_id: ObjectId, limits: DecodeLimits) -> (r: Self)
        ensures
            r.well_formed(),
            r.document() == document,
            r.limits() == page_limits(limits, 0),
            r.progress() == (ContentModel {
                streams: page_content_ids(document.stored(), page_id),
                current: None,
                len: 0,
            }),
    {
        let streams = document.get_page_contents(page_id);
        Self::of_streams(document, streams, limits.page_limits(0), 0)
    }

    /// The content of `streams`, with `spent` bytes of the page's content decoded before it.
    pub fn of_streams(
        document: &'a Document,
        streams: Vec<ObjectId>,
        limits: PageLimits,
        spent: usize,
    ) -> (r: Self)
        ensures
            r.well_formed(),
            r.document() == document,
            r.limits() == limits,
            r.progress() == (ContentModel { streams: streams@, current: None, len: spent }),
    {
        assert(streams@.skip(0) =~= streams@);
        PageContent { document, streams, started: 0, current: None, len: spent, limits }
    }

    /// How many bytes have been read, as far as a `usize` counts, with those spent before.
    pub fn len(&self) -> (r: usize)
        ensures
            r == self.progress().len,
    {
        self.len
    }

    /// Appends the rest of the content to `output`, and returns what went wrong, if anything did.
    pub fn read_rest(&mut self, output: &mut Vec<u8>) -> (r: Option<Error>)
        requires
            old(self).well_formed(),
        ensures
            final(self).well_formed(),
            final(self).document() == old(self).document(),
            final(self).limits() == old(self).limits(),
            ({
                let (rest, len, failure) = content_rest(
                    old(self).document().stored(),
                    old(self).limits(),
                    old(self).progress(),
                );
                &&& final(output)@ == old(output)@ + rest
                &&& final(self).progress().len == len
                &&& r == failure
            }),
    {
        let ghost objects = self.document.stored();
        let ghost whole = content_rest(objects, self.limits, self.progress());
        assert(output@ + whole.0 =~= old(output)@ + whole.0);
        loop
            invariant
                self.well_formed(),
                self.document == old(self).document,
                self.limits == old(self).limits,
                objects == self.document.stored(),
                whole == content_rest(
                    old(self).document.stored(),
                    old(self).limits,
                    old(self).progress(),
                ),
                ({
                    let (rest, len, failure) = content_rest(objects, self.limits, self.progress());
                    &&& output@ + rest == old(output)@ + whole.0
                    &&& len == whole.1
                    &&& failure == whole.2
                }),
            decreases unfinished(self.progress()), remaining(self.limits, self.progress().len),
        {
            let ghost before = self.progress();
            let ghost so_far = output@;
            proof {
                lemma_chunks_end(objects, self.limits, before);
            }
            let mut chunk: Vec<u8> = Vec::new();
            match self.read_into(&mut chunk) {
                Ok(true) => {
                    output.extend_from_slice(chunk.as_slice());
                    proof {
                        let rest = content_rest(objects, self.limits, self.progress()).0;
                        assert(chunk@ =~= content_read(objects, self.limits, before).1);
                        assert(output@ =~= so_far + chunk@);
                        assert(output@ + rest =~= so_far + (chunk@ + rest));
                    }
                },
                Ok(false) => {
                    assert(output@ + Seq::<u8>::empty() =~= output@);
                    return None;
                },
                Err(error) => {
                    assert(output@ + Seq::<u8>::empty() =~= output@);
                    return Some(error);
                },
            }
        }
    }

    /// Appends the next chunk of content to `output`, and returns false once there is none.
    pub fn read_into(&mut self, output: &mut Vec<u8>) -> (r: Result<bool>)
        requires
            old(self).well_formed(),
        ensures
            final(self).well_formed(),
            final(self).document() == old(self).document(),
            final(self).limits() == old(self).limits(),
            ({
                let (after, chunk, more) = content_read(
                    old(self).document().stored(),
                    old(self).limits(),
                    old(self).progress(),
                );
                &&& final(self).progress() == after
                &&& final(output)@ == old(output)@ + chunk
                &&& r == more
                &&& more == Ok::<bool, Error>(true) ==> 1 <= chunk.len() <= CHUNK
            }),
    {
        let ghost objects = self.document.stored();
        let ghost expected = content_read(objects, self.limits, self.progress());
        while self.current.is_none()
            invariant
                self.well_formed(),
                self.document == old(self).document,
                self.limits == old(self).limits,
                objects == self.document.stored(),
                output@ == old(output)@,
                expected == content_read(
                    old(self).document.stored(),
                    old(self).limits,
                    old(self).progress(),
                ),
                expected == content_read(objects, self.limits, self.progress()),
            decreases
                    self.streams@.len() - self.started,
                    if self.current is None {
                        1int
                    } else {
                        0int
                    },
        {
            let ghost at = self.progress();
            if self.started == self.streams.len() {
                assert(output@ + Seq::<u8>::empty() =~= output@);
                return Ok(false);
            }
            let id = self.streams[self.started];
            assert(at.streams[0] == id);
            self.started = self.started + 1;
            assert(self.progress().streams =~= at.streams.drop_first());
            if let Ok(Object::Stream(stream)) = self.document.get_object(id) {
                match self.start(stream) {
                    Ok(decoding) => {
                        self.current = Some(decoding);
                    },
                    Err(error) => {
                        assert(output@ + Seq::<u8>::empty() =~= output@);
                        return Err(error);
                    },
                }
            }
        }
        let ghost at = self.progress();
        let left = self.remaining();
        // One byte past the budget tells that the page goes over it.
        let wanted = if left < CHUNK {
            left + 1
        } else {
            CHUNK
        };
        let ghost before = output@;
        let read = match &mut self.current {
            Some(decoding) => decoding.read_into(output, wanted),
            None => 0,
        };
        if read > left {
            return Err(self.page_limit_error());
        }
        self.count(read);
        if read == 0 {
            output.push(10u8);
            assert(output@ =~= before + seq![10u8]);
            self.count(1);
            self.current = None;
        }
        Ok(true)
    }

    fn count(&mut self, more: usize)
        ensures
            *final(self) == (PageContent { len: counted(old(self).len, more as int), ..*old(self) }),
    {
        self.len = self.len.saturating_add(more);
    }

    fn remaining(&self) -> (r: usize)
        ensures
            r == remaining(self.limits, self.len),
    {
        if self.len < self.limits.max_content_size {
            self.limits.max_content_size - self.len
        } else {
            0
        }
    }

    fn start(&self, stream: &'a Stream) -> (r: Result<Decoding<'a>>)
        ensures
            match r {
                Ok(decoding) => decoding.well_formed() && decoding_start(
                    stream.dict@,
                    stream.content@,
                    self.limits,
                    self.len,
                ) == Ok::<DecodingModel, Error>(decoding.model()),
                Err(error) => decoding_start(
                    stream.dict@,
                    stream.content@,
                    self.limits,
                    self.len,
                ) == Err::<DecodingModel, Error>(error),
            },
    {
        let content = stream.content.as_slice();
        if is_inflated_alone(&stream.dict) {
            return Ok(Decoding::Inflating(Inflater::new(content)));
        }
        assert(content@.skip(0) =~= content@);
        // Without a filter, the stored bytes are the content.
        if filters(&stream.dict).is_none() {
            return Ok(Decoding::Stored { bytes: content, position: 0 });
        }
        let left = self.remaining();
        let limit = if left < self.limits.max_stream_size {
            left
        } else {
            self.limits.max_stream_size
        };
        match decompressed_content_with_limit(&stream.dict, content, limit) {
            Ok(bytes) => {
                assert(bytes@.skip(0) =~= bytes@);
                Ok(Decoding::Decoded { bytes, position: 0 })
            },
            Err(Error::Decompress(DecompressError::MemoryLimitExceeded { limit: exceeded })) => {
                if limit == left {
                    Err(self.page_limit_error())
                } else {
                    Err(Error::Decompress(DecompressError::MemoryLimitExceeded { limit: exceeded }))
                }
            },
            Err(_) => Ok(Decoding::Stored { bytes: content, position: 0 }),
        }
    }

    fn page_limit_error(&self) -> (r: Error)
        ensures
            r == page_limit_exceeded(self.limits),
    {
        Error::Decompress(
            DecompressError::MemoryLimitExceeded { limit: self.limits.reported },
        )
    }
}

} // verus!
