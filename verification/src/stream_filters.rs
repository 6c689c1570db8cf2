//! The filters of a stream, and its content decoded whole.

use vstd::prelude::*;

use crate::bytes::{key, spells, to_vec};
use crate::error::{DecompressError, Error, Result};
use crate::filters::flate::{full_run, inflate_start, Inflater};
use crate::filters::png::{
    asks_for_predictor, decode_frame, has_predictor, layout_of, row_layout, unpredicted,
};
use crate::object::{name_of, named_entry, value, values, Dictionary, Entries, Object, Value};

verus! {

/// The names of an array, if every item is one.
pub open spec fn all_names(items: Seq<Value>) -> Option<Seq<Seq<u8>>>
    decreases items.len(),
{
    if items.len() == 0 {
        Some(Seq::empty())
    } else {
        match (all_names(items.drop_last()), name_of(items.last())) {
            (Some(head), Some(name)) => Some(head.push(name)),
            _ => None,
        }
    }
}

/// The filters of a stream, in the order in which they are undone, if `/Filter` lists any.
pub open spec fn filter_names(dict: Entries) -> Option<Seq<Seq<u8>>> {
    match named_entry(dict, "Filter"@) {
        Some(Value::Name(name)) => Some(seq![name]),
        Some(Value::Array(items)) => all_names(items),
        _ => None,
    }
}

/// Whether a stream's only filter is `/FlateDecode`, without parameters.
pub open spec fn inflates_alone(dict: Entries) -> bool {
    filter_names(dict) == Some(seq![key("FlateDecode"@)]) && named_entry(dict, "DecodeParms"@)
        is None
}

/// What content inflates to, or that it is more than `limit` bytes.
pub open spec fn inflated_within(content: Seq<u8>, limit: usize) -> std::result::Result<
    Seq<u8>,
    Error,
> {
    let most: nat = if limit < usize::MAX {
        (limit + 1) as nat
    } else {
        limit as nat
    };
    let plain = full_run(inflate_start(content), most).1;
    if plain.len() > limit {
        Err(Error::Decompress(DecompressError::MemoryLimitExceeded { limit }))
    } else {
        Ok(plain)
    }
}

/// What inflated content stands for, with `parameters` for the filter: a PNG predictor is undone.
pub open spec fn with_parameters(parameters: Option<Entries>, plain: Seq<u8>) -> std::result::Result<
    Seq<u8>,
    Error,
> {
    match parameters {
        Some(parameters) => if has_predictor(parameters) {
            match unpredicted(plain, row_layout(parameters)) {
                Some(rows) if row_layout(parameters).row_len <= usize::MAX => Ok(rows),
                _ => Err(Error::Decompress(DecompressError::UnsupportedFilter)),
            }
        } else {
            Ok(plain)
        },
        None => Ok(plain),
    }
}

/// What content decodes to once `filters` are undone, each giving no more than `limit` bytes.
pub open spec fn undone(
    filters: Seq<Seq<u8>>,
    parameters: Option<Entries>,
    content: Seq<u8>,
    limit: usize,
) -> std::result::Result<Seq<u8>, Error>
    decreases filters.len(),
{
    if filters.len() == 0 {
        Ok(content)
    } else if filters[0] == key("FlateDecode"@) {
        match inflated_within(content, limit) {
            Ok(plain) => match with_parameters(parameters, plain) {
                Ok(plain) => undone(filters.drop_first(), parameters, plain, limit),
                Err(error) => Err(error),
            },
            Err(error) => Err(error),
        }
    } else {
        Err(Error::Decompress(DecompressError::UnsupportedFilter))
    }
}

/// What a stream with filters decodes to. Only `/FlateDecode` is undone here, with parameters that
/// are a dictionary.
pub open spec fn decoded_within(dict: Entries, content: Seq<u8>, limit: usize) -> std::result::Result<
    Seq<u8>,
    Error,
> {
    match (filter_names(dict), named_entry(dict, "DecodeParms"@)) {
        (Some(filters), None) => undone(filters, None, content, limit),
        (Some(filters), Some(Value::Dictionary(parameters))) => undone(
            filters,
            Some(parameters),
            content,
            limit,
        ),
        _ => Err(Error::Decompress(DecompressError::UnsupportedFilter)),
    }
}

/// What the content of a stream stands for: itself without a filter, and else what it decodes to.
pub open spec fn plain_within(dict: Entries, content: Seq<u8>, limit: usize) -> std::result::Result<
    Seq<u8>,
    Error,
> {
    if named_entry(dict, "Filter"@) is None {
        Ok(content)
    } else {
        decoded_within(dict, content, limit)
    }
}

/// Whether `error` says that content cannot be decoded, or not within `limit`.
pub open spec fn is_decode_error(error: Error, limit: usize) -> bool {
    match error {
        Error::Decompress(DecompressError::MemoryLimitExceeded { limit: exceeded }) => exceeded == limit,
        Error::Decompress(_) => true,
        _ => false,
    }
}

/// Content that cannot be decoded says so, and nothing else goes wrong with it.
pub proof fn lemma_decode_errors(dict: Entries, content: Seq<u8>, limit: usize)
    ensures
        plain_within(dict, content, limit) matches Err(error) ==> is_decode_error(error, limit),
        decoded_within(dict, content, limit) matches Err(error) ==> is_decode_error(error, limit),
{
    if let Some(filters) = filter_names(dict) {
        lemma_undo_errors(filters, None, content, limit);
        if let Some(Value::Dictionary(parameters)) = named_entry(dict, "DecodeParms"@) {
            lemma_undo_errors(filters, Some(parameters), content, limit);
        }
    }
}

proof fn lemma_undo_errors(
    filters: Seq<Seq<u8>>,
    parameters: Option<Entries>,
    content: Seq<u8>,
    limit: usize,
)
    ensures
        undone(filters, parameters, content, limit) matches Err(error) ==> is_decode_error(
            error,
            limit,
        ),
    decreases filters.len(),
{
    if filters.len() > 0 && filters[0] == key("FlateDecode"@) {
        if let Ok(inflated) = inflated_within(content, limit) {
            if let Ok(plain) = with_parameters(parameters, inflated) {
                lemma_undo_errors(filters.drop_first(), parameters, plain, limit);
            }
        }
    }
}

proof fn lemma_not_all_names(items: Seq<Value>, at: int)
    requires
        0 <= at < items.len(),
        name_of(items[at]) is None,
    ensures
        all_names(items) is None,
    decreases items.len(),
{
    if at < items.len() - 1 {
        lemma_not_all_names(items.drop_last(), at);
    }
}

/// The bytes of each name.
pub open spec fn name_views(names: Seq<Vec<u8>>) -> Seq<Seq<u8>> {
    Seq::new(names.len(), |i: int| names[i]@)
}

/// The filters of a stream with the dictionary `dict`, in the order in which they are undone.
pub fn filters(dict: &Dictionary) -> (r: Option<Vec<Vec<u8>>>)
    ensures
        match r {
            Some(names) => filter_names(dict@) == Some(name_views(names@)),
            None => filter_names(dict@) is None,
        },
{
    let mut names: Vec<Vec<u8>> = Vec::new();
    match dict.named("Filter") {
        Some(Object::Name(name)) => {
            names.push(to_vec(name.as_slice()));
            assert(name_views(names@) =~= seq![name@]);
            Some(names)
        },
        Some(Object::Array(items)) => {
            let ghost all = values(items@);
            assert(name_views(names@) =~= Seq::<Seq<u8>>::empty());
            while names.len() < items.len()
                invariant
                    all == values(items@),
                    filter_names(dict@) == all_names(all),
                    names@.len() <= items@.len(),
                    all_names(all.take(names@.len() as int)) == Some(name_views(names@)),
                decreases items@.len() - names@.len(),
            {
                let i = names.len();
                assert(all.take(i + 1).drop_last() =~= all.take(i as int));
                assert(all.take(i + 1).last() == value(items@[i as int]));
                let ghost before = name_views(names@);
                match &items[i] {
                    Object::Name(name) => {
                        names.push(to_vec(name.as_slice()));
                        assert(name_views(names@) =~= before.push(name@));
                    },
                    _ => {
                        proof {
                            lemma_not_all_names(all, i as int);
                        }
                        return None;
                    },
                }
            }
            assert(all.take(names@.len() as int) =~= all);
            Some(names)
        },
        _ => None,
    }
}

/// Whether a stream's only filter is `/FlateDecode`, without parameters, so that it can be
/// inflated as it is read.
pub fn is_inflated_alone(dict: &Dictionary) -> (r: bool)
    ensures
        r == inflates_alone(dict@),
{
    match filters(dict) {
        Some(names) => {
            assert(name_views(names@).len() == names@.len());
            assert(seq![key("FlateDecode"@)].len() == 1);
            if names.len() != 1 || dict.named("DecodeParms").is_some() {
                return false;
            }
            let alone = spells(names[0].as_slice(), "FlateDecode");
            proof {
                let views = name_views(names@);
                assert(views[0] == names@[0]@);
                if alone {
                    assert(views =~= seq![key("FlateDecode"@)]);
                }
            }
            alone
        },
        None => false,
    }
}

/// `content` inflated, or an error when that is more than `limit` bytes.
pub fn inflate_within(content: &[u8], limit: usize) -> (r: Result<Vec<u8>>)
    ensures
        match r {
            Ok(plain) => inflated_within(content@, limit) == Ok::<Seq<u8>, Error>(plain@),
            Err(error) => inflated_within(content@, limit) == Err::<Seq<u8>, Error>(error),
        },
{
    let most = if limit < usize::MAX {
        limit + 1
    } else {
        limit
    };
    let mut inflater = Inflater::new(content);
    let mut plain: Vec<u8> = Vec::new();
    inflater.read_into(&mut plain, most);
    assert(plain@ =~= full_run(inflate_start(content@), most as nat).1);
    if plain.len() > limit {
        Err(Error::Decompress(DecompressError::MemoryLimitExceeded { limit }))
    } else {
        Ok(plain)
    }
}

/// Undoes what `parameters` say was done to `plain` before it was compressed.
fn undo_parameters(parameters: Option<&Dictionary>, plain: Vec<u8>) -> (r: Result<Vec<u8>>)
    ensures
        ({
            let expected = with_parameters(
                match parameters {
                    Some(parameters) => Some(parameters@),
                    None => None,
                },
                plain@,
            );
            match r {
                Ok(undone) => expected == Ok::<Seq<u8>, Error>(undone@),
                Err(error) => expected == Err::<Seq<u8>, Error>(error),
            }
        }),
{
    let parameters = match parameters {
        Some(parameters) => parameters,
        None => {
            return Ok(plain);
        },
    };
    if !asks_for_predictor(parameters) {
        return Ok(plain);
    }
    match layout_of(parameters) {
        Some((row_len, pixel_len)) => match decode_frame(plain.as_slice(), row_len, pixel_len) {
            Some(rows) => Ok(rows),
            None => Err(Error::Decompress(DecompressError::UnsupportedFilter)),
        },
        None => Err(Error::Decompress(DecompressError::UnsupportedFilter)),
    }
}

/// What the content of a stream with the dictionary `dict` decodes to, or an error when one of its
/// filters gives more than `limit` bytes or cannot be undone.
pub fn decompressed_content_with_limit(dict: &Dictionary, content: &[u8], limit: usize) -> (r: Result<
    Vec<u8>,
>)
    ensures
        match r {
            Ok(plain) => decoded_within(dict@, content@, limit) == Ok::<Seq<u8>, Error>(plain@),
            Err(error) => decoded_within(dict@, content@, limit) == Err::<Seq<u8>, Error>(error),
        },
{
    let names = match filters(dict) {
        Some(names) => names,
        None => {
            return Err(Error::Decompress(DecompressError::UnsupportedFilter));
        },
    };
    let parameters = match dict.named("DecodeParms") {
        None => None,
        Some(Object::Dictionary(parameters)) => Some(parameters),
        Some(_) => {
            return Err(Error::Decompress(DecompressError::UnsupportedFilter));
        },
    };
    let ghost all = name_views(names@);
    let ghost given = match parameters {
        Some(parameters) => Some(parameters@),
        None => None,
    };
    let mut plain = to_vec(content);
    let mut i: usize = 0;
    assert(all.skip(0) =~= all);
    while i < names.len()
        invariant
            i <= names@.len(),
            all == name_views(names@),
            given == match parameters {
                Some(parameters) => Some(parameters@),
                None => None,
            },
            decoded_within(dict@, content@, limit) == undone(all, given, content@, limit),
            undone(all, given, content@, limit) == undone(
                all.skip(i as int),
                given,
                plain@,
                limit,
            ),
        decreases names@.len() - i,
    {
        assert(all.skip(i as int)[0] == names@[i as int]@);
        assert(all.skip(i as int).drop_first() =~= all.skip(i + 1));
        if !spells(names[i].as_slice(), "FlateDecode") {
            return Err(Error::Decompress(DecompressError::UnsupportedFilter));
        }
        let inflated = match inflate_within(plain.as_slice(), limit) {
            Ok(inflated) => inflated,
            Err(error) => {
                return Err(error);
            },
        };
        match undo_parameters(parameters, inflated) {
            Ok(undone) => {
                plain = undone;
            },
            Err(error) => {
                return Err(error);
            },
        }
        i += 1;
    }
    Ok(plain)
}

/// What the content of a stream with the dictionary `dict` stands for: itself without a filter, and
/// else what it decodes to.
pub fn plain_content(dict: &Dictionary, content: &[u8], limit: usize) -> (r: Result<Vec<u8>>)
    ensures
        match r {
            Ok(plain) => plain_within(dict@, content@, limit) == Ok::<Seq<u8>, Error>(plain@),
            Err(error) => plain_within(dict@, content@, limit) == Err::<Seq<u8>, Error>(error),
        },
{
    if dict.named("Filter").is_none() {
        Ok(to_vec(content))
    } else {
        decompressed_content_with_limit(dict, content, limit)
    }
}

} // verus!
