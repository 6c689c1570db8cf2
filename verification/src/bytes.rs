//! Byte strings: comparison, and keys written as text.

use vstd::prelude::*;
use vstd::utf8::encode_utf8;

verus! {

/// The bytes of `name`.
pub open spec fn key(name: Seq<char>) -> Seq<u8> {
    encode_utf8(name)
}

/// Whether `a` comes before `b`, comparing bytes from the front.
pub open spec fn before(a: Seq<u8>, b: Seq<u8>) -> bool
    decreases a.len(),
{
    if b.len() == 0 {
        false
    } else if a.len() == 0 {
        true
    } else if a[0] != b[0] {
        a[0] < b[0]
    } else {
        before(a.drop_first(), b.drop_first())
    }
}

/// Whether `a` starts with `prefix`.
pub open spec fn starts_with(a: Seq<u8>, prefix: Seq<u8>) -> bool {
    prefix.len() <= a.len() && a.take(prefix.len() as int) == prefix
}

/// Whether `a` and `b` hold the same bytes.
pub fn same(a: &[u8], b: &[u8]) -> (r: bool)
    ensures
        r == (a@ == b@),
{
    if a.len() != b.len() {
        return false;
    }
    let mut i: usize = 0;
    while i < a.len()
        invariant
            a@.len() == b@.len(),
            i <= a@.len(),
            forall|j: int| 0 <= j < i ==> a@[j] == b@[j],
        decreases a@.len() - i,
    {
        if a[i] != b[i] {
            assert(a@[i as int] != b@[i as int]);
            return false;
        }
        i += 1;
    }
    assert(a@ =~= b@);
    true
}

/// Whether `a` spells `name`.
pub fn spells(a: &[u8], name: &str) -> (r: bool)
    ensures
        r == (a@ == key(name@)),
{
    same(a, name.as_bytes())
}

/// Whether `a` comes before `b`, comparing bytes from the front.
pub fn comes_before(a: &[u8], b: &[u8]) -> (r: bool)
    ensures
        r == before(a@, b@),
{
    let mut i: usize = 0;
    proof {
        assert(a@.skip(0) =~= a@);
        assert(b@.skip(0) =~= b@);
    }
    while i < a.len() && i < b.len()
        invariant
            i <= a@.len(),
            i <= b@.len(),
            before(a@, b@) == before(a@.skip(i as int), b@.skip(i as int)),
        decreases a@.len() - i,
    {
        proof {
            assert(a@.skip(i as int).drop_first() =~= a@.skip(i + 1));
            assert(b@.skip(i as int).drop_first() =~= b@.skip(i + 1));
        }
        if a[i] != b[i] {
            return a[i] < b[i];
        }
        i += 1;
    }
    i < b.len()
}

/// `a` copied into a vector of its own.
pub fn to_vec(a: &[u8]) -> (r: Vec<u8>)
    ensures
        r@ == a@,
{
    vstd::slice::slice_to_vec(a)
}

/// The rest of `a` after `prefix`, when `a` starts with it.
pub fn strip_prefix<'a>(a: &'a [u8], prefix: &[u8]) -> (r: Option<&'a [u8]>)
    ensures
        r is Some <==> starts_with(a@, prefix@),
        r matches Some(rest) ==> rest@ == a@.skip(prefix@.len() as int),
{
    if prefix.len() > a.len() {
        return None;
    }
    if !same(vstd::slice::slice_subrange(a, 0, prefix.len()), prefix) {
        return None;
    }
    let rest = vstd::slice::slice_subrange(a, prefix.len(), a.len());
    assert(a@.subrange(prefix@.len() as int, a@.len() as int) =~= a@.skip(prefix@.len() as int));
    Some(rest)
}

} // verus!
