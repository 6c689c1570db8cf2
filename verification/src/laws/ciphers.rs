//! The ciphers, as they are published.

use vstd::prelude::*;

use crate::bytes::key as key_bytes;
use crate::encryption::cbc_mode::{aes128_block, aes256_block, block_around, cbc_decrypted, chained};
use crate::encryption::crypt_filters::{
    Aes128CryptFilter, Aes256CryptFilter, CryptFilter, IdentityCryptFilter, Rc4CryptFilter,
};
use crate::encryption::pkcs5::unpadded;
use crate::encryption::rc4::{
    advanced, crypted, given, keystream_start, next_state, schedule, sum, swapped, KeyState,
};
use crate::encryption::stream_decryption::{decrypted_in_pieces, lemma_aes_as_whole, start_error};
use crate::error::DecryptionError;
use crate::laws::lemma_keys_differ;

verus! {

/// Whether `after` is `before` with the bytes at `i` and `j` exchanged.
pub open spec fn exchanged(before: Seq<u8>, after: Seq<u8>, i: int, j: int) -> bool {
    &&& before.len() == 256
    &&& after.len() == 256
    &&& after[i] == before[j]
    &&& after[j] == before[i]
    &&& forall|k: int| 0 <= k < 256 && k != i && k != j ==> #[trigger] after[k] == before[k]
}

/// Whether `states` and `places` are the rounds of RC4's key schedule for `key`: from the bytes in
/// order, round `r` moves its place on by the state's byte `r` and by the key's byte `r`, counted around
/// the whole key, and exchanges what is there.
pub open spec fn are_rounds(key: Seq<u8>, states: Seq<Seq<u8>>, places: Seq<int>) -> bool {
    &&& states.len() == 257
    &&& places.len() == 257
    &&& states[0].len() == 256
    &&& forall|k: int| 0 <= k < 256 ==> #[trigger] states[0][k] == k
    &&& places[0] == 0
    &&& forall|r: int|
        0 <= r < 256 ==> #[trigger] places[r + 1] == (places[r] + states[r][r] + key[r
            % key.len() as int]) % 256
    &&& forall|r: int|
        0 <= r < 256 ==> exchanged(states[r], #[trigger] states[r + 1], r, places[r + 1])
}

/// Whether `bytes` are what RC4 gives from the state `states[0]` on: byte `n` counts on to place `n + 1`,
/// moves the other place on by what is there, exchanges the two, and gives the byte at their sum.
pub open spec fn are_given(states: Seq<Seq<u8>>, places: Seq<int>, bytes: Seq<u8>) -> bool {
    &&& states.len() == bytes.len() + 1
    &&& places.len() == bytes.len() + 1
    &&& places[0] == 0
    &&& forall|n: int|
        0 <= n < bytes.len() ==> #[trigger] places[n + 1] == (places[n] + states[n][(n + 1) % 256])
            % 256
    &&& forall|n: int|
        0 <= n < bytes.len() ==> exchanged(
            states[n],
            #[trigger] states[n + 1],
            (n + 1) % 256,
            places[n + 1],
        )
    &&& forall|n: int|
        0 <= n < bytes.len() ==> #[trigger] bytes[n] == states[n + 1][(states[n + 1][(n + 1) % 256]
            + states[n + 1][places[n + 1]]) % 256]
}

/// Whether `output` is RC4 of `input` under `key`.
pub open spec fn is_rc4(key: Seq<u8>, input: Seq<u8>, output: Seq<u8>) -> bool {
    exists|
        rounds: Seq<Seq<u8>>,
        round_places: Seq<int>,
        states: Seq<Seq<u8>>,
        places: Seq<int>,
        bytes: Seq<u8>,
    |
        #![trigger are_rounds(key, rounds, round_places), are_given(states, places, bytes)]
        {
            &&& are_rounds(key, rounds, round_places)
            &&& are_given(states, places, bytes)
            &&& states[0] == rounds[256]
            &&& bytes.len() == input.len()
            &&& output.len() == input.len()
            &&& forall|n: int|
                0 <= n < input.len() ==> #[trigger] output[n] == input[n] ^ bytes[n]
        }
}

proof fn lemma_swapped(state: Seq<u8>, i: u8, j: u8)
    requires
        state.len() == 256,
    ensures
        exchanged(state, swapped(state, i, j), i as int, j as int),
{
}

proof fn lemma_schedule_len(key: Seq<u8>, rounds: nat)
    requires
        rounds <= 256,
    ensures
        schedule(key, rounds).0.len() == 256,
    decreases rounds,
{
    if rounds > 0 {
        lemma_schedule_len(key, (rounds - 1) as nat);
    }
}

proof fn lemma_rounds(key: Seq<u8>) -> (rounds: (Seq<Seq<u8>>, Seq<int>))
    requires
        1 <= key.len(),
    ensures
        are_rounds(key, rounds.0, rounds.1),
        rounds.0[256] == keystream_start(key).state,
        keystream_start(key).i == 0,
        keystream_start(key).j == 0,
{
    let states = Seq::new(257, |r: int| schedule(key, r as nat).0);
    let places = Seq::new(257, |r: int| schedule(key, r as nat).1 as int);
    assert forall|r: int| 0 <= r < 256 implies #[trigger] places[r + 1] == (places[r]
        + states[r][r] + key[r % key.len() as int]) % 256 && exchanged(
        states[r],
        states[r + 1],
        r,
        places[r + 1],
    ) by {
        lemma_schedule_len(key, r as nat);
        let (state, j) = schedule(key, r as nat);
        let next = schedule(key, (r + 1) as nat).1;
        lemma_swapped(state, r as u8, next);
        assert(states[r + 1] == swapped(state, r as u8, next));
    }
    assert forall|r: int| 0 <= r < 256 implies exchanged(
        states[r],
        #[trigger] states[r + 1],
        r,
        places[r + 1],
    ) by {
        assert(places[r + 1] == places[r + 1]);
    }
    (states, places)
}

proof fn lemma_advanced_len(at: KeyState, n: nat)
    requires
        at.state.len() == 256,
        at.i == 0,
    ensures
        advanced(at, n).state.len() == 256,
        advanced(at, n).i == n % 256,
    decreases n,
{
    if n > 0 {
        lemma_advanced_len(at, (n - 1) as nat);
    }
}

proof fn lemma_given(at: KeyState, count: nat) -> (given_by: (Seq<Seq<u8>>, Seq<int>, Seq<u8>))
    requires
        at.state.len() == 256,
        at.i == 0,
        at.j == 0,
    ensures
        are_given(given_by.0, given_by.1, given_by.2),
        given_by.0[0] == at.state,
        given_by.2.len() == count,
        forall|n: int|
            0 <= n < count ==> #[trigger] given_by.2[n] == given(advanced(at, (n + 1) as nat)),
{
    let states = Seq::new(count + 1, |n: int| advanced(at, n as nat).state);
    let places = Seq::new(count + 1, |n: int| advanced(at, n as nat).j as int);
    let bytes = Seq::new(count, |n: int| given(advanced(at, (n + 1) as nat)));
    assert forall|n: int| 0 <= n < count implies #[trigger] places[n + 1] == (places[n]
        + states[n][(n + 1) % 256]) % 256 && exchanged(
        states[n],
        states[n + 1],
        (n + 1) % 256,
        places[n + 1],
    ) && bytes[n] == states[n + 1][(states[n + 1][(n + 1) % 256] + states[n + 1][places[n + 1]])
        % 256] by {
        lemma_advanced_len(at, n as nat);
        lemma_advanced_len(at, (n + 1) as nat);
        let before = advanced(at, n as nat);
        let after = advanced(at, (n + 1) as nat);
        assert(after == next_state(before));
        lemma_swapped(before.state, after.i, after.j);
    }
    assert forall|n: int| 0 <= n < count implies exchanged(
        states[n],
        #[trigger] states[n + 1],
        (n + 1) % 256,
        places[n + 1],
    ) by {
        assert(places[n + 1] == places[n + 1]);
    }
    assert forall|n: int| 0 <= n < count implies #[trigger] bytes[n] == states[n + 1][(states[n
        + 1][(n + 1) % 256] + states[n + 1][places[n + 1]]) % 256] by {
        assert(places[n + 1] == places[n + 1]);
    }
    (states, places, bytes)
}

/// Decryption with the method `V2` is RC4, whole or as it is read, for every key that RC4 takes: each
/// byte of the key counts.
pub proof fn lemma_v2_is_rc4(key: Seq<u8>, ciphertext: Seq<u8>)
    requires
        1 <= key.len() <= 256,
    ensures
        Rc4CryptFilter.decrypted(key, ciphertext) matches Ok(plaintext) && is_rc4(
            key,
            ciphertext,
            plaintext,
        ),
        decrypted_in_pieces(Rc4CryptFilter, key, ciphertext) == Rc4CryptFilter.decrypted(
            key,
            ciphertext,
        ),
{
    let at = keystream_start(key);
    let output = crypted(at, ciphertext);
    let (rounds, round_places) = lemma_rounds(key);
    assert(at.state.len() == 256) by {
        lemma_schedule_len(key, 256);
    }
    let (states, places, bytes) = lemma_given(at, ciphertext.len());
    assert(are_rounds(key, rounds, round_places) && are_given(states, places, bytes));
    assert(is_rc4(key, ciphertext, output));
    lemma_methods_differ();
    assert(output + Seq::<u8>::empty() =~= output);
}

/// There is one RC4 of an input under a key.
pub proof fn lemma_rc4_is_one(key: Seq<u8>, input: Seq<u8>, a: Seq<u8>, b: Seq<u8>)
    requires
        is_rc4(key, input, a),
        is_rc4(key, input, b),
    ensures
        a == b,
{
    let (ra, rpa, sa, pa, ba) = choose|
        rounds: Seq<Seq<u8>>,
        round_places: Seq<int>,
        states: Seq<Seq<u8>>,
        places: Seq<int>,
        bytes: Seq<u8>,
    |
        #![trigger are_rounds(key, rounds, round_places), are_given(states, places, bytes)]
        {
            &&& are_rounds(key, rounds, round_places)
            &&& are_given(states, places, bytes)
            &&& states[0] == rounds[256]
            &&& bytes.len() == input.len()
            &&& a.len() == input.len()
            &&& forall|n: int| 0 <= n < input.len() ==> #[trigger] a[n] == input[n] ^ bytes[n]
        };
    let (rb, rpb, sb, pb, bb) = choose|
        rounds: Seq<Seq<u8>>,
        round_places: Seq<int>,
        states: Seq<Seq<u8>>,
        places: Seq<int>,
        bytes: Seq<u8>,
    |
        #![trigger are_rounds(key, rounds, round_places), are_given(states, places, bytes)]
        {
            &&& are_rounds(key, rounds, round_places)
            &&& are_given(states, places, bytes)
            &&& states[0] == rounds[256]
            &&& bytes.len() == input.len()
            &&& b.len() == input.len()
            &&& forall|n: int| 0 <= n < input.len() ==> #[trigger] b[n] == input[n] ^ bytes[n]
        };
    lemma_same_rounds(key, ra, rpa, rb, rpb, 256);
    assert forall|n: int| 0 <= n < input.len() implies a[n] == b[n] by {
        lemma_same_given(sa, pa, ba, sb, pb, bb, n + 1);
        assert(ba[n] == bb[n]);
    }
    assert(a =~= b);
}

proof fn lemma_same_rounds(
    key: Seq<u8>,
    a: Seq<Seq<u8>>,
    pa: Seq<int>,
    b: Seq<Seq<u8>>,
    pb: Seq<int>,
    r: int,
)
    requires
        are_rounds(key, a, pa),
        are_rounds(key, b, pb),
        0 <= r <= 256,
    ensures
        a[r] == b[r],
        pa[r] == pb[r],
    decreases r,
{
    if r > 0 {
        lemma_same_rounds(key, a, pa, b, pb, r - 1);
        assert(pa[r - 1 + 1] == pb[r - 1 + 1]);
        assert(exchanged(a[r - 1], a[r - 1 + 1], r - 1, pa[r]));
        assert(exchanged(b[r - 1], b[r - 1 + 1], r - 1, pb[r]));
    }
    assert(a[r] =~= b[r]) by {
        if r == 0 {
            assert forall|k: int| 0 <= k < 256 implies a[0][k] == b[0][k] by {}
        }
    }
}

proof fn lemma_same_given(
    a: Seq<Seq<u8>>,
    pa: Seq<int>,
    ba: Seq<u8>,
    b: Seq<Seq<u8>>,
    pb: Seq<int>,
    bb: Seq<u8>,
    n: int,
)
    requires
        are_given(a, pa, ba),
        are_given(b, pb, bb),
        ba.len() == bb.len(),
        a[0] == b[0],
        0 <= n <= ba.len(),
    ensures
        a[n] == b[n],
        pa[n] == pb[n],
    decreases n,
{
    if n > 0 {
        lemma_same_given(a, pa, ba, b, pb, bb, n - 1);
        assert(pa[n - 1 + 1] == pb[n - 1 + 1]);
        assert(exchanged(a[n - 1], a[n - 1 + 1], (n - 1 + 1) % 256, pa[n]));
        assert(exchanged(b[n - 1], b[n - 1 + 1], (n - 1 + 1) % 256, pb[n]));
        assert(a[n] =~= b[n]);
    }
}

/// Keys that differ in a byte move to different places in the round of that byte.
pub proof fn lemma_every_key_byte_counts(a: Seq<u8>, b: Seq<u8>, p: nat)
    requires
        a.len() == b.len() <= 256,
        p < a.len(),
        a.take(p as int) == b.take(p as int),
        a[p as int] != b[p as int],
    ensures
        schedule(a, p) == schedule(b, p),
        schedule(a, p + 1).1 != schedule(b, p + 1).1,
{
    lemma_same_front(a, b, p, p);
    assert(p as int % a.len() as int == p) by (nonlinear_arith)
        requires
            p < a.len(),
    ;
    let (state, j) = schedule(a, p);
    let moved = sum(j, state[p as int]);
    lemma_schedule_step(a, p);
    lemma_schedule_step(b, p);
    lemma_sums_differ(moved, a[p as int], b[p as int]);
}

proof fn lemma_schedule_step(key: Seq<u8>, p: nat)
    ensures
        schedule(key, p + 1).1 == sum(
            sum(schedule(key, p).1, schedule(key, p).0[p as int]),
            key[p as int % key.len() as int],
        ),
{
}

proof fn lemma_sums_differ(to: u8, a: u8, b: u8)
    requires
        a != b,
    ensures
        sum(to, a) != sum(to, b),
{
}

proof fn lemma_same_front(a: Seq<u8>, b: Seq<u8>, p: nat, rounds: nat)
    requires
        a.len() == b.len(),
        p < a.len(),
        a.take(p as int) == b.take(p as int),
        rounds <= p,
    ensures
        schedule(a, rounds) == schedule(b, rounds),
    decreases rounds,
{
    if rounds > 0 {
        lemma_same_front(a, b, p, (rounds - 1) as nat);
        let i = rounds - 1;
        assert(i % a.len() as int == i) by (nonlinear_arith)
            requires
                0 <= i < a.len(),
        ;
        assert(a.take(p as int)[i] == a[i]);
        assert(b.take(p as int)[i] == b[i]);
    }
}

/// A key sets up what it sets up written out, again and again, to 256 bytes.
pub proof fn lemma_key_goes_around(key: Seq<u8>, rounds: nat)
    requires
        1 <= key.len() <= 256,
        rounds <= 256,
    ensures
        schedule(key, rounds) == schedule(
            Seq::new(256, |k: int| key[k % key.len() as int]),
            rounds,
        ),
    decreases rounds,
{
    if rounds > 0 {
        lemma_key_goes_around(key, (rounds - 1) as nat);
        let i = rounds - 1;
        let written = Seq::new(256, |k: int| key[k % key.len() as int]);
        assert(i % 256 == i);
        assert(0 <= i % key.len() as int) by (nonlinear_arith)
            requires
                0 <= i,
                0 < key.len(),
        ;
        assert(written[i % 256] == key[i % key.len() as int]);
    }
}

proof fn lemma_methods_differ()
    ensures
        key_bytes("V2"@) != key_bytes("Identity"@),
        key_bytes("AESV2"@) != key_bytes("Identity"@),
        key_bytes("AESV2"@) != key_bytes("V2"@),
        key_bytes("AESV3"@) != key_bytes("Identity"@),
        key_bytes("AESV3"@) != key_bytes("V2"@),
{
    reveal_strlit("V2");
    reveal_strlit("Identity");
    reveal_strlit("AESV2");
    reveal_strlit("AESV3");
    lemma_keys_differ("V2"@, "Identity"@);
    lemma_keys_differ("AESV2"@, "Identity"@);
    lemma_keys_differ("AESV2"@, "V2"@);
    lemma_keys_differ("AESV3"@, "Identity"@);
    lemma_keys_differ("AESV3"@, "V2"@);
}

/// Content that is not encrypted is left as it is.
pub proof fn lemma_identity_leaves_content(key: Seq<u8>, content: Seq<u8>)
    ensures
        IdentityCryptFilter.decrypted(key, content) == Ok::<Seq<u8>, DecryptionError>(content),
        decrypted_in_pieces(IdentityCryptFilter, key, content) == Ok::<Seq<u8>, DecryptionError>(
            content,
        ),
{
    assert(content + Seq::<u8>::empty() =~= content);
}

/// `text` with padding to whole blocks: as many bytes as are missing, each of them that number, and a
/// whole block where none is.
pub open spec fn with_padding(text: Seq<u8>) -> Seq<u8> {
    let missing = 16 - text.len() % 16;
    text + Seq::new(missing as nat, |i: int| missing as u8)
}

/// Whether `ciphertext` is `text`, padded, in CBC mode: an initialization vector, and as many blocks as
/// the padded text has, each of which a block cipher `block` decrypts to the block of the text combined
/// with the block of the ciphertext before it.
pub open spec fn is_cbc(
    block: spec_fn(Seq<u8>) -> Seq<u8>,
    text: Seq<u8>,
    ciphertext: Seq<u8>,
) -> bool {
    let padded = with_padding(text);
    &&& ciphertext.len() == padded.len() + 16
    &&& forall|k: int, m: int|
        0 <= k < padded.len() / 16 && 0 <= m < 16 ==> #[trigger] padded[16 * k + m] == (block(
            ciphertext.subrange(16 * k + 16, 16 * k + 32),
        )[m] ^ ciphertext[16 * k + m])
}

proof fn lemma_cbc_text(
    key: Seq<u8>,
    block: spec_fn(Seq<u8>) -> Seq<u8>,
    text: Seq<u8>,
    ciphertext: Seq<u8>,
)
    requires
        is_cbc(block, text, ciphertext),
        forall|b: Seq<u8>| #[trigger] block(b) == if key.len() == 16 {
            aes128_block(key, b)
        } else {
            aes256_block(key, b)
        },
    ensures
        cbc_decrypted(key, ciphertext.take(16), ciphertext.skip(16)) == with_padding(text),
{
    let padded = with_padding(text);
    let iv = ciphertext.take(16);
    let data = ciphertext.skip(16);
    assert forall|n: int| 0 <= n < padded.len() implies cbc_decrypted(key, iv, data)[n]
        == padded[n] by {
        let k = n / 16;
        let m = n % 16;
        assert(n == 16 * k + m);
        assert(padded.len() % 16 == 0);
        assert(padded[16 * k + m] == (block(ciphertext.subrange(16 * k + 16, 16 * k + 32))[m]
            ^ ciphertext[16 * k + m]));
        assert(block_around(data, n) =~= ciphertext.subrange(16 * k + 16, 16 * k + 32));
        assert(chained(iv, data, n) == ciphertext[n]);
    }
    assert(cbc_decrypted(key, iv, data) =~= padded);
}

/// Padding comes off again.
pub proof fn lemma_padding_comes_off(text: Seq<u8>)
    ensures
        ({
            let padded = with_padding(text);
            let last = padded.len() - 16;
            &&& padded.len() % 16 == 0
            &&& padded.len() >= 16
            &&& unpadded(padded.skip(last)) matches Some(rest) && padded.take(last) + rest == text
        }),
{
    let padded = with_padding(text);
    let last = padded.len() - 16;
    let missing = 16 - text.len() % 16;
    let block = padded.skip(last);
    assert(block.last() == missing as u8);
    assert forall|i: int| 16 - missing <= i < 16 implies #[trigger] block[i] == missing as u8 by {
        assert(block[i] == padded[last + i]);
    }
    assert(padded.take(last) + block.take(16 - missing) =~= text);
}

/// What is encrypted with AES in CBC mode, under a key of 128 bits with the method `AESV2` or of 256 bits
/// with `AESV3`, is what it was, decrypted whole or as it is read.
pub proof fn lemma_aes_text_comes_back(key: Seq<u8>, text: Seq<u8>, ciphertext: Seq<u8>)
    ensures
        key.len() == 16 && is_cbc(|b: Seq<u8>| aes128_block(key, b), text, ciphertext) ==> {
            &&& Aes128CryptFilter.decrypted(key, ciphertext) == Ok::<Seq<u8>, DecryptionError>(text)
            &&& decrypted_in_pieces(Aes128CryptFilter, key, ciphertext) == Ok::<
                Seq<u8>,
                DecryptionError,
            >(text)
        },
        key.len() == 32 && is_cbc(|b: Seq<u8>| aes256_block(key, b), text, ciphertext) ==> {
            &&& Aes256CryptFilter.decrypted(key, ciphertext) == Ok::<Seq<u8>, DecryptionError>(text)
            &&& decrypted_in_pieces(Aes256CryptFilter, key, ciphertext) == Ok::<
                Seq<u8>,
                DecryptionError,
            >(text)
        },
{
    lemma_methods_differ();
    lemma_padding_comes_off(text);
    if key.len() == 16 && is_cbc(|b: Seq<u8>| aes128_block(key, b), text, ciphertext) {
        lemma_cbc_text(key, |b: Seq<u8>| aes128_block(key, b), text, ciphertext);
        lemma_aes_as_whole(key, ciphertext);
    }
    if key.len() == 32 && is_cbc(|b: Seq<u8>| aes256_block(key, b), text, ciphertext) {
        lemma_cbc_text(key, |b: Seq<u8>| aes256_block(key, b), text, ciphertext);
        lemma_aes_as_whole(key, ciphertext);
    }
}

/// AES asks for a key of its own length and for whole blocks: with any other the error says so, and before
/// anything is read. Nothing, or an initialization vector alone, is nothing.
pub proof fn lemma_aes_lengths(key: Seq<u8>, ciphertext: Seq<u8>)
    ensures
        key.len() != 16 ==> Aes128CryptFilter.decrypted(key, ciphertext) == Err::<
            Seq<u8>,
            DecryptionError,
        >(DecryptionError::InvalidKeyLength) && start_error(
            Aes128CryptFilter.method_name(),
            key,
            ciphertext.len(),
        ) == Some(DecryptionError::InvalidKeyLength),
        key.len() != 32 ==> Aes256CryptFilter.decrypted(key, ciphertext) == Err::<
            Seq<u8>,
            DecryptionError,
        >(DecryptionError::InvalidKeyLength) && start_error(
            Aes256CryptFilter.method_name(),
            key,
            ciphertext.len(),
        ) == Some(DecryptionError::InvalidKeyLength),
        key.len() == 16 && ciphertext.len() % 16 != 0 ==> Aes128CryptFilter.decrypted(key, ciphertext)
            == Err::<Seq<u8>, DecryptionError>(DecryptionError::InvalidCipherTextLength)
            && start_error(Aes128CryptFilter.method_name(), key, ciphertext.len()) == Some(
            DecryptionError::InvalidCipherTextLength,
        ),
        key.len() == 32 && ciphertext.len() % 16 != 0 ==> Aes256CryptFilter.decrypted(key, ciphertext)
            == Err::<Seq<u8>, DecryptionError>(DecryptionError::InvalidCipherTextLength)
            && start_error(Aes256CryptFilter.method_name(), key, ciphertext.len()) == Some(
            DecryptionError::InvalidCipherTextLength,
        ),
        key.len() == 16 && ciphertext.len() % 16 == 0 ==> start_error(
            Aes128CryptFilter.method_name(),
            key,
            ciphertext.len(),
        ) is None,
        key.len() == 32 && ciphertext.len() % 16 == 0 ==> start_error(
            Aes256CryptFilter.method_name(),
            key,
            ciphertext.len(),
        ) is None,
        key.len() == 16 && (ciphertext.len() == 0 || ciphertext.len() == 16)
            ==> Aes128CryptFilter.decrypted(key, ciphertext) == Ok::<Seq<u8>, DecryptionError>(
            Seq::empty(),
        ),
        key.len() == 32 && (ciphertext.len() == 0 || ciphertext.len() == 16)
            ==> Aes256CryptFilter.decrypted(key, ciphertext) == Ok::<Seq<u8>, DecryptionError>(
            Seq::empty(),
        ),
        start_error(Rc4CryptFilter.method_name(), key, ciphertext.len()) is None,
        start_error(IdentityCryptFilter.method_name(), key, ciphertext.len()) is None,
{
    lemma_methods_differ();
    reveal_strlit("AESV2");
    reveal_strlit("AESV3");
    assert("AESV2"@[4] == '2' && "AESV3"@[4] == '3');
    lemma_keys_differ("AESV2"@, "AESV3"@);
}

/// A block without padding is none: padding is from one byte to the whole block, and each of its bytes says
/// how many there are.
pub proof fn lemma_blocks_without_padding(block: Seq<u8>)
    requires
        block.len() == 16,
    ensures
        block[15] == 0 || block[15] > 16 ==> unpadded(block) is None,
        (exists|i: int| 16 - block[15] <= i < 16 && 0 <= i && #[trigger] block[i] != block[15])
            ==> unpadded(block) is None,
        unpadded(block) matches Some(rest) ==> rest.len() == 16 - block[15] && rest == block.take(
            16 - block[15],
        ),
{
    if exists|i: int| 16 - block[15] <= i < 16 && 0 <= i && #[trigger] block[i] != block[15] {
        let i = choose|i: int| 16 - block[15] <= i < 16 && 0 <= i && #[trigger] block[i] != block[15];
        assert(block[i] != block.last());
    }
}

/// A filter with a method of its own decrypts the whole content at the end.
pub proof fn lemma_other_methods<F: CryptFilter>(filter: F, key: Seq<u8>, ciphertext: Seq<u8>)
    requires
        filter.method_name() != key_bytes("Identity"@),
        filter.method_name() != key_bytes("V2"@),
        filter.method_name() != key_bytes("AESV2"@),
        filter.method_name() != key_bytes("AESV3"@),
    ensures
        decrypted_in_pieces(filter, key, ciphertext) == filter.decrypted(key, ciphertext),
        start_error(filter.method_name(), key, ciphertext.len()) is None,
{
    assert(Seq::<u8>::empty() + ciphertext =~= ciphertext);
    if let Ok(plaintext) = filter.decrypted(key, ciphertext) {
        assert(Seq::<u8>::empty() + plaintext =~= plaintext);
    }
}

/// The methods go by their names.
pub proof fn lemma_method_names()
    ensures
        IdentityCryptFilter.method_name() == key_bytes("Identity"@),
        Rc4CryptFilter.method_name() == key_bytes("V2"@),
        Aes128CryptFilter.method_name() == key_bytes("AESV2"@),
        Aes256CryptFilter.method_name() == key_bytes("AESV3"@),
{
}

} // verus!
