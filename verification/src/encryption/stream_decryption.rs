//! Stream content decrypted a piece at a time.

use vstd::prelude::*;

use crate::bytes::{key as key_bytes, spells, to_vec};
use crate::encryption::cbc_mode::{
    cbc_decrypted, chain_after, decrypt_blocks, lemma_cbc_pieces, BLOCK,
};
use crate::encryption::crypt_filters::{aes_decrypted, CryptFilter};
use crate::encryption::pkcs5::{unpadded, unpadded_len};
use crate::encryption::rc4::{
    advanced, crypted, keystream_start, lemma_pieces as lemma_rc4_pieces, KeyState, Rc4,
    Rc4Keystream,
};
use crate::error::DecryptionError;

verus! {

/// How far the decryption of a stream has come.
pub enum DecryptionState {
    Identity,
    Rc4(KeyState),
    Aes(AesState),
    /// A filter not known here, which decrypts the whole content at the end.
    Whole { key: Seq<u8>, ciphertext: Seq<u8> },
}

/// How far AES decryption has come.
pub struct AesState {
    pub key: Seq<u8>,
    /// The block to go on from, once the initialization vector has arrived.
    pub chain: Option<Seq<u8>>,
    /// Ciphertext not decrypted yet: the initialization vector until it is whole, then what does
    /// not fill a block, and always the last whole block, whose padding is checked at the end.
    pub pending: Seq<u8>,
}

/// How much of the pending ciphertext is decrypted: whole blocks, but for the last.
pub open spec fn ready_len(pending: Seq<u8>) -> int {
    if pending.len() == 0 {
        0
    } else {
        (pending.len() - 1) / 16 * 16
    }
}

/// AES decryption once more ciphertext has arrived, the initialization vector taken out of it.
pub open spec fn aes_started(state: AesState, piece: Seq<u8>) -> AesState {
    let pending = state.pending + piece;
    if state.chain is None && pending.len() >= 16 {
        AesState { chain: Some(pending.take(16)), pending: pending.skip(16), ..state }
    } else {
        AesState { pending, ..state }
    }
}

/// AES decryption after the next piece of ciphertext, and the plaintext that it makes ready.
pub open spec fn aes_updated(state: AesState, piece: Seq<u8>) -> (AesState, Seq<u8>) {
    let started = aes_started(state, piece);
    match started.chain {
        None => (started, Seq::empty()),
        Some(chain) => {
            let ready = started.pending.take(ready_len(started.pending));
            (
                AesState {
                    chain: Some(chain_after(chain, ready)),
                    pending: started.pending.skip(ready_len(started.pending)),
                    ..started
                },
                cbc_decrypted(started.key, chain, ready),
            )
        },
    }
}

/// The last block decrypted, or what there is of it as it is.
pub open spec fn last_block(state: AesState) -> Seq<u8> {
    if state.pending.len() == 16 {
        cbc_decrypted(state.key, state.chain->Some_0, state.pending)
    } else {
        state.pending
    }
}

/// The rest of the plaintext, once all the ciphertext has arrived. Padding that does not check out
/// keeps the last block as it decrypted.
pub open spec fn aes_rest(state: AesState) -> Seq<u8> {
    if state.chain is None || state.pending.len() == 0 {
        Seq::empty()
    } else {
        match unpadded(last_block(state)) {
            Some(plaintext) => plaintext,
            None => last_block(state),
        }
    }
}

/// AES decryption that has decrypted all it can.
pub open spec fn aes_settled(state: AesState) -> bool {
    &&& state.key.len() == 16 || state.key.len() == 32
    &&& match state.chain {
        Some(chain) => chain.len() == 16 && state.pending.len() <= 16,
        None => state.pending.len() < 16,
    }
}

/// A decryption after the next piece of ciphertext, and the plaintext that it makes ready.
pub open spec fn updated(state: DecryptionState, piece: Seq<u8>) -> (DecryptionState, Seq<u8>) {
    match state {
        DecryptionState::Identity => (state, piece),
        DecryptionState::Rc4(at) => (
            DecryptionState::Rc4(advanced(at, piece.len())),
            crypted(at, piece),
        ),
        DecryptionState::Aes(aes) => {
            let (after, plaintext) = aes_updated(aes, piece);
            (DecryptionState::Aes(after), plaintext)
        },
        DecryptionState::Whole { key, ciphertext } => (
            DecryptionState::Whole { key, ciphertext: ciphertext + piece },
            Seq::empty(),
        ),
    }
}

/// Where the decryption of content starts, by the filter's method.
pub open spec fn decryption_start(method: Seq<u8>, key: Seq<u8>) -> DecryptionState {
    if method == key_bytes("Identity"@) {
        DecryptionState::Identity
    } else if method == key_bytes("V2"@) {
        DecryptionState::Rc4(keystream_start(key))
    } else if method == key_bytes("AESV2"@) || method == key_bytes("AESV3"@) {
        DecryptionState::Aes(AesState { key, chain: None, pending: Seq::empty() })
    } else {
        DecryptionState::Whole { key, ciphertext: Seq::empty() }
    }
}

/// Why content of `len` bytes cannot be decrypted, which shows before it is read.
pub open spec fn start_error(method: Seq<u8>, key: Seq<u8>, len: nat) -> Option<DecryptionError> {
    if method == key_bytes("Identity"@) || method == key_bytes("V2"@) {
        None
    } else if method == key_bytes("AESV2"@) || method == key_bytes("AESV3"@) {
        let key_len = if method == key_bytes("AESV2"@) {
            16nat
        } else {
            32nat
        };
        if key.len() != key_len {
            Some(DecryptionError::InvalidKeyLength)
        } else if len % 16 != 0 {
            Some(DecryptionError::InvalidCipherTextLength)
        } else {
            None
        }
    } else {
        None
    }
}

proof fn lemma_aes_settled(state: AesState, piece: Seq<u8>)
    requires
        aes_settled(state),
    ensures
        aes_settled(aes_updated(state, piece).0),
{
    let started = aes_started(state, piece);
    if let Some(chain) = started.chain {
        let len = ready_len(started.pending);
        assert(0 <= len <= started.pending.len() && len % 16 == 0);
        assert(chain.len() == 16);
        if len > 0 {
            assert(len >= 16);
        }
    }
}

/// AES decryption of two pieces gives what it gives for them in one.
proof fn lemma_aes_pieces(state: AesState, first: Seq<u8>, second: Seq<u8>)
    requires
        aes_settled(state),
    ensures
        ({
            let (middle, early) = aes_updated(state, first);
            let (after, late) = aes_updated(middle, second);
            aes_updated(state, first + second) == (after, early + late)
        }),
{
    let (middle, early) = aes_updated(state, first);
    let (after, late) = aes_updated(middle, second);
    let whole = aes_started(state, first + second);
    let one = aes_started(state, first);
    let two = aes_started(middle, second);
    let p = state.pending;
    assert(p + (first + second) =~= (p + first) + second);
    match one.chain {
        None => {
            assert(middle == one);
            assert(early + late =~= late);
            assert(one.pending + second =~= p + (first + second));
        },
        Some(chain) => {
            let q = one.pending;
            let r = q + second;
            if state.chain is None {
                assert((p + first + second).take(16) =~= (p + first).take(16));
                assert((p + first + second).skip(16) =~= (p + first).skip(16) + second);
            }
            assert(whole.chain == Some(chain));
            assert(whole.pending =~= r);
            let a = ready_len(q);
            let rest = q.skip(a) + second;
            let b = ready_len(rest);
            assert(two.pending =~= rest);
            assert(0 <= a <= q.len() && a % 16 == 0);
            assert(ready_len(r) == a + b);
            assert(r.take(a + b) =~= q.take(a) + rest.take(b));
            assert(r.skip(a + b) =~= rest.skip(b));
            assert(b % 16 == 0);
            lemma_cbc_pieces(state.key, chain, q.take(a), rest.take(b));
        },
    }
}

/// Decryption a piece at a time gives what it gives for the pieces in one.
pub proof fn lemma_pieces(state: DecryptionState, first: Seq<u8>, second: Seq<u8>)
    requires
        state matches DecryptionState::Aes(aes) ==> aes_settled(aes),
    ensures
        ({
            let (middle, early) = updated(state, first);
            let (after, late) = updated(middle, second);
            updated(state, first + second) == (after, early + late)
        }),
{
    match state {
        DecryptionState::Identity => {},
        DecryptionState::Rc4(at) => {
            lemma_rc4_pieces(at, first, second);
        },
        DecryptionState::Aes(aes) => {
            lemma_aes_pieces(aes, first, second);
        },
        DecryptionState::Whole { ciphertext, .. } => {
            assert(ciphertext + first + second =~= ciphertext + (first + second));
            assert(Seq::<u8>::empty() + Seq::<u8>::empty() =~= Seq::<u8>::empty());
        },
    }
}

/// AES content decrypted as it is read gives what decrypting it whole gives, where that does not
/// fail; and where only the padding fails it gives the last block as it decrypted.
pub proof fn lemma_aes_as_whole(key: Seq<u8>, ciphertext: Seq<u8>)
    requires
        key.len() == 16 || key.len() == 32,
        ciphertext.len() % 16 == 0,
    ensures
        ({
            let start = AesState { key, chain: None, pending: Seq::empty() };
            let (state, early) = aes_updated(start, ciphertext);
            let plaintext = early + aes_rest(state);
            match aes_decrypted(key.len(), key, ciphertext) {
                Ok(whole) => plaintext == whole,
                Err(error) => error == DecryptionError::Padding && plaintext == cbc_decrypted(
                    key,
                    ciphertext.take(16),
                    ciphertext.skip(16),
                ),
            }
        }),
{
    let start = AesState { key, chain: None, pending: Seq::empty() };
    let (state, early) = aes_updated(start, ciphertext);
    assert(start.pending + ciphertext =~= ciphertext);
    if ciphertext.len() > 16 {
        let iv = ciphertext.take(16);
        let rest = ciphertext.skip(16);
        let ready = rest.len() - 16;
        assert(ready_len(rest) == ready);
        assert(state.pending =~= rest.skip(ready));
        assert(rest.take(ready) + rest.skip(ready) =~= rest);
        lemma_cbc_pieces(key, iv, rest.take(ready), rest.skip(ready));
        let padded = cbc_decrypted(key, iv, rest);
        assert(padded.take(ready) =~= early);
        assert(padded.skip(ready) =~= last_block(state));
        assert(padded =~= early + last_block(state));
    } else {
        assert(early + aes_rest(state) =~= Seq::<u8>::empty());
    }
}

/// The rest of the plaintext, once all the ciphertext has arrived.
pub open spec fn rest_of<F: CryptFilter>(filter: F, state: DecryptionState) -> std::result::Result<
    Seq<u8>,
    DecryptionError,
> {
    match state {
        DecryptionState::Identity => Ok(Seq::empty()),
        DecryptionState::Rc4(_) => Ok(Seq::empty()),
        DecryptionState::Aes(aes) => Ok(aes_rest(aes)),
        DecryptionState::Whole { key, ciphertext } => filter.decrypted(key, ciphertext),
    }
}

/// What content decrypts to as it is read.
pub open spec fn decrypted_in_pieces<F: CryptFilter>(
    filter: F,
    key: Seq<u8>,
    ciphertext: Seq<u8>,
) -> std::result::Result<Seq<u8>, DecryptionError> {
    let (state, early) = updated(decryption_start(filter.method_name(), key), ciphertext);
    match rest_of(filter, state) {
        Ok(rest) => Ok(early + rest),
        Err(error) => Err(error),
    }
}

/// Decrypts a stream's content as it is read, giving what [`CryptFilter::decrypt`] gives for the
/// whole content. The one difference: AES padding that does not check out keeps the last block as
/// it decrypted, where whole decryption fails.
pub enum StreamDecryption<F: CryptFilter> {
    Identity,
    Rc4(Rc4Keystream),
    Aes(AesCbc),
    /// A filter this module does not know, which decrypts the whole content at the end.
    Whole { filter: F, key: Vec<u8>, ciphertext: Vec<u8> },
}

impl<F: CryptFilter> StreamDecryption<F> {
    /// How far the decryption has come.
    pub open spec fn state(&self) -> DecryptionState {
        match self {
            StreamDecryption::Identity => DecryptionState::Identity,
            StreamDecryption::Rc4(keystream) => DecryptionState::Rc4(keystream@),
            StreamDecryption::Aes(aes) => DecryptionState::Aes(aes@),
            StreamDecryption::Whole { key, ciphertext, .. } => DecryptionState::Whole {
                key: key@,
                ciphertext: ciphertext@,
            },
        }
    }

    /// The filter that decrypts the whole content at the end, if one does.
    pub open spec fn filter(&self) -> Option<F> {
        match self {
            StreamDecryption::Whole { filter, .. } => Some(*filter),
            _ => None,
        }
    }

    pub open spec fn well_formed(&self) -> bool {
        match self {
            StreamDecryption::Identity => true,
            StreamDecryption::Rc4(keystream) => keystream.well_formed(),
            StreamDecryption::Aes(aes) => aes_settled(aes@),
            StreamDecryption::Whole { filter, key, .. } => filter.takes(key@),
        }
    }

    /// The rest of the plaintext, once all the ciphertext has been given.
    pub open spec fn rest(&self) -> std::result::Result<Seq<u8>, DecryptionError> {
        match self {
            StreamDecryption::Whole { filter, .. } => rest_of(*filter, self.state()),
            StreamDecryption::Aes(aes) => Ok(aes_rest(aes@)),
            _ => Ok(Seq::empty()),
        }
    }

    /// Decryption of `len` bytes of ciphertext with `filter` and the object's `key`. Fails where
    /// whole decryption fails before reading the content, such as for an AES ciphertext that is
    /// not whole blocks.
    pub fn new(filter: F, key: Vec<u8>, len: usize) -> (r: std::result::Result<
        Self,
        DecryptionError,
    >)
        requires
            filter.takes(key@),
            filter.method_name() == key_bytes("V2"@) ==> 1 <= key@.len() <= 256,
        ensures
            match r {
                Ok(decryption) => {
                    &&& start_error(filter.method_name(), key@, len as nat) is None
                    &&& decryption.well_formed()
                    &&& decryption.state() == decryption_start(filter.method_name(), key@)
                    &&& decryption.filter() matches Some(f) ==> f == filter
                },
                Err(error) => start_error(filter.method_name(), key@, len as nat) == Some(error),
            },
    {
        let method = filter.method();
        if spells(method.as_slice(), "Identity") {
            return Ok(StreamDecryption::Identity);
        }
        if spells(method.as_slice(), "V2") {
            return Ok(StreamDecryption::Rc4(Rc4::new(key.as_slice()).keystream()));
        }
        let short = spells(method.as_slice(), "AESV2");
        if short || spells(method.as_slice(), "AESV3") {
            let key_len: usize = if short {
                16
            } else {
                32
            };
            if key.len() != key_len {
                return Err(DecryptionError::InvalidKeyLength);
            }
            if len % BLOCK != 0 {
                return Err(DecryptionError::InvalidCipherTextLength);
            }
            let aes = AesCbc { key, chain: None, pending: Vec::new() };
            assert(aes@.pending =~= Seq::<u8>::empty());
            return Ok(StreamDecryption::Aes(aes));
        }
        let decryption = StreamDecryption::Whole { filter, key, ciphertext: Vec::new() };
        assert(decryption.state()->ciphertext =~= Seq::<u8>::empty());
        Ok(decryption)
    }

    /// Decrypts the next piece of ciphertext, and appends the plaintext that is ready to `output`.
    pub fn update(&mut self, ciphertext: &[u8], output: &mut Vec<u8>)
        requires
            old(self).well_formed(),
        ensures
            final(self).well_formed(),
            final(self).state() == updated(old(self).state(), ciphertext@).0,
            final(output)@ == old(output)@ + updated(old(self).state(), ciphertext@).1,
            final(self).filter() == old(self).filter(),
    {
        match self {
            StreamDecryption::Identity => {
                output.extend_from_slice(ciphertext);
            },
            StreamDecryption::Rc4(keystream) => {
                let mut piece = to_vec(ciphertext);
                keystream.apply(&mut piece);
                output.append(&mut piece);
            },
            StreamDecryption::Aes(aes) => {
                aes.update(ciphertext, output);
            },
            StreamDecryption::Whole { ciphertext: all, .. } => {
                let ghost before = all@;
                all.extend_from_slice(ciphertext);
                assert(all@ =~= before + ciphertext@);
                assert(output@ + Seq::<u8>::empty() =~= output@);
            },
        }
    }

    /// Appends the rest of the plaintext, once all the ciphertext has been given.
    pub fn finish(&mut self, output: &mut Vec<u8>) -> (r: std::result::Result<(), DecryptionError>)
        requires
            old(self).well_formed(),
        ensures
            final(self).well_formed(),
            final(self).filter() == old(self).filter(),
            match r {
                Ok(_) => {
                    &&& old(self).rest() is Ok
                    &&& final(output)@ == old(output)@ + old(self).rest()->Ok_0
                    &&& final(self).state() == match old(self).state() {
                        DecryptionState::Aes(aes) => DecryptionState::Aes(
                            if aes.chain is Some {
                                AesState { pending: Seq::empty(), ..aes }
                            } else {
                                aes
                            },
                        ),
                        DecryptionState::Whole { key, .. } => DecryptionState::Whole {
                            key,
                            ciphertext: Seq::empty(),
                        },
                        state => state,
                    }
                },
                Err(error) => {
                    &&& old(self).rest() == Err::<Seq<u8>, DecryptionError>(error)
                    &&& final(output)@ == old(output)@
                    &&& final(self).state() == old(self).state()
                },
            },
    {
        match self {
            StreamDecryption::Identity => {
                assert(output@ + Seq::<u8>::empty() =~= output@);
            },
            StreamDecryption::Rc4(_) => {
                assert(output@ + Seq::<u8>::empty() =~= output@);
            },
            StreamDecryption::Aes(aes) => {
                aes.finish(output);
            },
            StreamDecryption::Whole { filter, key, ciphertext } => {
                match filter.decrypt(key.as_slice(), ciphertext.as_slice()) {
                    Ok(mut plaintext) => {
                        output.append(&mut plaintext);
                        ciphertext.clear();
                    },
                    Err(error) => {
                        return Err(error);
                    },
                }
            },
        }
        Ok(())
    }
}

/// AES in CBC mode, for 128-bit and 256-bit keys: the first block is the initialization vector, and
/// the last block ends in PKCS#5 padding.
pub struct AesCbc {
    key: Vec<u8>,
    /// The last block decrypted, or the initialization vector before there is one.
    chain: Option<Vec<u8>>,
    /// Ciphertext not decrypted yet: the initialization vector until it is whole, then what does
    /// not fill a block, and always the last whole block, whose padding is checked at the end.
    pending: Vec<u8>,
}

impl View for AesCbc {
    type V = AesState;

    closed spec fn view(&self) -> AesState {
        AesState {
            key: self.key@,
            chain: match self.chain {
                Some(chain) => Some(chain@),
                None => None,
            },
            pending: self.pending@,
        }
    }
}

impl AesCbc {
    fn update(&mut self, ciphertext: &[u8], output: &mut Vec<u8>)
        requires
            aes_settled(old(self)@),
        ensures
            aes_settled(final(self)@),
            final(self)@ == aes_updated(old(self)@, ciphertext@).0,
            final(output)@ == old(output)@ + aes_updated(old(self)@, ciphertext@).1,
    {
        let ghost before = self@;
        proof {
            lemma_aes_settled(before, ciphertext@);
        }
        self.pending.extend_from_slice(ciphertext);
        assert(self@.pending =~= before.pending + ciphertext@);
        assert(self@.pending + Seq::<u8>::empty() =~= self@.pending);
        self.start();
        let ghost started = self@;
        assert(started == aes_started(before, ciphertext@));
        if let Some(chain) = &self.chain {
            let ready = if self.pending.len() == 0 {
                0
            } else {
                (self.pending.len() - 1) / BLOCK * BLOCK
            };
            let ghost all = self.pending@;
            let rest = self.pending.split_off(ready);
            assert(self.pending@ =~= all.take(ready as int));
            assert(rest@ =~= all.skip(ready as int));
            let mut plaintext = decrypt_blocks(
                self.key.as_slice(),
                chain.as_slice(),
                self.pending.as_slice(),
            );
            output.append(&mut plaintext);
            if ready > 0 {
                let next = self.pending.split_off(ready - BLOCK);
                assert(next@ =~= chain_after(chain@, all.take(ready as int)));
                self.chain = Some(next);
            }
            self.pending = rest;
        } else {
            assert(output@ + Seq::<u8>::empty() =~= output@);
        }
    }

    fn finish(&mut self, output: &mut Vec<u8>)
        requires
            aes_settled(old(self)@),
        ensures
            aes_settled(final(self)@),
            final(self)@ == if old(self)@.chain is Some {
                AesState { pending: Seq::empty(), ..old(self)@ }
            } else {
                old(self)@
            },
            final(output)@ == old(output)@ + aes_rest(old(self)@),
    {
        let ghost before = self@;
        // Without an initialization vector the ciphertext was empty, and the initialization vector
        // alone decrypts to nothing, as in whole decryption.
        let chain = match &self.chain {
            Some(chain) => chain,
            None => {
                assert(output@ + Seq::<u8>::empty() =~= output@);
                return ;
            },
        };
        if self.pending.len() == 0 {
            assert(output@ + Seq::<u8>::empty() =~= output@);
            assert(before.pending =~= Seq::<u8>::empty());
            return ;
        }
        let mut block = if self.pending.len() == BLOCK {
            decrypt_blocks(self.key.as_slice(), chain.as_slice(), self.pending.as_slice())
        } else {
            to_vec(self.pending.as_slice())
        };
        assert(block@ == last_block(before));
        if let Some(len) = unpadded_len(block.as_slice()) {
            block.truncate(len);
            assert(block@ =~= last_block(before).take(len as int));
        }
        output.append(&mut block);
        self.pending = Vec::new();
        assert(self@.pending =~= Seq::<u8>::empty());
    }

    /// Takes the initialization vector out of the pending ciphertext once it has arrived.
    fn start(&mut self)
        ensures
            final(self)@ == aes_started(old(self)@, Seq::empty()),
    {
        let ghost before = self@;
        assert(before.pending + Seq::<u8>::empty() =~= before.pending);
        if self.chain.is_some() || self.pending.len() < BLOCK {
            return ;
        }
        let rest = self.pending.split_off(BLOCK);
        assert(self.pending@ =~= before.pending.take(16));
        assert(rest@ =~= before.pending.skip(16));
        let mut iv: Vec<u8> = Vec::new();
        iv.append(&mut self.pending);
        assert(iv@ =~= before.pending.take(16));
        self.chain = Some(iv);
        self.pending = rest;
    }
}

} // verus!
