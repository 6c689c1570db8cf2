//! The RC4 cipher.

use vstd::prelude::*;

verus! {

/// Where a keystream is.
pub struct KeyState {
    /// The permutation of the 256 bytes.
    pub state: Seq<u8>,
    pub i: u8,
    pub j: u8,
}

/// `state` with the bytes at `i` and `j` swapped.
pub open spec fn swapped(state: Seq<u8>, i: u8, j: u8) -> Seq<u8> {
    state.update(i as int, state[j as int]).update(j as int, state[i as int])
}

/// The sum of bytes, wrapped around.
pub open spec fn sum(a: u8, b: u8) -> u8 {
    ((a + b) % 256) as u8
}

/// The permutation after the first `rounds` of the key schedule, and where it swapped last.
pub open spec fn schedule(key: Seq<u8>, rounds: nat) -> (Seq<u8>, u8)
    decreases rounds,
{
    if rounds == 0 {
        (Seq::new(256, |i: int| i as u8), 0)
    } else {
        let i = (rounds - 1) as nat;
        let (state, j) = schedule(key, i);
        let next = sum(sum(j, state[i as int]), key[i as int % key.len() as int]);
        (swapped(state, i as u8, next), next)
    }
}

/// The start of the keystream of `key`.
pub open spec fn keystream_start(key: Seq<u8>) -> KeyState {
    KeyState { state: schedule(key, 256).0, i: 0, j: 0 }
}

/// The keystream one byte further.
pub open spec fn next_state(at: KeyState) -> KeyState {
    let i = sum(at.i, 1);
    let j = sum(at.j, at.state[i as int]);
    KeyState { state: swapped(at.state, i, j), i, j }
}

/// The byte that the keystream last gave.
pub open spec fn given(at: KeyState) -> u8 {
    at.state[sum(at.state[at.i as int], at.state[at.j as int]) as int]
}

/// The keystream `count` bytes further.
pub open spec fn advanced(at: KeyState, count: nat) -> KeyState
    decreases count,
{
    if count == 0 {
        at
    } else {
        next_state(advanced(at, (count - 1) as nat))
    }
}

/// The bytes of `data`, each combined with the next byte of the keystream.
pub open spec fn crypted(at: KeyState, data: Seq<u8>) -> Seq<u8> {
    Seq::new(data.len(), |k: int| data[k] ^ given(advanced(at, (k + 1) as nat)))
}

/// Applying a keystream twice gives back what it was applied to: decryption undoes encryption.
pub proof fn lemma_decrypts(at: KeyState, data: Seq<u8>)
    ensures
        crypted(at, crypted(at, data)) == data,
{
    assert forall|k: int| 0 <= k < data.len() implies crypted(at, crypted(at, data))[k]
        == data[k] by {
        let byte = data[k];
        let key = given(advanced(at, (k + 1) as nat));
        assert((byte ^ key) ^ key == byte) by (bit_vector);
    }
    assert(crypted(at, crypted(at, data)) =~= data);
}

proof fn lemma_advanced(at: KeyState, a: nat, b: nat)
    ensures
        advanced(advanced(at, a), b) == advanced(at, a + b),
    decreases b,
{
    if b > 0 {
        lemma_advanced(at, a, (b - 1) as nat);
    }
}

/// A keystream applied to data a piece at a time gives what it gives for the whole.
pub proof fn lemma_pieces(at: KeyState, first: Seq<u8>, second: Seq<u8>)
    ensures
        crypted(at, first + second) == crypted(at, first) + crypted(
            advanced(at, first.len()),
            second,
        ),
        advanced(at, (first + second).len()) == advanced(
            advanced(at, first.len()),
            second.len(),
        ),
{
    let whole = crypted(at, first + second);
    let pieces = crypted(at, first) + crypted(advanced(at, first.len()), second);
    assert forall|k: int| 0 <= k < whole.len() implies whole[k] == pieces[k] by {
        if k >= first.len() {
            lemma_advanced(at, first.len(), (k - first.len() + 1) as nat);
        }
    }
    assert(whole =~= pieces);
    lemma_advanced(at, first.len(), second.len());
}

/// A key set up for RC4.
pub struct Rc4 {
    initial_state: Vec<u8>,
    key: Ghost<Seq<u8>>,
}

fn swap(state: &mut Vec<u8>, i: u8, j: u8)
    requires
        old(state)@.len() == 256,
    ensures
        final(state)@ == swapped(old(state)@, i, j),
        final(state)@.len() == 256,
{
    let first = state[i as usize];
    let second = state[j as usize];
    state.set(i as usize, second);
    state.set(j as usize, first);
}

fn wrapped_sum(a: u8, b: u8) -> (r: u8)
    ensures
        r == sum(a, b),
{
    ((a as u16 + b as u16) % 256) as u8
}

impl Rc4 {
    pub closed spec fn key(&self) -> Seq<u8> {
        self.key@
    }

    /// The permutation is the one that the key schedules.
    pub closed spec fn well_formed(&self) -> bool {
        &&& self.initial_state@.len() == 256
        &&& self.initial_state@ == schedule(self.key@, 256).0
    }

    pub fn new(key: &[u8]) -> (r: Self)
        requires
            1 <= key@.len() <= 256,
        ensures
            r.well_formed(),
            r.key() == key@,
    {
        let mut initial_state: Vec<u8> = Vec::new();
        let mut i: usize = 0;
        while i < 256
            invariant
                i <= 256,
                initial_state@.len() == i,
                forall|k: int| 0 <= k < i ==> #[trigger] initial_state@[k] == k as u8,
            decreases 256 - i,
        {
            initial_state.push(i as u8);
            i += 1;
        }
        assert(initial_state@ =~= schedule(key@, 0).0);
        let mut j: u8 = 0;
        let mut round: usize = 0;
        while round < 256
            invariant
                1 <= key@.len() <= 256,
                round <= 256,
                initial_state@.len() == 256,
                (initial_state@, j) == schedule(key@, round as nat),
            decreases 256 - round,
        {
            let ghost before = (initial_state@, j);
            j = wrapped_sum(
                wrapped_sum(j, initial_state[round]),
                key[round % key.len()],
            );
            swap(&mut initial_state, round as u8, j);
            assert(before == schedule(key@, round as nat));
            round += 1;
        }
        Rc4 { initial_state, key: Ghost(key@) }
    }

    /// Encrypts or decrypts `input` into `output`. The shorter of `input` and `output` determines
    /// how many bytes are written into `output`.
    pub fn apply_keystream(&self, input: &[u8], output: &mut Vec<u8>)
        requires
            self.well_formed(),
        ensures
            ({
                let count = if input@.len() < old(output)@.len() {
                    input@.len() as int
                } else {
                    old(output)@.len() as int
                };
                final(output)@ == crypted(keystream_start(self.key()), input@.take(count))
                    + old(output)@.skip(count)
            }),
    {
        let mut keystream = self.keystream();
        let ghost start = keystream_start(self.key());
        let ghost before = output@;
        let mut k: usize = 0;
        while k < input.len() && k < output.len()
            invariant
                start == keystream_start(self.key()),
                keystream.well_formed(),
                keystream@ == advanced(start, k as nat),
                k <= input@.len(),
                k <= output@.len(),
                output@.len() == before.len(),
                forall|n: int|
                    0 <= n < k ==> #[trigger] output@[n] == input@[n] ^ given(
                        advanced(start, (n + 1) as nat),
                    ),
                forall|n: int| k <= n < output@.len() ==> #[trigger] output@[n] == before[n],
            decreases input@.len() - k,
        {
            let byte = keystream.next_byte();
            output.set(k, input[k] ^ byte);
            k += 1;
        }
        assert(output@ =~= crypted(start, input@.take(k as int)) + before.skip(k as int));
    }

    /// The keystream from its start, to apply a piece at a time.
    pub fn keystream(&self) -> (r: Rc4Keystream)
        requires
            self.well_formed(),
        ensures
            r.well_formed(),
            r@ == keystream_start(self.key()),
    {
        Rc4Keystream { state: self.initial_state.clone(), i: 0, j: 0 }
    }

    /// Allocates a new vector of the same length as `input` and decrypts `input` into it.
    pub fn decrypt(&self, input: &[u8]) -> (r: Vec<u8>)
        requires
            self.well_formed(),
        ensures
            r@ == crypted(keystream_start(self.key()), input@),
    {
        let mut output: Vec<u8> = Vec::new();
        output.resize(input.len(), 0);
        self.apply_keystream(input, &mut output);
        assert(input@.take(input@.len() as int) =~= input@);
        assert(output@ =~= crypted(keystream_start(self.key()), input@));
        output
    }

    /// Allocates a new vector of the same length as `input` and encrypts `input` into it.
    pub fn encrypt(&self, input: &[u8]) -> (r: Vec<u8>)
        requires
            self.well_formed(),
        ensures
            r@ == crypted(keystream_start(self.key()), input@),
    {
        // RC4 is symmetric.
        self.decrypt(input)
    }
}

/// An RC4 keystream, continued from one piece of data to the next.
pub struct Rc4Keystream {
    state: Vec<u8>,
    i: u8,
    j: u8,
}

impl View for Rc4Keystream {
    type V = KeyState;

    closed spec fn view(&self) -> KeyState {
        KeyState { state: self.state@, i: self.i, j: self.j }
    }
}

impl Rc4Keystream {
    /// The permutation is one of 256 bytes.
    pub closed spec fn well_formed(&self) -> bool {
        self.state@.len() == 256
    }

    /// Encrypts or decrypts `data` in place.
    pub fn apply(&mut self, data: &mut Vec<u8>)
        requires
            old(self).well_formed(),
        ensures
            final(self).well_formed(),
            final(data)@ == crypted(old(self)@, old(data)@),
            final(self)@ == advanced(old(self)@, old(data)@.len()),
    {
        let ghost start = self@;
        let ghost before = data@;
        let mut k: usize = 0;
        while k < data.len()
            invariant
                self.well_formed(),
                self@ == advanced(start, k as nat),
                k <= data@.len(),
                data@.len() == before.len(),
                forall|n: int|
                    0 <= n < k ==> #[trigger] data@[n] == before[n] ^ given(
                        advanced(start, (n + 1) as nat),
                    ),
                forall|n: int| k <= n < data@.len() ==> #[trigger] data@[n] == before[n],
            decreases data@.len() - k,
        {
            let byte = self.next_byte();
            data.set(k, data[k] ^ byte);
            k += 1;
        }
        assert(data@ =~= crypted(start, before));
    }

    fn next_byte(&mut self) -> (r: u8)
        requires
            old(self).well_formed(),
        ensures
            final(self).well_formed(),
            final(self)@ == next_state(old(self)@),
            r == given(final(self)@),
    {
        self.i = wrapped_sum(self.i, 1);
        self.j = wrapped_sum(self.j, self.state[self.i as usize]);
        swap(&mut self.state, self.i, self.j);
        let position = wrapped_sum(self.state[self.i as usize], self.state[self.j as usize]);
        self.state[position as usize]
    }
}

} // verus!
