use vstd::prelude::*;
use vstd::arithmetic::div_mod::{lemma_add_mod_noop, lemma_mod_self_0, lemma_mod_twice, lemma_small_mod};
use crate::math::lemma_mod_succ;

verus! {

/// The mathematical state of a keystream: the source bytes, the rotating
/// accumulator, and the cursor (in nibbles) into the source.
pub struct KeyState {
    pub data: Seq<u8>,
    pub acc: u8,
    pub index: nat,
}

/// Number of nibbles after which the cursor returns to where it started.
pub open spec fn period(data: Seq<u8>) -> nat {
    2 * data.len()
}

/// A state is valid when its cursor lies inside one period (or is zero for an
/// empty source).
pub open spec fn valid_state(s: KeyState) -> bool {
    if s.data.len() == 0 {
        s.index == 0
    } else {
        s.index < period(s.data)
    }
}

/// Rotating an 8-bit value left by five bits.
pub open spec fn rotl5(b: u8) -> u8 {
    ((b % 8) * 32 + b / 8) as u8
}

/// The source byte read at nibble position `pos` (taken modulo the period),
/// keyed with the accumulator.
pub open spec fn keyed(data: Seq<u8>, acc: u8, pos: int) -> u8 {
    data[(pos % period(data) as int) / 2] ^ acc
}

/// The nibble emitted at position `pos`: high half on even positions, low
/// half on odd ones.
pub open spec fn nibble_at(data: Seq<u8>, acc: u8, pos: int) -> u8 {
    if (pos % period(data) as int) % 2 == 0 {
        keyed(data, acc, pos) >> 4u8
    } else {
        keyed(data, acc, pos) & 0x0fu8
    }
}

/// The accumulator after emitting the nibble at `pos`: only even positions
/// fold the keyed byte in.
pub open spec fn acc_step(data: Seq<u8>, acc: u8, pos: int) -> u8 {
    if (pos % period(data) as int) % 2 == 0 {
        ((rotl5(acc) as int + keyed(data, acc, pos) as int) % 256) as u8
    } else {
        acc
    }
}

/// The accumulator after `n` nibbles starting at `start`.
pub open spec fn acc_after(data: Seq<u8>, acc: u8, start: nat, n: nat) -> u8
    decreases n,
{
    if n == 0 {
        acc
    } else {
        acc_step(data, acc_after(data, acc, start, (n - 1) as nat), start + n - 1)
    }
}

/// The `n` nibbles emitted from accumulator `acc` starting at `start`, for a
/// non-empty source.
pub open spec fn stream(data: Seq<u8>, acc: u8, start: nat, n: nat) -> Seq<u8>
    decreases n,
{
    if n == 0 {
        seq![]
    } else {
        stream(data, acc, start, (n - 1) as nat).push(
            nibble_at(data, acc_after(data, acc, start, (n - 1) as nat), start + n - 1),
        )
    }
}

/// The next `n` nibbles of a keystream in state `s`: zeros for an empty source.
pub open spec fn emit(s: KeyState, n: nat) -> Seq<u8> {
    if s.data.len() == 0 {
        Seq::new(n, |i: int| 0u8)
    } else {
        stream(s.data, s.acc, s.index, n)
    }
}

/// The state of a keystream in state `s` after `n` nibbles.
pub open spec fn advance(s: KeyState, n: nat) -> KeyState {
    if s.data.len() == 0 {
        s
    } else {
        KeyState {
            data: s.data,
            acc: acc_after(s.data, s.acc, s.index, n),
            index: (s.index + n) % period(s.data),
        }
    }
}

proof fn lemma_same_slot(data: Seq<u8>, acc: u8, pos_a: int, pos_b: int)
    requires
        data.len() > 0,
        pos_a % period(data) as int == pos_b % period(data) as int,
    ensures
        nibble_at(data, acc, pos_a) == nibble_at(data, acc, pos_b),
        acc_step(data, acc, pos_a) == acc_step(data, acc, pos_b),
{
}

proof fn lemma_split_acc(data: Seq<u8>, acc: u8, start: nat, a: nat, b: nat)
    requires
        data.len() > 0,
    ensures
        acc_after(data, acc, start, a + b) == acc_after(
            data,
            acc_after(data, acc, start, a),
            ((start + a as int) % period(data) as int) as nat,
            b,
        ),
    decreases b,
{
    if b > 0 {
        lemma_split_acc(data, acc, start, a, (b - 1) as nat);
        let p = period(data) as int;
        lemma_add_mod_noop(start + a as int, b - 1, p);
        lemma_mod_twice(start + a as int, p);
        assert((((start + a as int) % p) + (b - 1)) % p == (start + a + b - 1) % p) by {
            lemma_add_mod_noop((start + a as int) % p, b - 1, p);
        }
        lemma_same_slot(
            data,
            acc_after(data, acc, start, (a + b - 1) as nat),
            start + (a + b) - 1,
            ((start + a as int) % p) + b - 1,
        );
    }
}

proof fn lemma_split_stream(data: Seq<u8>, acc: u8, start: nat, a: nat, b: nat)
    requires
        data.len() > 0,
    ensures
        stream(data, acc, start, a + b) == stream(data, acc, start, a) + stream(
            data,
            acc_after(data, acc, start, a),
            ((start + a as int) % period(data) as int) as nat,
            b,
        ),
    decreases b,
{
    let p = period(data) as int;
    let acc_a = acc_after(data, acc, start, a);
    let start_a = ((start + a as int) % p) as nat;
    if b == 0 {
        assert(stream(data, acc, start, a) + stream(data, acc_a, start_a, 0) =~= stream(
            data,
            acc,
            start,
            a,
        ));
    } else {
        lemma_split_stream(data, acc, start, a, (b - 1) as nat);
        lemma_split_acc(data, acc, start, a, (b - 1) as nat);
        assert((((start + a as int) % p) + (b - 1)) % p == (start + a + b - 1) % p) by {
            lemma_add_mod_noop(start + a as int, b - 1, p);
            lemma_mod_twice(start + a as int, p);
            lemma_add_mod_noop((start + a as int) % p, b - 1, p);
        }
        lemma_same_slot(
            data,
            acc_after(data, acc, start, (a + b - 1) as nat),
            start + (a + b) - 1,
            start_a + b - 1,
        );
        assert(stream(data, acc, start, a + b) =~= stream(data, acc, start, a) + stream(
            data,
            acc_a,
            start_a,
            b,
        ));
    }
}

/// A keystream can be resumed from any point: taking `a` nibbles and then `b`
/// more yields the same nibbles, and the same state, as taking `a + b` at once.
pub proof fn lemma_resume(s: KeyState, a: nat, b: nat)
    requires
        valid_state(s),
    ensures
        emit(s, a + b) == emit(s, a) + emit(advance(s, a), b),
        advance(s, a + b) == advance(advance(s, a), b),
{
    if s.data.len() == 0 {
        assert(emit(s, a + b) =~= emit(s, a) + emit(advance(s, a), b));
    } else {
        let p = period(s.data) as int;
        lemma_split_stream(s.data, s.acc, s.index, a, b);
        lemma_split_acc(s.data, s.acc, s.index, a, b);
        lemma_add_mod_noop(s.index + a as int, b as int, p);
        lemma_mod_twice(s.index + a as int, p);
        lemma_add_mod_noop((s.index + a as int) % p, b as int, p);
    }
}

/// The cursor of a non-empty keystream is periodic: after `2 * len(source)`
/// nibbles it is back where it started, reading the same source byte.
pub proof fn lemma_cursor_period(s: KeyState)
    requires
        valid_state(s),
        s.data.len() > 0,
    ensures
        advance(s, period(s.data)).index == s.index,
        advance(s, period(s.data)).data == s.data,
{
    let p = period(s.data) as int;
    lemma_add_mod_noop(s.index as int, p, p);
    lemma_mod_self_0(p);
    lemma_small_mod(s.index, p as nat);
}

/// An empty source yields zero nibbles forever and never changes state.
pub proof fn lemma_empty_is_silent(s: KeyState, n: nat)
    requires
        s.data.len() == 0,
    ensures
        emit(s, n) == Seq::new(n, |i: int| 0u8),
        advance(s, n) == s,
{
}

proof fn lemma_stream_small(data: Seq<u8>, acc: u8, start: nat, n: nat)
    ensures
        stream(data, acc, start, n).len() == n,
        forall|i: int| 0 <= i < n ==> stream(data, acc, start, n)[i] < 16,
    decreases n,
{
    if n > 0 {
        lemma_stream_small(data, acc, start, (n - 1) as nat);
        let b = keyed(data, acc_after(data, acc, start, (n - 1) as nat), start + n - 1);
        assert(b >> 4u8 < 16u8) by (bit_vector);
        assert(b & 0x0fu8 < 16u8) by (bit_vector);
        let prev = stream(data, acc, start, (n - 1) as nat);
        assert(forall|i: int| 0 <= i < n - 1 ==> stream(data, acc, start, n)[i] == prev[i]);
    }
}

/// Every value a keystream emits is a nibble.
pub proof fn lemma_emit_nibbles(s: KeyState, n: nat)
    ensures
        forall|i: int| 0 <= i < n ==> emit(s, n)[i] < 16,
{
    if s.data.len() > 0 {
        lemma_stream_small(s.data, s.acc, s.index, n);
    }
}

/// An infinite stream of `N` nibbles (where two nibbles make up a byte). The
/// stream cycles through the provided data, and produces all zeroes if that is
/// empty.
pub struct NibbleStream<const N: usize> {
    data: Vec<u8>,
    total: u8,
    index: usize,
    wrap: usize,
}

impl<const N: usize> View for NibbleStream<N> {
    type V = KeyState;

    closed spec fn view(&self) -> KeyState {
        KeyState { data: self.data@, acc: self.total, index: self.index as nat }
    }
}

/// A fresh vector holding the bytes of `data`.
pub fn copy_bytes(data: &[u8]) -> (r: Vec<u8>)
    ensures
        r@ == data@,
{
    let mut v: Vec<u8> = Vec::with_capacity(data.len());
    let mut i: usize = 0;
    while i < data.len()
        invariant
            i <= data@.len(),
            v@ == data@.subrange(0, i as int),
        decreases data@.len() - i,
    {
        v.push(data[i]);
        i = i + 1;
        assert(v@ =~= data@.subrange(0, i as int));
    }
    assert(v@ =~= data@);
    v
}

impl<const N: usize> NibbleStream<N> {
    #[verifier::type_invariant]
    spec fn inv(self) -> bool {
        &&& self.wrap == 2 * self.data@.len()
        &&& valid_state(self@)
    }

    pub fn new(data: &[u8]) -> (r: Self)
        requires
            data@.len() <= usize::MAX / 2,
        ensures
            r@ == (KeyState { data: data@, acc: 0, index: 0 }),
    {
        let v = copy_bytes(data);
        NibbleStream { data: v, total: 0, index: 0, wrap: 2 * data.len() }
    }

    /// A stream over `data` whose cursor continues from this one's, modulo the
    /// new period; the accumulator starts afresh.
    pub fn with_new_data(&self, data: &[u8]) -> (r: Self)
        requires
            data@.len() <= usize::MAX / 2,
        ensures
            r@ == (KeyState {
                data: data@,
                acc: 0,
                index: if data@.len() == 0 { 0 } else { self@.index % period(data@) },
            }),
    {
        let wrap = 2 * data.len();
        let index = if wrap == 0 { 0 } else { self.index % wrap };
        NibbleStream { data: copy_bytes(data), total: 0, index, wrap }
    }

    /// Get the next `N` nibbles from this stream.
    pub fn next_nibbles(&mut self) -> (r: [u8; N])
        ensures
            r@ == emit(old(self)@, N as nat),
            final(self)@ == advance(old(self)@, N as nat),
    {
        proof {
            use_type_invariant(&*self);
        }
        let mut out = [0u8; N];
        if self.data.len() == 0 {
            assert(out@ =~= emit(self@, N as nat));
            return out;
        }
        let ghost d = self.data@;
        let ghost acc0 = self.total;
        let ghost start = self.index as nat;
        let mut acc = self.total;
        let mut pos = self.index;
        let mut i: usize = 0;
        proof {
            lemma_small_mod(start, period(d));
        }
        while i < N
            invariant
                d == self.data@,
                self.wrap == 2 * d.len(),
                d.len() > 0,
                start < period(d),
                0 <= i <= N,
                out@.len() == N,
                pos as int == (start + i) % (period(d) as int),
                acc == acc_after(d, acc0, start, i as nat),
                out@.subrange(0, i as int) == stream(d, acc0, start, i as nat),
            decreases N - i,
        {
            let byte = self.data[pos / 2] ^ acc;
            let nib = if pos % 2 == 0 {
                let rot: u8 = (acc % 8) * 32 + acc / 8;
                acc = ((rot as u16 + byte as u16) % 256) as u8;
                byte >> 4
            } else {
                byte & 0x0f
            };
            out[i] = nib;
            proof {
                lemma_mod_succ(start + i, period(d) as int);
                assert(out@.subrange(0, i + 1) =~= stream(d, acc0, start, (i + 1) as nat));
            }
            pos = if pos + 1 == self.wrap { 0 } else { pos + 1 };
            i = i + 1;
        }
        self.total = acc;
        self.index = pos;
        assert(out@ =~= out@.subrange(0, N as int));
        out
    }
}

impl NibbleStream<1> {
    pub fn next_nibble(&mut self) -> (r: u8)
        ensures
            seq![r] == emit(old(self)@, 1),
            r < 16,
            final(self)@ == advance(old(self)@, 1),
    {
        proof {
            lemma_emit_nibbles(self@, 1);
        }
        let a = self.next_nibbles();
        assert(a@ =~= seq![a[0]]);
        a[0]
    }
}

/// The 32-bit word packed from five nibbles: bytes `n0 n1`, `n2 n3`, `n4 n0`
/// and `(n1 ^ n3) (n2 ^ n4)`, read little-endian.
pub open spec fn coarse_word(n: Seq<u8>) -> u32 {
    let b0 = n[0] * 16 + n[1];
    let b1 = n[2] * 16 + n[3];
    let b2 = n[4] * 16 + n[0];
    let b3 = (n[1] ^ n[3]) * 16 + (n[2] ^ n[4]);
    (b0 + 256 * b1 + 65536 * b2 + 16777216 * b3) as u32
}

impl NibbleStream<5> {
    /// The next five nibbles packed into a 32-bit word; divided by `2^32` it
    /// is the stream's coarse value in `[0, 1)`.
    pub fn next_coarse_word(&mut self) -> (r: u32)
        ensures
            r == coarse_word(emit(old(self)@, 5)),
            final(self)@ == advance(old(self)@, 5),
    {
        proof {
            lemma_emit_nibbles(self@, 5);
        }
        let n = self.next_nibbles();
        let (n0, n1, n2, n3, n4) = (n[0] as u32, n[1] as u32, n[2] as u32, n[3] as u32, n[4] as u32);
        let x13 = (n[1] ^ n[3]) as u32;
        let x24 = (n[2] ^ n[4]) as u32;
        let (a1, a3) = (n[1], n[3]);
        let (a2, a4) = (n[2], n[4]);
        assert((a1 ^ a3) < 16u8 && (a2 ^ a4) < 16u8) by (bit_vector)
            requires
                a1 < 16u8,
                a2 < 16u8,
                a3 < 16u8,
                a4 < 16u8,
        ;
        let b0 = n0 * 16 + n1;
        let b1 = n2 * 16 + n3;
        let b2 = n4 * 16 + n0;
        let b3 = x13 * 16 + x24;
        b0 + 256 * b1 + 65536 * b2 + 16777216 * b3
    }
}

} // verus!
