use vstd::prelude::*;
use vstd::arithmetic::div_mod::{
    lemma_fundamental_div_mod, lemma_fundamental_div_mod_converse, lemma_mod_multiples_vanish, lemma_small_mod,
};
use crate::math::lemma_mod_succ;

verus! {

pub const PENTATONIC_MINOR: [i32; 5] = [3, 2, 2, 3, 2];

pub const MINOR: [i32; 7] = [2, 1, 2, 2, 1, 2, 2];

/// The semitone offset reached by walking `k` steps up a scale from its base,
/// cycling through the steps.
pub open spec fn walk_up(scale: Seq<i32>, k: nat) -> int
    decreases k,
{
    if k == 0 {
        0
    } else {
        walk_up(scale, (k - 1) as nat) + scale[(k - 1) % scale.len() as int]
    }
}

/// The semitone offset reached by walking `k` steps down a scale from its base,
/// starting with the last step and cycling backwards.
pub open spec fn walk_down(scale: Seq<i32>, k: nat) -> int
    decreases k,
{
    if k == 0 {
        0
    } else {
        walk_down(scale, (k - 1) as nat) - scale[scale.len() - 1 - (k - 1) % scale.len() as int]
    }
}

/// The semitone offset of scale degree `n` (negative degrees lie below the base).
pub open spec fn scale_offset(scale: Seq<i32>, n: int) -> int {
    if n >= 0 {
        walk_up(scale, n as nat)
    } else {
        walk_down(scale, (-n) as nat)
    }
}

/// Pitch `p` moved by whole octaves into the octave `[base, base + 12)`.
pub open spec fn octave_fold(base: int, p: int) -> int {
    base + (p - base) % 12
}

/// Whether walking `k` steps up the scale from `base` lands on `target`.
pub open spec fn lands_on(base: int, scale: Seq<i32>, k: nat, target: int) -> bool {
    base + walk_up(scale, k) == target
}

/// The scale degree (within one octave of steps) of pitch `p` in the scale
/// based at `base`: found by folding `p` into the octave above `base` and
/// walking up from `base`. `None` when the walk steps over it.
pub open spec fn scale_degree(base: int, scale: Seq<i32>, p: int) -> Option<nat> {
    if exists|k: nat| lands_on(base, scale, k, octave_fold(base, p)) {
        let k = choose|k: nat| lands_on(base, scale, k, octave_fold(base, p));
        Some((k as int % scale.len() as int) as nat)
    } else {
        None
    }
}

/// A degree as an index.
pub open spec fn as_index(degree: Option<nat>) -> Option<usize> {
    match degree {
        Some(k) => Some(k as usize),
        None => None,
    }
}

/// Every step of the scale rises.
pub open spec fn rising(scale: Seq<i32>) -> bool {
    forall|i: int| 0 <= i < scale.len() ==> scale[i] >= 1
}

/// A pitch is an exponential frequency. Represented as a semi-tone offset from
/// A4.
#[derive(Clone, Copy, Debug, PartialEq, Eq, Hash, Structural)]
pub struct Pitch(pub i32);

/// One octave, twelve semitones.
#[derive(Clone, Copy, Debug, PartialEq, Eq, Hash, Structural)]
pub struct Octave;

proof fn lemma_walk_bound(scale: Seq<i32>, k: nat)
    requires
        scale.len() > 0,
    ensures
        -k * 0x8000_0000 <= walk_up(scale, k) <= k * 0x8000_0000,
        -k * 0x8000_0000 <= walk_down(scale, k) <= k * 0x8000_0000,
    decreases k,
{
    if k > 0 {
        lemma_walk_bound(scale, (k - 1) as nat);
    }
}

proof fn lemma_walk_rises(scale: Seq<i32>, j: nat, k: nat)
    requires
        scale.len() > 0,
        rising(scale),
        j <= k,
    ensures
        walk_up(scale, j) + (k - j) <= walk_up(scale, k),
    decreases k,
{
    if j < k {
        lemma_walk_rises(scale, j, (k - 1) as nat);
    }
}

proof fn lemma_walk_period(scale: Seq<i32>, k: nat)
    requires
        scale.len() > 0,
    ensures
        walk_up(scale, k) == (k as int / scale.len() as int) * walk_up(scale, scale.len())
            + walk_up(scale, (k as int % scale.len() as int) as nat),
    decreases k,
{
    let l = scale.len() as int;
    let t = walk_up(scale, scale.len());
    if k == 0 {
        lemma_fundamental_div_mod_converse(0, l, 0, 0);
    } else {
        lemma_walk_period(scale, (k - 1) as nat);
        let q = (k - 1) as int / l;
        let r = (k - 1) as int % l;
        lemma_fundamental_div_mod((k - 1) as int, l);
        lemma_small_mod(r as nat, l as nat);
        assert(walk_up(scale, k) == q * t + walk_up(scale, r as nat) + scale[r]);
        if r + 1 < l {
            assert(k as int == q * l + (r + 1)) by (nonlinear_arith)
                requires
                    (k - 1) as int == l * q + r,
            ;
            lemma_fundamental_div_mod_converse(k as int, l, q, r + 1);
            assert(walk_up(scale, (r + 1) as nat) == walk_up(scale, r as nat) + scale[r]);
        } else {
            assert(k as int == (q + 1) * l + 0) by (nonlinear_arith)
                requires
                    (k - 1) as int == l * q + r,
                    r + 1 == l,
            ;
            lemma_fundamental_div_mod_converse(k as int, l, q + 1, 0);
            assert(t == walk_up(scale, r as nat) + scale[r]);
            assert((q + 1) * t == q * t + t) by (nonlinear_arith);
        }
    }
}

proof fn lemma_walk_down_closed(scale: Seq<i32>, m: nat)
    requires
        scale.len() > 0,
    ensures
        walk_down(scale, m) == ((-m) / scale.len() as int) * walk_up(scale, scale.len())
            + walk_up(scale, ((-m) % scale.len() as int) as nat),
    decreases m,
{
    let l = scale.len() as int;
    let t = walk_up(scale, scale.len());
    if m == 0 {
        lemma_fundamental_div_mod_converse(0, l, 0, 0);
    } else {
        let m0 = (m - 1) as nat;
        lemma_walk_down_closed(scale, m0);
        let qm = m0 as int / l;
        let rm = m0 as int % l;
        lemma_fundamental_div_mod(m0 as int, l);
        // -m = -m0 - 1 = (-qm - 1) * l + (l - 1 - rm)
        assert(-(m as int) == (-qm - 1) * l + (l - 1 - rm)) by (nonlinear_arith)
            requires
                m0 as int == l * qm + rm,
                m == m0 + 1,
        ;
        lemma_fundamental_div_mod_converse(-(m as int), l, -qm - 1, l - 1 - rm);
        lemma_small_mod((l - 1 - rm) as nat, l as nat);
        assert(walk_down(scale, m) == walk_down(scale, m0) - scale[l - 1 - rm]);
        if rm == 0 {
            assert(-(m0 as int) == (-qm) * l + 0) by (nonlinear_arith)
                requires
                    m0 as int == l * qm + rm,
                    rm == 0,
            ;
            lemma_fundamental_div_mod_converse(-(m0 as int), l, -qm, 0);
            assert((-qm - 1) * t == (-qm) * t - t) by (nonlinear_arith);
            assert(t == walk_up(scale, (l - 1) as nat) + scale[l - 1]);
        } else {
            assert(-(m0 as int) == (-qm - 1) * l + (l - rm)) by (nonlinear_arith)
                requires
                    m0 as int == l * qm + rm,
            ;
            lemma_fundamental_div_mod_converse(-(m0 as int), l, -qm - 1, l - rm);
            lemma_small_mod((l - 1 - rm) as nat, l as nat);
            assert(walk_up(scale, (l - rm) as nat) == walk_up(scale, (l - 1 - rm) as nat) + scale[l
                - 1 - rm]);
        }
    }
}

proof fn lemma_offset_closed(scale: Seq<i32>, n: int)
    requires
        scale.len() > 0,
    ensures
        scale_offset(scale, n) == (n / scale.len() as int) * walk_up(scale, scale.len())
            + walk_up(scale, (n % scale.len() as int) as nat),
{
    if n >= 0 {
        lemma_walk_period(scale, n as nat);
    } else {
        lemma_walk_down_closed(scale, (-n) as nat);
    }
}

/// For any base pitch and any scale of rising steps spanning one octave,
/// `scale_number` undoes `in_scale`: the pitch of degree `n` has scale number
/// `n` modulo the number of steps.
pub proof fn lemma_scale_round_trip(base: int, scale: Seq<i32>, n: int)
    requires
        scale.len() > 0,
        rising(scale),
        walk_up(scale, scale.len()) == 12,
    ensures
        scale_degree(base, scale, base + scale_offset(scale, n)) == Some(
            (n % scale.len() as int) as nat,
        ),
{
    let l = scale.len() as int;
    let q = n / l;
    let r = n % l;
    let p = base + scale_offset(scale, n);
    let t = octave_fold(base, p);
    lemma_offset_closed(scale, n);
    lemma_walk_rises(scale, r as nat, scale.len());
    let w = walk_up(scale, r as nat);
    lemma_walk_rises(scale, 0, r as nat);
    // p - base == 12 * q + w with 0 <= w < 12, so the fold lands on base + w
    assert(p - base == 12 * q + w) by (nonlinear_arith)
        requires
            p - base == q * 12 + w,
    ;
    lemma_fundamental_div_mod_converse(p - base, 12, q, w);
    assert(t == base + w);
    assert(lands_on(base, scale, r as nat, t));
    let c = choose|c: nat| lands_on(base, scale, c, t);
    if c < r {
        lemma_walk_rises(scale, c, r as nat);
    } else if c > r {
        lemma_walk_rises(scale, r as nat, c);
    }
    assert(c == r);
    lemma_small_mod(r as nat, l as nat);
}

/// The minor scale spans one octave.
pub proof fn lemma_minor_octave()
    ensures
        rising(MINOR@),
        walk_up(MINOR@, 7) == 12,
{
    let m = MINOR@;
    assert(m.len() == 7 && m[0] == 2 && m[1] == 1 && m[2] == 2 && m[3] == 2 && m[4] == 1 && m[5]
        == 2 && m[6] == 2);
    assert(walk_up(m, 0) == 0);
    assert(walk_up(m, 1) == 2);
    assert(walk_up(m, 2) == 3);
    assert(walk_up(m, 3) == 5);
    assert(walk_up(m, 4) == 7);
    assert(walk_up(m, 5) == 8);
    assert(walk_up(m, 6) == 10);
    assert(walk_up(m, 7) == 12);
}

/// The pentatonic minor scale spans one octave.
pub proof fn lemma_pentatonic_octave()
    ensures
        rising(PENTATONIC_MINOR@),
        walk_up(PENTATONIC_MINOR@, 5) == 12,
{
    let m = PENTATONIC_MINOR@;
    assert(m.len() == 5 && m[0] == 3 && m[1] == 2 && m[2] == 2 && m[3] == 3 && m[4] == 2);
    assert(walk_up(m, 0) == 0);
    assert(walk_up(m, 1) == 3);
    assert(walk_up(m, 2) == 5);
    assert(walk_up(m, 3) == 7);
    assert(walk_up(m, 4) == 10);
    assert(walk_up(m, 5) == 12);
}

impl Pitch {
    /// A2, two octaves below the reference pitch.
    pub fn a2() -> (r: Pitch)
        ensures
            r.0 == -24,
    {
        Pitch(-24)
    }

    pub fn minor_scale_number(&self, pitch: Pitch) -> (r: Option<usize>)
        ensures
            r == as_index(scale_degree(self.0 as int, MINOR@, pitch.0 as int)),
    {
        let scale = MINOR;
        assert(rising(scale@));
        self.scale_number(pitch, &scale)
    }

    pub fn pentatonic_minor_scale_number(&self, pitch: Pitch) -> (r: Option<usize>)
        ensures
            r == as_index(scale_degree(self.0 as int, PENTATONIC_MINOR@, pitch.0 as int)),
    {
        let scale = PENTATONIC_MINOR;
        assert(rising(scale@));
        self.scale_number(pitch, &scale)
    }

    pub fn in_minor(&self, n: i32) -> (r: Pitch)
        requires
            n > i32::MIN,
            i32::MIN <= self.0 + scale_offset(MINOR@, n as int) <= i32::MAX,
        ensures
            r.0 == self.0 + scale_offset(MINOR@, n as int),
    {
        let scale = MINOR;
        self.in_scale(n, &scale)
    }

    pub fn in_pentatonic_minor(&self, n: i32) -> (r: Pitch)
        requires
            n > i32::MIN,
            i32::MIN <= self.0 + scale_offset(PENTATONIC_MINOR@, n as int) <= i32::MAX,
        ensures
            r.0 == self.0 + scale_offset(PENTATONIC_MINOR@, n as int),
    {
        let scale = PENTATONIC_MINOR;
        self.in_scale(n, &scale)
    }

    /// Get the pitch that is the `n`th note in the given scale with this note
    /// as its base.
    pub fn in_scale(&self, n: i32, scale: &[i32]) -> (r: Pitch)
        requires
            scale@.len() > 0,
            n > i32::MIN,
            i32::MIN <= self.0 + scale_offset(scale@, n as int) <= i32::MAX,
        ensures
            r.0 == self.0 + scale_offset(scale@, n as int),
    {
        let len = scale.len();
        let down = n < 0;
        let count: u32 = if down { (-n) as u32 } else { n as u32 };
        let mut step_index: usize = if down { len - 1 } else { 0 };
        let mut pitch_offset: i64 = 0;
        let mut k: u32 = 0;
        while k < count
            invariant
                len == scale@.len(),
                len > 0,
                count as int == if down { -(n as int) } else { n as int },
                k <= count,
                count <= 0x8000_0000,
                step_index == if down {
                    len - 1 - (k as int) % (len as int)
                } else {
                    (k as int) % (len as int)
                },
                pitch_offset == if down {
                    walk_down(scale@, k as nat)
                } else {
                    walk_up(scale@, k as nat)
                },
            decreases count - k,
        {
            proof {
                lemma_walk_bound(scale@, k as nat);
                lemma_mod_succ(k as int, len as int);
                assert(k * 0x8000_0000 <= 0x8000_0000 * 0x8000_0000) by (nonlinear_arith)
                    requires
                        k <= 0x8000_0000,
                ;
            }
            let step = scale[step_index];
            if down {
                pitch_offset = pitch_offset - step as i64;
                step_index = if step_index == 0 { len - 1 } else { step_index - 1 };
            } else {
                pitch_offset = pitch_offset + step as i64;
                step_index = if step_index + 1 == len { 0 } else { step_index + 1 };
            }
            k = k + 1;
        }
        Pitch((self.0 as i64 + pitch_offset) as i32)
    }

    /// Get the scale number for the given pitch in the scale with this one as
    /// its base note.
    pub fn scale_number(&self, pitch: Pitch, scale: &[i32]) -> (r: Option<usize>)
        requires
            scale@.len() > 0,
            rising(scale@),
        ensures
            r == as_index(scale_degree(self.0 as int, scale@, pitch.0 as int)),
    {
        let len = scale.len();
        let diff: i64 = pitch.0 as i64 - self.0 as i64;
        proof {
            lemma_mod_multiples_vanish(0x2000_0000, diff as int, 12);
        }
        let above: i64 = (diff + 12 * 0x2000_0000) % 12;
        let target: i64 = self.0 as i64 + above;
        let ghost t = octave_fold(self.0 as int, pitch.0 as int);
        assert(target == t);

        let mut step_index: usize = 0;
        let mut pitch_offset: i64 = self.0 as i64;
        let ghost mut k: nat = 0;
        while pitch_offset < target
            invariant
                len == scale@.len(),
                len > 0,
                rising(scale@),
                target == t,
                t <= 0x1_0000_0000,
                step_index == (k as int) % (len as int),
                pitch_offset == self.0 + walk_up(scale@, k),
                pitch_offset <= t + 0x8000_0000,
                forall|j: nat| j < k ==> self.0 + walk_up(scale@, j) < t,
            decreases if pitch_offset < t { t - pitch_offset } else { 0 },
        {
            proof {
                lemma_mod_succ(k as int, len as int);
            }
            let step = scale[step_index];
            assert(step >= 1);
            step_index = if step_index + 1 == len { 0 } else { step_index + 1 };
            pitch_offset = pitch_offset + step as i64;
            proof {
                k = k + 1;
            }
        }
        proof {
            if pitch_offset == target {
                assert(lands_on(self.0 as int, scale@, k, t));
                let c = choose|c: nat| lands_on(self.0 as int, scale@, c, t);
                if c < k {
                    assert(self.0 + walk_up(scale@, c) < t);
                } else if c > k {
                    lemma_walk_rises(scale@, k, c);
                }
                assert(c == k);
            } else {
                assert forall|c: nat| !lands_on(self.0 as int, scale@, c, t) by {
                    if c < k {
                        assert(self.0 + walk_up(scale@, c) < t);
                    } else {
                        lemma_walk_rises(scale@, k, c);
                    }
                }
            }
        }
        if pitch_offset == target {
            Some(step_index)
        } else {
            None
        }
    }

    /// The pitch `semitones` above this one.
    pub fn transposed(&self, semitones: i32) -> (r: Pitch)
        requires
            i32::MIN <= self.0 + semitones <= i32::MAX,
        ensures
            r.0 == self.0 + semitones,
    {
        Pitch(self.0 + semitones)
    }

    /// The pitch one octave above this one.
    pub fn octave_up(&self, _octave: Octave) -> (r: Pitch)
        requires
            self.0 + 12 <= i32::MAX,
        ensures
            r.0 == self.0 + 12,
    {
        Pitch(self.0 + 12)
    }

    /// The pitch one octave below this one.
    pub fn octave_down(&self, _octave: Octave) -> (r: Pitch)
        requires
            self.0 - 12 >= i32::MIN,
        ensures
            r.0 == self.0 - 12,
    {
        Pitch(self.0 - 12)
    }
}

} // verus!
