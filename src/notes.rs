use vstd::prelude::*;

pub mod duration;
pub mod pitch;

pub use self::duration::Duration;
pub use self::pitch::{Octave, Pitch};

use crate::bytes::{emit, NibbleStream};
use self::duration::dotted_len;
use self::pitch::{scale_offset, walk_down, walk_up, PENTATONIC_MINOR};

verus! {

#[derive(Clone, Copy, Debug, PartialEq, Eq, Structural)]
pub struct Note {
    pub pitch: Option<Pitch>,
    pub duration: Duration,
}

impl Note {
    /// The shortest rest.
    pub fn small_silent() -> (r: Note)
        ensures
            r.pitch.is_none(),
            r.duration.0 == 1,
    {
        Note { pitch: None, duration: Duration::delta() }
    }
}

/// The duration, in thirty-second notes, encoded by nibble `b`: a sixteenth,
/// tripled if bit 3 is set, doubled if bit 2 is set, dotted if bit 0 is set.
pub open spec fn nibble_duration(b: u8) -> int {
    let d = 2int;
    let d = if b & 8 != 0 { d * 3 } else { d };
    let d = if b & 4 != 0 { d * 2 } else { d };
    if b & 1 != 0 { dotted_len(d) } else { d }
}

/// The scale degree encoded by nibble `c` as a signed 4-bit number.
pub open spec fn nibble_degree(c: u8) -> int {
    (c & 7) as int - if c & 8 != 0 { 8int } else { 0 }
}

/// The note decoded from three nibbles: `a` silences it when zero, `b` gives
/// the duration and `c` the degree in the pentatonic minor scale over `base`.
pub open spec fn decode_note(base: Pitch, a: u8, b: u8, c: u8) -> Note {
    Note {
        pitch: if a != 0 {
            Some(Pitch((base.0 + scale_offset(PENTATONIC_MINOR@, nibble_degree(c))) as i32))
        } else {
            None
        },
        duration: Duration(nibble_duration(b) as usize),
    }
}

/// Walking at most eight steps of the pentatonic minor scale moves at most 24
/// semitones.
proof fn lemma_pentatonic_reach(k: nat)
    requires
        k <= 8,
    ensures
        0 <= walk_up(PENTATONIC_MINOR@, k) <= 3 * k,
        -3 * k <= walk_down(PENTATONIC_MINOR@, k) <= 0,
    decreases k,
{
    if k > 0 {
        lemma_pentatonic_reach((k - 1) as nat);
    }
}

impl NibbleStream<3> {
    /// Decode the next note from three nibbles of this stream.
    pub fn next_note(&mut self, base: Pitch) -> (r: Note)
        requires
            i32::MIN + 24 <= base.0 <= i32::MAX - 24,
        ensures
            r == decode_note(base, emit(old(self)@, 3)[0], emit(old(self)@, 3)[1], emit(old(self)@, 3)[2]),
            final(self)@ == crate::bytes::advance(old(self)@, 3),
    {
        let nibbles = self.next_nibbles();
        let a = nibbles[0];
        let b = nibbles[1];
        let c = nibbles[2];
        let noisy = a != 0;

        let mut duration = Duration::sixteenth();
        if b & 8 != 0 {
            duration = duration.times(3);
        }
        if b & 4 != 0 {
            duration = duration.times(2);
        }
        if b & 1 != 0 {
            duration = duration.dotted();
        }

        let degree: i32 = (c & 7) as i32 + if c & 8 != 0 { -8 } else { 0 };
        proof {
            assert(-8 <= degree <= 7) by (bit_vector)
                requires
                    degree == (c & 7) as i32 + if c & 8 != 0 { -8i32 } else { 0 },
            ;
            if degree >= 0 {
                lemma_pentatonic_reach(degree as nat);
            } else {
                lemma_pentatonic_reach((-degree) as nat);
            }
        }
        let pitch = base.in_pentatonic_minor(degree);

        Note { pitch: if noisy { Some(pitch) } else { None }, duration }
    }
}

} // verus!
