use vstd::prelude::*;

use crate::notes::pitch::scale_degree;
use crate::notes::pitch::PENTATONIC_MINOR;
use crate::notes::{Duration, Note, Pitch};

verus! {

// 0 2  3 5 7  8 10
// C D Eb F G Ab Bb C
// C   Eb F G    Bb C
//
// C  Eb G  =  0  3  7
// Eb G  Bb =  3  7 10
// F  Ab C  =  0  5  8
// G  Bb D  =  2  7 10
// Bb D  F  =  2  5 10
pub const PENTATONIC_MINOR_CHORDS: [[i32; 3]; 5] = [
    [0, 3, 7],
    [3, 7, 10],
    [0, 5, 8],
    [2, 7, 10],
    [2, 5, 10],
];

#[derive(Clone, Copy, Debug, PartialEq, Eq, Hash, Structural)]
pub enum Direction {
    Up,
    Down,
    PingPong,
}

/// The first step taken in direction `d`.
pub open spec fn first_step(d: Direction) -> int {
    match d {
        Direction::Down => -1,
        _ => 1,
    }
}

impl Direction {
    fn with_step(self) -> (r: (Self, isize))
        ensures
            r.0 == self,
            r.1 == first_step(self),
    {
        let step: isize = match self {
            Direction::Up => 1,
            Direction::Down => -1,
            Direction::PingPong => 1,
        };
        (self, step)
    }
}

/// The mathematical state of a sequence: its notes, position, direction and
/// current step (+1 or -1).
pub struct SeqState {
    pub notes: Seq<Note>,
    pub at: nat,
    pub dir: Direction,
    pub step: int,
}

/// The state after playing the note at the current position: up and down
/// wrap around; ping-pong turns back at either end.
pub open spec fn next_state(s: SeqState) -> SeqState {
    let len = s.notes.len() as int;
    let step = if s.dir == Direction::PingPong && (s.at + s.step == len || s.at + s.step == -1) {
        -s.step
    } else {
        s.step
    };
    SeqState { at: ((s.at + step) % len) as nat, step, ..s }
}

/// The notes of chord `degree` of the pentatonic minor scale over `base`.
pub open spec fn arp_notes(base: Pitch, degree: int, duration: Duration) -> Seq<Note> {
    PENTATONIC_MINOR_CHORDS@[degree]@.map_values(
        |n: i32| Note { pitch: Some(Pitch((base.0 + n) as i32)), duration },
    )
}

#[derive(Debug)]
pub struct Sequence {
    notes: Vec<Note>,
    at: usize,
    dir: (Direction, isize),
}

impl View for Sequence {
    type V = SeqState;

    closed spec fn view(&self) -> SeqState {
        SeqState { notes: self.notes@, at: self.at as nat, dir: self.dir.0, step: self.dir.1 as int }
    }
}

/// A state is valid when its position is among the notes (or zero when there
/// are none) and its step is one either way.
pub open spec fn valid_seq(s: SeqState) -> bool {
    &&& (s.notes.len() == 0 && s.at == 0) || s.at < s.notes.len()
    &&& s.step == 1 || s.step == -1
    &&& s.notes.len() <= isize::MAX
}

impl Sequence {
    pub fn new(notes: Vec<Note>, dir: Direction) -> (r: Self)
        requires
            notes@.len() <= isize::MAX,
        ensures
            r@ == (SeqState { notes: notes@, at: 0, dir, step: first_step(dir) }),
            valid_seq(r@),
    {
        Sequence { notes, at: 0, dir: dir.with_step() }
    }

    /// Generate an arpeggiating sequence, given a `note` in the pentatonic
    /// minor scale starting at `base`.
    pub fn new_arp(base: Pitch, note: Pitch, dir: Direction, duration: Duration) -> (r: Option<Self>)
        requires
            base.0 + 10 <= i32::MAX,
            base.0 >= i32::MIN,
        ensures
            r.is_some() == scale_degree(base.0 as int, PENTATONIC_MINOR@, note.0 as int).is_some(),
            r.is_some() ==> valid_seq(r.unwrap()@) && r.unwrap()@ == (SeqState {
                notes: arp_notes(
                    base,
                    scale_degree(base.0 as int, PENTATONIC_MINOR@, note.0 as int).unwrap() as int,
                    duration,
                ),
                at: 0,
                dir,
                step: first_step(dir),
            }),
    {
        let degree = match base.pentatonic_minor_scale_number(note) {
            Some(d) => d,
            None => return None,
        };
        let chord = PENTATONIC_MINOR_CHORDS[degree];
        let ghost c = PENTATONIC_MINOR_CHORDS@[degree as int]@;
        assert(forall|i: int| 0 <= i < 3 ==> 0 <= #[trigger] c[i] <= 10);
        let mut notes: Vec<Note> = Vec::with_capacity(3);
        let mut i: usize = 0;
        while i < 3
            invariant
                i <= 3,
                chord@ == c,
                base.0 + 10 <= i32::MAX,
                forall|j: int| 0 <= j < 3 ==> 0 <= #[trigger] c[j] <= 10,
                notes@ == c.subrange(0, i as int).map_values(
                    |n: i32| Note { pitch: Some(Pitch((base.0 + n) as i32)), duration },
                ),
            decreases 3 - i,
        {
            notes.push(Note { pitch: Some(base.transposed(chord[i])), duration });
            i = i + 1;
            assert(notes@ =~= c.subrange(0, i as int).map_values(
                |n: i32| Note { pitch: Some(Pitch((base.0 + n) as i32)), duration },
            ));
        }
        assert(c.subrange(0, 3) =~= c);
        Some(Sequence { notes, at: 0, dir: dir.with_step() })
    }

    /// Play the note at the current position and move on; `None` for an empty
    /// sequence.
    pub fn next_note(&mut self) -> (r: Option<Note>)
        requires
            valid_seq(old(self)@),
        ensures
            valid_seq(final(self)@),
            old(self)@.notes.len() == 0 ==> r.is_none() && final(self)@ == old(self)@,
            old(self)@.notes.len() > 0 ==> r == Some(old(self)@.notes[old(self)@.at as int])
                && final(self)@ == next_state(old(self)@),
    {
        if self.at >= self.notes.len() {
            return None;
        }
        let current = self.notes[self.at];
        let at = self.at as isize;
        let len = self.notes.len() as isize;
        let step = match self.dir.0 {
            Direction::PingPong => {
                if at + self.dir.1 == len || at + self.dir.1 == -1 {
                    -self.dir.1
                } else {
                    self.dir.1
                }
            },
            _ => self.dir.1,
        };
        self.dir.1 = step;
        let t = at + step;
        self.at = if t == len {
            0
        } else if t == -1 {
            (len - 1) as usize
        } else {
            t as usize
        };
        proof {
            if 0 <= t < len {
                vstd::arithmetic::div_mod::lemma_small_mod(t as nat, len as nat);
            }
            if t == len {
                vstd::arithmetic::div_mod::lemma_mod_self_0(len as int);
            }
            if t == -1 {
                vstd::arithmetic::div_mod::lemma_fundamental_div_mod_converse(-1, len as int, -1, len - 1);
            }
        }
        Some(current)
    }
}

} // verus!
