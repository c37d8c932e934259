use vstd::prelude::*;

pub mod group;

pub use self::group::VoiceGroup;

use crate::envelope::AttackDecay;
use crate::notes::{Note, Pitch};

verus! {

/// One voice of a polyphonic group: the note it sounds, if any, and its
/// envelope.
#[derive(Clone, Copy, Debug, PartialEq, Eq, Structural)]
pub struct Voice {
    pub note: Option<Note>,
    pub env: AttackDecay,
}

/// The note left after one step of the smallest duration: it shortens by one
/// unless it is already at the shortest non-zero length.
pub open spec fn shortened(note: Option<Note>) -> Option<Note> {
    match note {
        Some(n) => if n.duration.0 < 2 {
            Some(n)
        } else {
            Some(Note { duration: crate::notes::Duration((n.duration.0 - 1) as usize), ..n })
        },
        None => None,
    }
}

impl Voice {
    pub fn new(env: AttackDecay) -> (r: Self)
        ensures
            r == (Voice { note: None, env }),
    {
        Voice { note: None, env }
    }

    /// Get the current pitch for this voice, if any.
    pub fn pitch(&self) -> (r: Option<Pitch>)
        ensures
            r == match self.note {
                Some(n) => n.pitch,
                None => None,
            },
    {
        match self.note {
            Some(n) => n.pitch,
            None => None,
        }
    }

    /// Step the envelope forward `by` ticks.
    pub fn step(&mut self, by: u64)
        ensures
            final(self).note == old(self).note,
            final(self).env == (AttackDecay {
                value: if old(self).env.value + by > u64::MAX {
                    u64::MAX
                } else {
                    (old(self).env.value + by) as u64
                },
                ..old(self).env
            }),
    {
        self.env.step(by);
    }

    /// Move one smallest duration forwards in time. A note never shortens
    /// below that smallest duration: it keeps sounding until its envelope ends.
    pub fn delta_step(&mut self)
        ensures
            final(self).note == shortened(old(self).note),
            final(self).env == old(self).env,
    {
        if let Some(note) = self.note {
            if let Some(duration) = note.duration.decrement() {
                self.note = Some(Note { pitch: note.pitch, duration });
            }
        }
    }

    pub fn is_done(&self) -> (r: bool)
        ensures
            r == (self.env.value >= self.env.decay_cumulative),
    {
        self.env.is_done()
    }

    /// Sound `note` on this voice, restarting its envelope.
    pub fn replace(&mut self, note: Note)
        ensures
            final(self).note == Some(note),
            final(self).env == (AttackDecay { value: 0, ..old(self).env }),
    {
        self.note = Some(note);
        self.env.reset();
    }
}

} // verus!
