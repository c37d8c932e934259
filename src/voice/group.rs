use vstd::prelude::*;

use crate::envelope::AttackDecay;
use crate::notes::Note;

use super::{shortened, Voice};

verus! {

/// The voice has finished its envelope and can take a new note.
pub open spec fn voice_done(v: Voice) -> bool {
    v.env.value >= v.env.decay_cumulative
}

/// The voice sounding `note` from the start of its envelope.
pub open spec fn retriggered(v: Voice, note: Note) -> Voice {
    Voice { note: Some(note), env: AttackDecay { value: 0, ..v.env } }
}

/// The voice after one smallest duration: silent voices are left alone.
pub open spec fn duration_stepped(v: Voice) -> Voice {
    if voice_done(v) {
        v
    } else {
        Voice { note: shortened(v.note), ..v }
    }
}

/// `i` is the first voice that is done.
pub open spec fn is_first_done(voices: Seq<Voice>, i: int) -> bool {
    &&& 0 <= i < voices.len()
    &&& voice_done(voices[i])
    &&& forall|j: int| 0 <= j < i ==> !voice_done(voices[j])
}

/// The voices and the round-robin position after adding `note`: the first
/// voice that is done takes it; if none is, the voice at the round-robin
/// position is retriggered and the position moves on.
pub open spec fn add_note(voices: Seq<Voice>, at: nat, note: Note) -> (Seq<Voice>, nat) {
    if exists|i: int| 0 <= i < voices.len() && voice_done(voices[i]) {
        let i = choose|i: int| is_first_done(voices, i);
        (voices.update(i, retriggered(voices[i], note)), at)
    } else if voices.len() > 0 {
        (
            voices.update(at as int, retriggered(voices[at as int], note)),
            ((at + 1) as int % voices.len() as int) as nat,
        )
    } else {
        (voices, at)
    }
}

/// The indices of the voices still sounding, in order.
pub open spec fn active_indices(voices: Seq<Voice>, n: nat) -> Seq<usize>
    decreases n,
{
    if n == 0 {
        seq![]
    } else {
        active_indices(voices, (n - 1) as nat) + if voice_done(voices[n - 1]) {
            seq![]
        } else {
            seq![(n - 1) as usize]
        }
    }
}

/// A fixed-size pool of voices.
pub struct VoiceGroup {
    voices: Vec<Voice>,
    at: usize,
}

impl View for VoiceGroup {
    /// The voices and the round-robin position.
    type V = (Seq<Voice>, nat);

    closed spec fn view(&self) -> (Seq<Voice>, nat) {
        (self.voices@, self.at as nat)
    }
}

/// The round-robin position lies among the voices.
pub open spec fn valid_group(g: (Seq<Voice>, nat)) -> bool {
    g.0.len() == 0 && g.1 == 0 || g.1 < g.0.len()
}

/// With a single voice, a second note added while the first still sounds
/// retriggers that same voice rather than being dropped.
pub proof fn lemma_single_voice_retriggers(v: Voice, first: Note, second: Note)
    ensures
        add_note(add_note(seq![v], 0, first).0, add_note(seq![v], 0, first).1, second) == (
            seq![retriggered(v, second)],
            0nat,
        ),
{
    let g1 = add_note(seq![v], 0, first);
    if voice_done(v) {
        assert(is_first_done(seq![v], 0));
    }
    assert(g1.0 =~= seq![retriggered(v, first)]);
    assert(g1.1 == 0);
    let w = g1.0[0];
    if voice_done(w) {
        assert(is_first_done(g1.0, 0));
    }
    assert(add_note(g1.0, g1.1, second).0 =~= seq![retriggered(v, second)]);
}

impl VoiceGroup {
    pub fn new(voices: usize, env: AttackDecay) -> (r: Self)
        ensures
            r@ == (Seq::new(voices as nat, |i: int| Voice { note: None, env }), 0nat),
    {
        let mut v: Vec<Voice> = Vec::with_capacity(voices);
        let mut i: usize = 0;
        while i < voices
            invariant
                i <= voices,
                v@ == Seq::new(i as nat, |j: int| Voice { note: None, env }),
            decreases voices - i,
        {
            v.push(Voice::new(env));
            i = i + 1;
            assert(v@ =~= Seq::new(i as nat, |j: int| Voice { note: None, env }));
        }
        VoiceGroup { voices: v, at: 0 }
    }

    /// The round-robin position is valid.
    pub open spec fn wf(&self) -> bool {
        valid_group(self@)
    }

    /// Add a note to one of the voices in this group.
    pub fn add(&mut self, note: Note)
        requires
            old(self).wf(),
        ensures
            final(self).wf(),
            final(self)@ == add_note(old(self)@.0, old(self)@.1, note),
    {
        let len = self.voices.len();
        let mut i: usize = 0;
        while i < len
            invariant
                len == self.voices@.len(),
                i <= len,
                self.voices@ == old(self)@.0,
                self.at == old(self)@.1,
                valid_group(old(self)@),
                forall|j: int| 0 <= j < i ==> !voice_done(self.voices@[j]),
            decreases len - i,
        {
            if self.voices[i].is_done() {
                let mut v = self.voices[i];
                v.replace(note);
                let ghost before = self.voices@;
                proof {
                    assert(voice_done(before[i as int]));
                    assert(is_first_done(before, i as int));
                    let c = choose|c: int| is_first_done(before, c);
                    if c < i {
                    } else if c > i {
                        assert(!voice_done(before[i as int]));
                    }
                }
                self.voices.set(i, v);
                return;
            }
            i = i + 1;
        }
        if len > 0 {
            let mut v = self.voices[self.at];
            v.replace(note);
            self.voices.set(self.at, v);
            self.at = if self.at + 1 == len { 0 } else { self.at + 1 };
            proof {
                crate::math::lemma_mod_succ(old(self).at as int, len as int);
                vstd::arithmetic::div_mod::lemma_small_mod(old(self).at as nat, len as nat);
            }
        }
    }

    /// Shorten the note of every sounding voice by one smallest duration.
    pub fn step_durations(&mut self)
        requires
            old(self).wf(),
        ensures
            final(self).wf(),
            final(self)@.1 == old(self)@.1,
            final(self)@.0 == old(self)@.0.map_values(|v: Voice| duration_stepped(v)),
    {
        let len = self.voices.len();
        let ghost before = self.voices@;
        let mut i: usize = 0;
        while i < len
            invariant
                len == self.voices@.len(),
                len == before.len(),
                i <= len,
                self.at == old(self).at,
                forall|j: int| 0 <= j < i ==> self.voices@[j] == duration_stepped(before[j]),
                forall|j: int| i <= j < len ==> self.voices@[j] == before[j],
            decreases len - i,
        {
            let mut v = self.voices[i];
            if !v.is_done() {
                v.delta_step();
            }
            self.voices.set(i, v);
            i = i + 1;
        }
        assert(self.voices@ =~= before.map_values(|v: Voice| duration_stepped(v)));
    }

    /// Advance the envelope of voice `i` by `by` ticks.
    pub fn step_voice(&mut self, i: usize, by: u64)
        requires
            old(self).wf(),
            i < old(self)@.0.len(),
        ensures
            final(self).wf(),
            final(self)@.1 == old(self)@.1,
            final(self)@.0 == old(self)@.0.update(
                i as int,
                Voice {
                    env: AttackDecay {
                        value: if old(self)@.0[i as int].env.value + by > u64::MAX {
                            u64::MAX
                        } else {
                            (old(self)@.0[i as int].env.value + by) as u64
                        },
                        ..old(self)@.0[i as int].env
                    },
                    ..old(self)@.0[i as int]
                },
            ),
    {
        let mut v = self.voices[i];
        v.step(by);
        self.voices.set(i, v);
    }

    /// The indices of the voices that are not done, in order; silent voices
    /// need no synthesis.
    pub fn active(&self) -> (r: Vec<usize>)
        ensures
            r@ == active_indices(self@.0, self@.0.len()),
    {
        let mut r: Vec<usize> = Vec::new();
        let mut i: usize = 0;
        while i < self.voices.len()
            invariant
                i <= self.voices@.len(),
                r@ == active_indices(self.voices@, i as nat),
            decreases self.voices@.len() - i,
        {
            if !self.voices[i].is_done() {
                r.push(i);
            }
            i = i + 1;
            assert(r@ =~= active_indices(self.voices@, i as nat));
        }
        r
    }

    /// The number of voices.
    pub fn len(&self) -> (r: usize)
        ensures
            r == self@.0.len(),
    {
        self.voices.len()
    }

    /// Voice `i`.
    pub fn voice(&self, i: usize) -> (r: Voice)
        requires
            i < self@.0.len(),
        ensures
            r == self@.0[i as int],
    {
        self.voices[i]
    }
}

} // verus!
