use vstd::prelude::*;

use crate::bytes::{advance, emit, lemma_emit_nibbles, period, KeyState, NibbleStream};
use crate::markov::{observe, predict, valid_chain, ChainState, MarkovMelody};
use crate::notes::pitch::{scale_degree, PENTATONIC_MINOR};
use crate::notes::{decode_note, Duration, Note, Pitch};
use crate::sequence::{arp_notes, first_step, next_state, valid_seq, Direction, SeqState, Sequence};

verus! {

/// Which generator supplies the next note.
pub enum Generator {
    Rule,
    Chain,
    Arpeggio,
}

/// The generator picked by the low nibble of the state; the rule-based one
/// when there is no previous note yet.
pub open spec fn pick_generator(has_prev: bool, state: u8) -> Generator {
    if !has_prev || state == 0 || state == 3 || state == 5 || state == 10 || state == 12 || state
        == 15 {
        Generator::Rule
    } else if state == 1 || state == 4 || state == 7 || state == 9 || state == 13 {
        Generator::Chain
    } else {
        Generator::Arpeggio
    }
}

/// The arpeggio direction picked by the top bits of the state.
pub open spec fn arp_direction(state: u8) -> Direction {
    let d = state / 4;
    if d == 1 {
        Direction::Down
    } else if d == 2 {
        Direction::PingPong
    } else {
        Direction::Up
    }
}

/// The note the rule-based generator decodes from keystream state `s`.
pub open spec fn rule_note(s: KeyState, base: Pitch) -> Note {
    decode_note(base, emit(s, 3)[0], emit(s, 3)[1], emit(s, 3)[2])
}

/// The random byte made of the next two nibbles of `s`.
pub open spec fn random_byte(s: KeyState) -> u8 {
    (emit(s, 2)[0] * 16 + emit(s, 2)[1]) as u8
}

/// The mathematical state of a note source.
pub struct SourceState {
    pub notes: KeyState,
    pub random: KeyState,
    pub states: KeyState,
    pub arp: SeqState,
    pub chain: ChainState,
    pub prev: Option<Note>,
    pub count: nat,
    pub state: u8,
}

/// The note chosen and the state left once the selected generator has run,
/// and whether the chain has already seen the note.
pub open spec fn generate(s: SourceState, base: Pitch) -> (Note, SourceState, bool) {
    let rule = rule_note(s.notes, base);
    let after_rule = SourceState { notes: advance(s.notes, 3), ..s };
    match pick_generator(s.prev.is_some(), s.state) {
        Generator::Rule => (rule, after_rule, false),
        Generator::Chain => {
            let prev = s.prev.unwrap();
            let chain = observe(s.chain, prev);
            let random = advance(s.random, 2);
            match predict(chain, prev, random_byte(s.random)) {
                Some(n) => (n, SourceState { chain, random, ..s }, true),
                None => (rule, SourceState { chain, random, ..after_rule }, true),
            }
        },
        Generator::Arpeggio => if s.arp.notes.len() > 0 {
            (s.arp.notes[s.arp.at as int], SourceState { arp: next_state(s.arp), ..s }, false)
        } else {
            (rule, after_rule, false)
        },
    }
}

/// The state after note `note` was produced from state `s` (the state as
/// the generator left it): the chain sees the note unless it produced it;
/// every fifth note rebuilds the arpeggio from a sounding on-scale note;
/// every seventh note draws a new state.
pub open spec fn settle(orig: SourceState, s: SourceState, note: Note, seen: bool, base: Pitch) -> SourceState {
    let s1 = if seen {
        s
    } else {
        SourceState {
            random: advance(s.random, 2),
            chain: observe(s.chain, note),
            ..s
        }
    };
    let s2 = match note.pitch {
        Some(p) => if orig.count % 5 == 0 && scale_degree(base.0 as int, PENTATONIC_MINOR@, p.0 as int).is_some() {
            let dir = arp_direction(orig.state);
            SourceState {
                arp: SeqState {
                    notes: arp_notes(
                        base,
                        scale_degree(base.0 as int, PENTATONIC_MINOR@, p.0 as int).unwrap() as int,
                        Duration(4),
                    ),
                    at: 0,
                    dir,
                    step: first_step(dir),
                },
                ..s1
            }
        } else {
            s1
        },
        None => s1,
    };
    let s3 = if orig.count % 7 == 0 {
        SourceState { states: advance(s2.states, 1), state: emit(s2.states, 1)[0], ..s2 }
    } else {
        s2
    };
    SourceState {
        count: if orig.count == usize::MAX { 0 } else { orig.count + 1 },
        prev: Some(note),
        ..s3
    }
}

/// The note a source in state `s` produces next, and its state afterwards.
pub open spec fn source_step(s: SourceState, base: Pitch) -> (Note, SourceState) {
    let (note, s1, seen) = generate(s, base);
    (note, settle(s, s1, note, seen, base))
}

/// The state of a fresh source over `input`: every stream at its start, an
/// empty upward arpeggio, an empty chain, no previous note.
pub open spec fn fresh_source(input: Seq<u8>) -> SourceState {
    SourceState {
        notes: KeyState { data: input, acc: 0, index: 0 },
        random: KeyState { data: input, acc: 0, index: 0 },
        states: KeyState { data: input, acc: 0, index: 0 },
        arp: SeqState { notes: seq![], at: 0, dir: Direction::Up, step: 1 },
        chain: ChainState { pitches: seq![], durations: seq![], prev: None },
        prev: None,
        count: 0,
        state: 0,
    }
}

/// The state of a source after `k` notes over `base`.
pub open spec fn source_run(s: SourceState, base: Pitch, k: nat) -> SourceState
    decreases k,
{
    if k == 0 {
        s
    } else {
        source_step(source_run(s, base, (k - 1) as nat), base).1
    }
}

/// Picks each note from one of three generators, as directed by the
/// keystream.
pub struct NoteSource {
    note_nibbles: NibbleStream<3>,
    random_nibbles: NibbleStream<2>,
    state_nibbles: NibbleStream<1>,
    arp: Sequence,
    chain: MarkovMelody,
    prev: Option<Note>,
    count: usize,
    state: u8,
}

impl View for NoteSource {
    type V = SourceState;

    closed spec fn view(&self) -> SourceState {
        SourceState {
            notes: self.note_nibbles@,
            random: self.random_nibbles@,
            states: self.state_nibbles@,
            arp: self.arp@,
            chain: self.chain@,
            prev: self.prev,
            count: self.count as nat,
            state: self.state,
        }
    }
}

/// The parts of a source state that its operations rely on.
pub open spec fn valid_source(s: SourceState) -> bool {
    valid_seq(s.arp) && valid_chain(s.chain) && s.state < 16
}

impl NoteSource {
    pub fn new(input: &[u8]) -> (r: Self)
        requires
            input@.len() <= usize::MAX / 2,
        ensures
            valid_source(r@),
            r@ == fresh_source(input@),
    {
        NoteSource {
            note_nibbles: NibbleStream::new(input),
            random_nibbles: NibbleStream::new(input),
            state_nibbles: NibbleStream::new(input),
            arp: Sequence::new(Vec::new(), Direction::Up),
            chain: MarkovMelody::new(),
            prev: None,
            count: 0,
            state: 0,
        }
    }

    fn next_random(&mut self) -> (r: u8)
        ensures
            r == random_byte(old(self)@.random),
            final(self)@ == (SourceState { random: advance(old(self)@.random, 2), ..old(self)@ }),
    {
        proof {
            lemma_emit_nibbles(self.random_nibbles@, 2);
        }
        let nibbles = self.random_nibbles.next_nibbles();
        let a = nibbles[0];
        let b = nibbles[1];
        assert((a << 4u8) | b == a * 16 + b) by (bit_vector)
            requires
                a < 16u8,
                b < 16u8,
        ;
        (a << 4) | b
    }

    /// The next note, for the scale based at `base`.
    pub fn next(&mut self, base: Pitch) -> (r: Note)
        requires
            valid_source(old(self)@),
            i32::MIN + 24 <= base.0 <= i32::MAX - 24,
        ensures
            valid_source(final(self)@),
            (r, final(self)@) == source_step(old(self)@, base),
    {
        let ghost s0 = self@;
        let gen_rule = match self.prev {
            None => true,
            Some(_) => self.state == 0 || self.state == 3 || self.state == 5 || self.state == 10
                || self.state == 12 || self.state == 15,
        };
        let gen_chain = !gen_rule && (self.state == 1 || self.state == 4 || self.state == 7
            || self.state == 9 || self.state == 13);
        let next;
        let added_to_chain;
        if gen_rule {
            next = self.note_nibbles.next_note(base);
            added_to_chain = false;
        } else if gen_chain {
            let prev = self.prev.unwrap();
            let random = self.next_random();
            match self.chain.next(prev, random) {
                Some(note) => {
                    next = note;
                },
                None => {
                    next = self.note_nibbles.next_note(base);
                },
            }
            added_to_chain = true;
        } else {
            match self.arp.next_note() {
                Some(note) => {
                    next = note;
                },
                None => {
                    next = self.note_nibbles.next_note(base);
                },
            }
            added_to_chain = false;
        }
        let ghost s1 = self@;
        assert((next, s1, added_to_chain) == generate(s0, base));

        if !added_to_chain {
            let random = self.next_random();
            let _ = self.chain.next(next, random);
        }

        if self.count % 5 == 0 {
            if let Some(pitch) = next.pitch {
                let st = self.state;
                let d = st >> 2;
                assert(d == st / 4) by (bit_vector)
                    requires
                        d == st >> 2u8,
                ;
                let dir = if d == 1 {
                    Direction::Down
                } else if d == 2 {
                    Direction::PingPong
                } else {
                    Direction::Up
                };
                match Sequence::new_arp(base, pitch, dir, Duration::eighth()) {
                    Some(arp) => {
                        self.arp = arp;
                    },
                    None => {},
                }
            }
        }

        if self.count % 7 == 0 {
            proof {
                lemma_emit_nibbles(self.state_nibbles@, 1);
            }
            self.state = self.state_nibbles.next_nibble();
        }

        self.count = if self.count == usize::MAX { 0 } else { self.count + 1 };
        self.prev = Some(next);
        next
    }

    /// Point every stream at new input, keeping each cursor modulo the new
    /// period.
    pub fn update_input(&mut self, input: &[u8])
        requires
            input@.len() <= usize::MAX / 2,
        ensures
            final(self)@ == (SourceState {
                notes: KeyState {
                    data: input@,
                    acc: 0,
                    index: if input@.len() == 0 { 0 } else { old(self)@.notes.index % period(input@) },
                },
                random: KeyState {
                    data: input@,
                    acc: 0,
                    index: if input@.len() == 0 { 0 } else { old(self)@.random.index % period(input@) },
                },
                states: KeyState {
                    data: input@,
                    acc: 0,
                    index: if input@.len() == 0 { 0 } else { old(self)@.states.index % period(input@) },
                },
                ..old(self)@
            }),
    {
        self.note_nibbles = self.note_nibbles.with_new_data(input);
        self.random_nibbles = self.random_nibbles.with_new_data(input);
        self.state_nibbles = self.state_nibbles.with_new_data(input);
    }
}

} // verus!
