use vstd::prelude::*;

use crate::bytes::{advance, coarse_word, emit, period, KeyState, NibbleStream};
use crate::envelope::AttackDecay;
use crate::notes::{Duration, Note, Pitch};
use crate::source::{fresh_source, source_step, valid_source, NoteSource, SourceState};
use crate::voice::group::{add_note, duration_stepped, valid_group};
use crate::voice::{Voice, VoiceGroup};
use crate::wavetable::{
    after_instruction, instruction_at, run, shifted_back, spawn_cell, valid_cursors, TableState,
    Wavetable,
};

verus! {

/// The number of voices a performer plays.
pub const VOICES: usize = 8;

/// The base pitch of every scale the performer plays.
pub open spec fn base_pitch() -> Pitch {
    Pitch(-24i32)
}

/// The mathematical state of a performer.
pub struct PerfState {
    pub source: SourceState,
    pub table: TableState,
    pub table_stream: KeyState,
    pub drift_stream: KeyState,
    pub voices: (Seq<Voice>, nat),
    pub duration: Duration,
}

/// What one tick reports: the raw drift word (divide by `2^32` for a value in
/// `[0, 1)`) and the note started on this tick, if any.
#[derive(Clone, Copy, Debug, PartialEq, Eq, Structural)]
pub struct Tick {
    pub drift: u32,
    pub note: Option<Note>,
}

/// The state after one tick of side-`s` table and what the tick reports: the
/// drift stream gives a word, the table runs one instruction and shifts its
/// cursors, every sounding voice shortens, and when the lead note's duration
/// is spent the source supplies a new note for the voices.
pub open spec fn tick(p: PerfState, s: int) -> (PerfState, Tick) {
    let table = run(p.table, s, instruction_at(p.table_stream), spawn_cell(p.table.cursors, s));
    let table = TableState { cursors: shifted_back(table.cursors, s), ..table };
    let voices = (p.voices.0.map_values(|v: Voice| duration_stepped(v)), p.voices.1);
    let base = PerfState {
        table,
        table_stream: after_instruction(p.table_stream),
        drift_stream: advance(p.drift_stream, 5),
        voices,
        ..p
    };
    let drift = coarse_word(emit(p.drift_stream, 5));
    if p.duration.0 >= 2 {
        (PerfState { duration: Duration((p.duration.0 - 1) as usize), ..base }, Tick { drift, note: None })
    } else {
        let (note, source) = source_step(p.source, base_pitch());
        (
            PerfState {
                source,
                voices: add_note(voices.0, voices.1, note),
                duration: note.duration,
                ..base
            },
            Tick { drift, note: Some(note) },
        )
    }
}

/// The state of a fresh performer over `input` whose table of side `s` starts
/// as `grid`: a fresh source, every keystream at its start, one cursor in the
/// middle, silent voices with envelope `env`, and the shortest lead duration.
pub open spec fn fresh_performer(input: Seq<u8>, env: AttackDecay, grid: Seq<Seq<u8>>, s: int) -> PerfState {
    PerfState {
        source: fresh_source(input),
        table: TableState { grid, cursors: seq![((s / 2) as usize, (s / 2) as usize)] },
        table_stream: KeyState { data: input, acc: 0, index: 0 },
        drift_stream: KeyState { data: input, acc: 0, index: 0 },
        voices: (Seq::new(VOICES as nat, |i: int| Voice { note: None, env }), 0nat),
        duration: Duration(1),
    }
}

/// The state after `k` ticks and the report of the last one; with
/// `fresh_performer` it fixes everything a run produces from its input, its
/// envelope and its starting grid.
pub open spec fn run_ticks(p: PerfState, s: int, k: nat) -> (PerfState, Tick)
    decreases k,
{
    if k == 0 {
        (p, Tick { drift: 0, note: None })
    } else {
        tick(run_ticks(p, s, (k - 1) as nat).0, s)
    }
}

/// Drives the note source, the voices and the wavetable one tick at a time.
pub struct Performer<const S: usize> {
    source: NoteSource,
    table: Wavetable<S>,
    table_nibbles: NibbleStream<1>,
    y_nibbles: NibbleStream<5>,
    voices: VoiceGroup,
    duration: Duration,
}

impl<const S: usize> View for Performer<S> {
    type V = PerfState;

    closed spec fn view(&self) -> PerfState {
        PerfState {
            source: self.source@,
            table: self.table@,
            table_stream: self.table_nibbles@,
            drift_stream: self.y_nibbles@,
            voices: self.voices@,
            duration: self.duration,
        }
    }
}

impl<const S: usize> Performer<S> {
    /// The performer is well formed.
    pub open spec fn wf(&self) -> bool {
        &&& S > 0
        &&& valid_source(self@.source)
        &&& valid_cursors(self@.table.cursors, S as int)
        &&& valid_group(self@.voices)
    }

    /// A performer over `input` whose wavetable starts as `grid`.
    pub fn new(input: &[u8], env: AttackDecay, grid: [[u8; S]; S]) -> (r: Self)
        requires
            S > 0,
            input@.len() <= usize::MAX / 2,
        ensures
            r.wf(),
            r@ == fresh_performer(input@, env, crate::wavetable::rows(grid), S as int),
    {
        Performer {
            source: NoteSource::new(input),
            table: Wavetable::from_grid(grid),
            table_nibbles: NibbleStream::new(input),
            y_nibbles: NibbleStream::new(input),
            voices: VoiceGroup::new(VOICES, env),
            duration: Duration::delta(),
        }
    }

    /// Row `y` of the wavetable (wrapping).
    pub fn slice(&self, y: usize) -> (r: Vec<u8>)
        requires
            self.wf(),
        ensures
            r@ == self@.table.grid[(y % S) as int],
    {
        self.table.slice(y)
    }

    /// The wavetable.
    pub fn table(&self) -> (r: &Wavetable<S>)
        ensures
            r@ == self@.table,
    {
        &self.table
    }

    /// The voices.
    pub fn voices(&self) -> (r: &VoiceGroup)
        ensures
            r@ == self@.voices,
    {
        &self.voices
    }

    /// Advance the envelope of voice `i` by `by` ticks.
    pub fn step_voice(&mut self, i: usize, by: u64)
        requires
            old(self).wf(),
            i < old(self)@.voices.0.len(),
        ensures
            final(self).wf(),
            final(self)@ == (PerfState {
                voices: (
                    old(self)@.voices.0.update(
                        i as int,
                        Voice {
                            env: AttackDecay {
                                value: if old(self)@.voices.0[i as int].env.value + by > u64::MAX {
                                    u64::MAX
                                } else {
                                    (old(self)@.voices.0[i as int].env.value + by) as u64
                                },
                                ..old(self)@.voices.0[i as int].env
                            },
                            ..old(self)@.voices.0[i as int]
                        },
                    ),
                    old(self)@.voices.1,
                ),
                ..old(self)@
            }),
    {
        self.voices.step_voice(i, by);
    }

    /// Advance the generative state by one tick.
    #[verifier::rlimit(50)]
    pub fn update(&mut self) -> (r: Tick)
        requires
            old(self).wf(),
        ensures
            final(self).wf(),
            (final(self)@, r) == tick(old(self)@, S as int),
    {
        let ghost p = self@;
        let drift = self.y_nibbles.next_coarse_word();
        let inst = self.table_nibbles.next_instruction();
        self.table.execute(inst);
        self.table.increment();
        self.voices.step_durations();
        let ghost stepped = tick(p, S as int);
        assert(self@.table == stepped.0.table);
        assert(self@.table_stream == stepped.0.table_stream);
        assert(self@.drift_stream == stepped.0.drift_stream);

        match self.duration.decrement() {
            Some(d) => {
                self.duration = d;
                Tick { drift, note: None }
            },
            None => {
                let note = self.source.next(Pitch::a2());
                self.duration = note.duration;
                self.voices.add(note);
                Tick { drift, note: Some(note) }
            },
        }
    }

    /// Point every keystream at new input, keeping each cursor modulo the new
    /// period.
    pub fn update_input(&mut self, input: &[u8])
        requires
            old(self).wf(),
            input@.len() <= usize::MAX / 2,
        ensures
            final(self).wf(),
            final(self)@.table_stream == (KeyState {
                data: input@,
                acc: 0,
                index: if input@.len() == 0 { 0 } else { old(self)@.table_stream.index % period(input@) },
            }),
            final(self)@.drift_stream == (KeyState {
                data: input@,
                acc: 0,
                index: if input@.len() == 0 { 0 } else { old(self)@.drift_stream.index % period(input@) },
            }),
            final(self)@.source == (SourceState {
                notes: KeyState {
                    data: input@,
                    acc: 0,
                    index: if input@.len() == 0 { 0 } else { old(self)@.source.notes.index % period(input@) },
                },
                random: KeyState {
                    data: input@,
                    acc: 0,
                    index: if input@.len() == 0 { 0 } else { old(self)@.source.random.index % period(input@) },
                },
                states: KeyState {
                    data: input@,
                    acc: 0,
                    index: if input@.len() == 0 { 0 } else { old(self)@.source.states.index % period(input@) },
                },
                ..old(self)@.source
            }),
            final(self)@.table == old(self)@.table,
            final(self)@.voices == old(self)@.voices,
            final(self)@.duration == old(self)@.duration,
    {
        self.source.update_input(input);
        self.table_nibbles = self.table_nibbles.with_new_data(input);
        self.y_nibbles = self.y_nibbles.with_new_data(input);
    }
}

} // verus!
