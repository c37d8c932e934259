use vstd::prelude::*;

use crate::bytes::{advance, emit, period, KeyState, NibbleStream};
use crate::notes::pitch::{
    lemma_minor_octave, lemma_scale_round_trip, scale_degree, scale_offset, walk_down, walk_up, MINOR,
};
use crate::notes::{Duration, Note, Pitch};

verus! {

/// The minor-scale degree of `p` over `base`, if it is on the scale.
pub open spec fn minor_degree(base: Pitch, p: Option<Pitch>) -> Option<int> {
    match p {
        Some(p) => match scale_degree(base.0 as int, MINOR@, p.0 as int) {
            Some(k) => Some(k as int),
            None => None,
        },
        None => None,
    }
}

/// The pitch of minor-scale degree `n` over `base`.
pub open spec fn minor_pitch(base: Pitch, n: int) -> Pitch {
    Pitch((base.0 + scale_offset(MINOR@, n)) as i32)
}

/// The step between scale degrees encoded by a nibble whose bit 3 is clear:
/// one, two or three degrees, downwards when bit 2 is set.
pub open spec fn nibble_interval(nib: u8) -> int {
    let d = if nib % 4 == 3 { 3int } else if nib % 4 == 2 { 2 } else { 1 };
    if (nib / 4) % 2 == 1 { -d } else { d }
}

/// The duration, in thirty-second notes, encoded by a nibble whose bit 3 is
/// set: an eighth, dotted eighth, quarter or dotted quarter.
pub open spec fn nibble_long_duration(nib: u8) -> usize {
    if nib % 4 == 0 {
        4
    } else if nib % 4 == 1 {
        6
    } else if nib % 4 == 2 {
        8
    } else {
        12
    }
}

/// The degree and pitch that nibble `nib` picks after `current`, given the
/// interval last moved: with bit 3 clear it steps from the current degree;
/// otherwise `0b10..` repeats the current note and `0b11..` moves back by the
/// last interval.
pub open spec fn melody_pick(base: Pitch, current: Note, nib: u8, interval: Option<i32>) -> Option<
    (int, Pitch),
> {
    let num = minor_degree(base, current.pitch);
    if nib < 8 {
        match num {
            Some(n) => Some((n + nibble_interval(nib), minor_pitch(base, n + nibble_interval(nib)))),
            None => None,
        }
    } else if nib < 12 {
        match num {
            Some(n) => Some((n, current.pitch.unwrap())),
            None => None,
        }
    } else {
        match (num, interval) {
            (Some(n), Some(i)) => Some((n - i, minor_pitch(base, n - i))),
            _ => None,
        }
    }
}

/// The note that nibble `nib` makes of `current`, and the interval remembered
/// afterwards.
pub open spec fn melody_step(base: Pitch, current: Note, nib: u8, interval: Option<i32>) -> (
    Note,
    Option<i32>,
) {
    let pick = melody_pick(base, current, nib, interval);
    let duration = if nib < 8 { current.duration } else { Duration(nibble_long_duration(nib)) };
    let next_interval = match (pick, minor_degree(base, current.pitch)) {
        (Some((d, _)), Some(prev)) => Some((d - prev) as i32),
        _ => interval,
    };
    (Note { pitch: match pick { Some((_, p)) => Some(p), None => None }, duration }, next_interval)
}

/// Walking at most nine steps of the minor scale moves at most 18 semitones.
proof fn lemma_minor_reach(k: nat)
    requires
        k <= 9,
    ensures
        0 <= walk_up(MINOR@, k) <= 2 * k,
        -2 * k <= walk_down(MINOR@, k) <= 0,
    decreases k,
{
    if k > 0 {
        lemma_minor_reach((k - 1) as nat);
    }
}

proof fn lemma_minor_in_range(base: Pitch, n: int)
    requires
        -9 <= n <= 9,
    ensures
        -18 <= scale_offset(MINOR@, n) <= 18,
{
    if n >= 0 {
        lemma_minor_reach(n as nat);
    } else {
        lemma_minor_reach((-n) as nat);
    }
}

/// A melody that walks the minor scale, driven by a keystream.
pub struct Melody {
    nibbles: NibbleStream<1>,
    prev_interval: Option<i32>,
}

/// The interval a melody remembers is at most three degrees either way.
pub open spec fn valid_interval(i: Option<i32>) -> bool {
    match i {
        Some(v) => -3 <= v <= 3,
        None => true,
    }
}

impl Melody {
    /// The state of the keystream that drives this melody.
    pub closed spec fn stream(&self) -> KeyState {
        self.nibbles@
    }

    /// The last interval moved, in scale degrees.
    pub closed spec fn interval(&self) -> Option<i32> {
        self.prev_interval
    }

    pub fn new(input: &[u8]) -> (r: Self)
        requires
            input@.len() <= usize::MAX / 2,
        ensures
            r.stream() == (KeyState { data: input@, acc: 0, index: 0 }),
            r.interval().is_none(),
    {
        Melody { nibbles: NibbleStream::new(input), prev_interval: None }
    }

    pub fn update_input(&mut self, input: &[u8])
        requires
            input@.len() <= usize::MAX / 2,
        ensures
            final(self).stream() == (KeyState {
                data: input@,
                acc: 0,
                index: if input@.len() == 0 { 0 } else { old(self).stream().index % period(input@) },
            }),
            final(self).interval() == old(self).interval(),
    {
        self.nibbles = self.nibbles.with_new_data(input);
    }

    /// The next note after `current` in the minor scale over `base`.
    pub fn next(&mut self, base: Pitch, current: Note) -> (r: Note)
        requires
            valid_interval(old(self).interval()),
            i32::MIN + 24 <= base.0 <= i32::MAX - 24,
        ensures
            valid_interval(final(self).interval()),
            final(self).stream() == advance(old(self).stream(), 1),
            current.pitch.is_none() ==> r.pitch.is_none(),
            r.pitch.is_some() ==> scale_degree(base.0 as int, MINOR@, r.pitch.unwrap().0 as int).is_some(),
            (r, final(self).interval()) == melody_step(
                base,
                current,
                emit(old(self).stream(), 1)[0],
                old(self).interval(),
            ),
    {
        proof {
            lemma_minor_octave();
        }
        let nib = self.nibbles.next_nibble();
        let current_num: Option<usize> = match current.pitch {
            Some(p) => base.minor_scale_number(p),
            None => None,
        };
        proof {
            if current_num.is_some() {
                assert(current_num.unwrap() < 7);
            }
        }
        let pick: Option<(i32, Pitch)>;
        let duration: Duration;
        if nib & 8 == 0 {
            let mut diff: i32 = if nib & 3 == 3 {
                3
            } else if nib & 3 == 2 {
                2
            } else {
                1
            };
            if nib & 4 != 0 {
                diff = -diff;
            }
            assert(nib & 3 == nib % 4 && (nib & 4 != 0) == ((nib / 4) % 2 == 1) && (nib & 8 == 0) == (nib < 8)) by (bit_vector)
                requires
                    nib < 16u8,
            ;
            pick = match current_num {
                Some(num) => {
                    let n = num as i32 + diff;
                    proof {
                        lemma_minor_in_range(base, n as int);
                        lemma_scale_round_trip(base.0 as int, MINOR@, n as int);
                    }
                    Some((n, base.in_minor(n)))
                },
                None => None,
            };
            duration = current.duration;
        } else {
            assert((nib & 8 != 0) == (nib >= 8) && nib & 3 == nib % 4) by (bit_vector)
                requires
                    nib < 16u8,
            ;
            assert((nib >> 2 == 2) == (nib < 12)) by (bit_vector)
                requires
                    nib < 16u8,
                    nib >= 8u8,
            ;
            if nib >> 2 == 2 {
                pick = match (current.pitch, current_num) {
                    (Some(p), Some(num)) => Some((num as i32, p)),
                    _ => None,
                };
            } else {
                pick = match (current_num, self.prev_interval) {
                    (Some(num), Some(interval)) => {
                        let n = num as i32 - interval;
                        proof {
                            lemma_minor_in_range(base, n as int);
                            lemma_scale_round_trip(base.0 as int, MINOR@, n as int);
                        }
                        Some((n, base.in_minor(n)))
                    },
                    _ => None,
                };
            }
            let eighth = Duration::eighth();
            duration = if nib & 3 == 0 {
                eighth
            } else if nib & 3 == 1 {
                eighth.dotted()
            } else if nib & 3 == 2 {
                eighth.times(2)
            } else {
                eighth.times(2).dotted()
            };
        }

        if let Some((degree, _)) = pick {
            if let Some(prev_degree) = current_num {
                self.prev_interval = Some(degree - prev_degree as i32);
            }
        }

        Note {
            pitch: match pick {
                Some((_, p)) => Some(p),
                None => None,
            },
            duration,
        }
    }
}

} // verus!
