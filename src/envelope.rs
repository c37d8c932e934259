use vstd::prelude::*;

verus! {

/// An attack/decay envelope over a clock counted in whole ticks (the caller
/// picks the tick, typically one output sample).
#[derive(Clone, Copy, Debug, PartialEq, Eq, Structural)]
pub struct AttackDecay {
    /// Number of ticks for the attack.
    pub attack: u64,
    /// Number of ticks it takes for the envelope to decay completely. This is
    /// a cumulative value, so it is never below the attack.
    pub decay_cumulative: u64,
    /// A monotonically increasing time value.
    pub value: u64,
}

impl AttackDecay {
    pub fn new(attack: u64, decay: u64) -> (r: Self)
        requires
            attack + decay <= u64::MAX,
        ensures
            r == (AttackDecay { attack, decay_cumulative: (attack + decay) as u64, value: 0 }),
    {
        AttackDecay { attack, decay_cumulative: attack + decay, value: 0 }
    }

    /// Restart the envelope from silence.
    pub fn reset(&mut self)
        ensures
            *final(self) == (AttackDecay { value: 0, ..*old(self) }),
    {
        self.value = 0;
    }

    /// Move the clock forward `by` ticks; it stops at the largest value.
    pub fn step(&mut self, by: u64)
        ensures
            *final(self) == (AttackDecay {
                value: if old(self).value + by > u64::MAX {
                    u64::MAX
                } else {
                    (old(self).value + by) as u64
                },
                ..*old(self)
            }),
    {
        self.value = if self.value > u64::MAX - by { u64::MAX } else { self.value + by };
    }

    /// The envelope has fully decayed.
    pub fn is_done(&self) -> (r: bool)
        ensures
            r == (self.value >= self.decay_cumulative),
    {
        self.value >= self.decay_cumulative
    }
}

} // verus!
