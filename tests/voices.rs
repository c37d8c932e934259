use textsynth::envelope::AttackDecay;
use textsynth::notes::{Duration, Note, Pitch};
use textsynth::structures::FixedQueue;
use textsynth::voice::{Voice, VoiceGroup};

fn note(p: i32, d: usize) -> Note {
    Note { pitch: Some(Pitch(p)), duration: Duration(d) }
}

#[test]
fn single_voice_is_retriggered() {
    let mut group = VoiceGroup::new(1, AttackDecay::new(10, 100));
    group.add(note(0, 4));
    group.step_voice(0, 5);
    assert_eq!(group.voice(0).env.value, 5);
    group.add(note(7, 2));
    let v = group.voice(0);
    assert_eq!(v.note, Some(note(7, 2)));
    assert_eq!(v.env.value, 0);
}

#[test]
fn done_voices_are_preferred() {
    let mut group = VoiceGroup::new(3, AttackDecay::new(1, 1));
    // every fresh voice sounds nothing yet but is not done
    group.add(note(0, 2));
    group.add(note(1, 2));
    group.add(note(2, 2));
    assert_eq!(group.voice(0).note, Some(note(0, 2)));
    assert_eq!(group.voice(1).note, Some(note(1, 2)));
    assert_eq!(group.voice(2).note, Some(note(2, 2)));
    group.step_voice(1, 2);
    assert!(group.voice(1).is_done());
    group.add(note(9, 2));
    assert_eq!(group.voice(1).note, Some(note(9, 2)));
    assert_eq!(group.voice(0).note, Some(note(0, 2)));
}

#[test]
fn durations_step_down_to_floor() {
    let mut group = VoiceGroup::new(1, AttackDecay::new(10, 10));
    group.add(note(0, 3));
    group.step_durations();
    assert_eq!(group.voice(0).note, Some(note(0, 2)));
    group.step_durations();
    group.step_durations();
    assert_eq!(group.voice(0).note, Some(note(0, 1)));
}

#[test]
fn envelope_completes() {
    let mut env = AttackDecay::new(2, 3);
    assert!(!env.is_done());
    env.step(4);
    assert!(!env.is_done());
    env.step(1);
    assert!(env.is_done());
    env.reset();
    assert!(!env.is_done());
    env.step(u64::MAX);
    env.step(10);
    assert_eq!(env.value, u64::MAX);
}

#[test]
fn voice_pitch_and_rest() {
    let mut v = Voice::new(AttackDecay::new(1, 1));
    assert_eq!(v.pitch(), None);
    v.replace(note(5, 1));
    assert_eq!(v.pitch(), Some(Pitch(5)));
    v.delta_step();
    assert_eq!(v.note, Some(note(5, 1)));
}

#[test]
fn queue_is_a_delay_line() {
    let mut q = FixedQueue::new_with(0i32, 3);
    assert_eq!(q.capacity(), 3);
    let mut out = Vec::new();
    for i in 1..=7 {
        assert_eq!(*q.get(), if i <= 3 { 0 } else { i - 3 });
        out.push(q.push(i));
    }
    assert_eq!(out, vec![0, 0, 0, 1, 2, 3, 4]);
}

#[test]
fn default_queue_starts_empty_valued() {
    let mut q: FixedQueue<u8> = FixedQueue::new(2);
    assert_eq!(q.push(5), 0);
    assert_eq!(q.push(6), 0);
    assert_eq!(q.push(7), 5);
}

#[test]
fn active_lists_sounding_voices() {
    let mut group = VoiceGroup::new(3, AttackDecay::new(1, 1));
    assert_eq!(group.active(), vec![0, 1, 2]);
    group.step_voice(1, 5);
    assert_eq!(group.active(), vec![0, 2]);
}
