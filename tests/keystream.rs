use textsynth::bytes::NibbleStream;
use textsynth::notes::{Duration, Pitch};

#[test]
fn nibbles_follow_the_cipher() {
    let mut s = NibbleStream::<4>::new(b"abc");
    assert_eq!(s.next_nibbles(), [6, 0, 0, 13]);
    assert_eq!(s.next_nibbles(), [4, 2, 5, 7]);
    assert_eq!(s.next_nibbles(), [1, 0, 8, 14]);
}

#[test]
fn split_reads_match_one_read() {
    let mut whole = NibbleStream::<12>::new(b"abc");
    let all = whole.next_nibbles();
    let mut parts = NibbleStream::<3>::new(b"abc");
    let mut got = Vec::new();
    for _ in 0..4 {
        got.extend_from_slice(&parts.next_nibbles());
    }
    assert_eq!(all.to_vec(), got);
}

#[test]
fn identical_streams_agree() {
    let mut a = NibbleStream::<1>::new(b"hello world");
    let mut b = NibbleStream::<1>::new(b"hello world");
    for _ in 0..200 {
        assert_eq!(a.next_nibble(), b.next_nibble());
    }
}

#[test]
fn output_is_not_periodic_in_general() {
    let mut s = NibbleStream::<4>::new(b"a");
    assert_eq!(s.next_nibbles(), [6, 0, 0, 13]);
}

#[test]
fn empty_input_is_silent() {
    let mut s = NibbleStream::<5>::new(b"");
    for _ in 0..50 {
        assert_eq!(s.next_nibbles(), [0; 5]);
    }
    let mut one = NibbleStream::<1>::new(b"");
    assert_eq!(one.next_nibble(), 0);
}

#[test]
fn new_data_keeps_cursor() {
    let mut s = NibbleStream::<1>::new(b"abc");
    for _ in 0..5 {
        s.next_nibble();
    }
    // cursor 5, new period 2: resumes at position 1 of "a", a low nibble
    let mut t = s.with_new_data(b"a");
    assert_eq!(t.next_nibble(), 1);
    let empty = s.with_new_data(b"");
    let mut e = empty;
    assert_eq!(e.next_nibble(), 0);
}

#[test]
fn coarse_word_packs_nibbles() {
    let mut s = NibbleStream::<5>::new(b"abc");
    assert_eq!(s.next_coarse_word(), 3561360736);
}

#[test]
fn decoded_note() {
    // nibbles 6, 0, 0: sounding, a sixteenth, degree zero
    let mut s = NibbleStream::<3>::new(b"abc");
    let note = s.next_note(Pitch::a2());
    assert_eq!(note.pitch, Some(Pitch(-24)));
    assert_eq!(note.duration, Duration(2));
    // nibbles 13, 4, 2: sounding, bits 3, 2, 0 of 4: doubled; degree 2
    let note = s.next_note(Pitch::a2());
    assert_eq!(note.duration, Duration(4));
    assert_eq!(note.pitch, Some(Pitch(-19)));
}

#[test]
fn silent_input_gives_rests() {
    let mut s = NibbleStream::<3>::new(b"");
    let note = s.next_note(Pitch::a2());
    assert_eq!(note.pitch, None);
    assert_eq!(note.duration, Duration(2));
}
