use textsynth::notes::pitch::{MINOR, PENTATONIC_MINOR};
use textsynth::notes::{Duration, Octave, Pitch};

#[test]
fn scale_number_two_way() {
    let base = Pitch::a2();
    let scale = &PENTATONIC_MINOR;

    for i in 0..scale.len() {
        let pitch = base.in_scale(i as i32, scale);
        let j = base.scale_number(pitch, scale);

        assert_eq!(Some(i), j);
    }

    for i in -60..=60 {
        let pitch = base.in_scale(i, scale);
        let j = base.scale_number(pitch, scale);

        let wrapped = i.rem_euclid(scale.len() as i32) as usize;
        assert_eq!(Some(wrapped), j);
    }
}

#[test]
fn in_scale_walks_steps() {
    let base = Pitch::a2();
    assert_eq!(base.in_pentatonic_minor(0), Pitch(-24));
    assert_eq!(base.in_pentatonic_minor(1), Pitch(-21));
    assert_eq!(base.in_pentatonic_minor(5), Pitch(-12));
    assert_eq!(base.in_pentatonic_minor(-1), Pitch(-26));
    assert_eq!(base.in_pentatonic_minor(-5), Pitch(-36));
    assert_eq!(base.in_minor(2), Pitch(-21));
    assert_eq!(base.in_minor(-2), Pitch(-28));
}

#[test]
fn scale_number_off_scale_is_none() {
    let base = Pitch::a2();
    assert_eq!(base.pentatonic_minor_scale_number(Pitch(-23)), None);
    assert_eq!(base.minor_scale_number(Pitch(-23)), None);
    assert_eq!(base.minor_scale_number(Pitch(-22)), Some(1));
    assert_eq!(base.minor_scale_number(Pitch(-21)), Some(2));
}

#[test]
fn scale_number_inverts_at_high_base() {
    for base in [Pitch(12), Pitch(30), Pitch(-100), Pitch(1000)] {
        for i in -20..=20 {
            let pitch = base.in_scale(i, &PENTATONIC_MINOR);
            let j = base.scale_number(pitch, &PENTATONIC_MINOR);
            assert_eq!(Some(i.rem_euclid(5) as usize), j);
            let pitch = base.in_minor(i);
            assert_eq!(Some(i.rem_euclid(7) as usize), base.minor_scale_number(pitch));
        }
    }
    assert_eq!(Pitch(12).scale_number(Pitch(12).in_scale(-1, &PENTATONIC_MINOR), &PENTATONIC_MINOR), Some(4));
}

#[test]
fn duration_arithmetic() {
    assert_eq!(Duration::sixteenth().dotted(), Duration(3));
    assert_eq!(Duration(5).dotted(), Duration(7));
    assert_eq!(Duration(3).decrement(), Some(Duration(2)));
    assert_eq!(Duration(1).decrement(), None);
    assert_eq!(Duration::zero().decrement(), None);
    assert_eq!(Duration(2).plus(Duration(3)), Duration(5));
    assert_eq!(Duration::eighth().times(3), Duration(12));
    assert_eq!(MINOR.len(), 7);
}

#[test]
fn octaves_and_transposition() {
    assert_eq!(Pitch(0).octave_up(Octave), Pitch(12));
    assert_eq!(Pitch(0).octave_down(Octave), Pitch(-12));
    assert_eq!(Pitch(-24).transposed(7), Pitch(-17));
}
