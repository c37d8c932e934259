use textsynth::envelope::AttackDecay;
use textsynth::melody::Melody;
use textsynth::notes::{Duration, Note, Pitch};
use textsynth::performer::Performer;
use textsynth::source::NoteSource;

fn sine_grid() -> [[u8; 8]; 8] {
    let mut g = [[0u8; 8]; 8];
    for y in 0..8 {
        for x in 0..8 {
            let t = std::f64::consts::TAU * (x as f64 / 8.0 - y as f64 / 8.0);
            g[y][x] = (255.0 * (0.5 + 0.5 * t.sin())).round() as u8;
        }
    }
    g
}

fn run(input: &[u8], ticks: usize) -> (Vec<(Option<Pitch>, Duration)>, [[u8; 8]; 8]) {
    let mut p = Performer::<8>::new(input, AttackDecay::new(100, 1000), sine_grid());
    let mut notes = Vec::new();
    for _ in 0..ticks {
        let tick = p.update();
        if let Some(n) = tick.note {
            notes.push((n.pitch, n.duration));
        }
    }
    (notes, p.table().grid())
}

#[test]
fn end_to_end_is_reproducible() {
    let first = run(b"abc", 100);
    let second = run(b"abc", 100);
    assert!(!first.0.is_empty());
    assert_eq!(first, second);
    let other = run(b"abd", 100);
    assert_ne!(first, other);
}

#[test]
fn empty_input_runs_without_panic() {
    let (notes, _) = run(b"", 100);
    assert!(!notes.is_empty());
    assert!(notes.iter().all(|(p, _)| p.is_none()));
}

#[test]
fn first_tick_starts_a_note() {
    let mut p = Performer::<8>::new(b"abc", AttackDecay::new(100, 1000), sine_grid());
    let tick = p.update();
    assert_eq!(tick.drift, 3561360736);
    let note = tick.note.unwrap();
    assert_eq!(note.pitch, Some(Pitch(-24)));
    assert_eq!(note.duration, Duration(2));
    assert_eq!(p.voices().voice(0).note, Some(note));
    assert_eq!(p.slice(9), p.table().slice(1));
}

#[test]
fn source_first_note_is_rule_based() {
    let mut s = NoteSource::new(b"abc");
    let n = s.next(Pitch::a2());
    assert_eq!(n.pitch, Some(Pitch(-24)));
    assert_eq!(n.duration, Duration(2));
    for _ in 0..50 {
        s.next(Pitch::a2());
    }
    s.update_input(b"xyz");
    s.next(Pitch::a2());
}

#[test]
fn melody_walks_minor_scale() {
    let mut m = Melody::new(b"abc");
    // first nibble 6: step down 2 degrees from degree 0
    let start = Note { pitch: Some(Pitch(-24)), duration: Duration(2) };
    let n = m.next(Pitch::a2(), start);
    assert_eq!(n.pitch, Some(Pitch::a2().in_minor(-2)));
    assert_eq!(n.duration, Duration(2));
    m.update_input(b"");
    let r = m.next(Pitch::a2(), Note { pitch: None, duration: Duration(3) });
    assert_eq!(r.pitch, None);
    assert_eq!(r.duration, Duration(3));
}

#[test]
fn melody_stays_on_scale_at_high_base() {
    let base = Pitch(12);
    let mut m = Melody::new(b"\x40");
    // first nibble 4: one degree down from degree 0
    let n = m.next(base, Note { pitch: Some(Pitch(12)), duration: Duration(2) });
    let p = n.pitch.unwrap();
    assert_eq!(p, Pitch(10));
    assert_eq!(base.minor_scale_number(p), Some(6));
}
