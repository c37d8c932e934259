use textsynth::markov::{fair_chance_array, MarkovMelody};
use textsynth::notes::{Duration, Note, Pitch};
use textsynth::sequence::{Direction, Sequence};

#[test]
fn fair_chance_proportional() {
    let choices = vec![('x', 3usize), ('y', 1usize)];
    let slots = fair_chance_array(&choices);
    assert_eq!(slots.len(), 16);
    let expected = [
        'y', 'x', 'y', 'x', 'y', 'x', 'y', 'x', 'x', 'x', 'x', 'x', 'x', 'x', 'x', 'x',
    ];
    assert_eq!(slots, expected);
}

#[test]
fn fair_chance_rare_keys_get_a_slot() {
    let choices = vec![('c', 38usize), ('a', 1usize), ('b', 1usize)];
    let slots = fair_chance_array(&choices);
    assert_eq!(&slots[..3], &['a', 'b', 'c']);
    assert_eq!(slots.iter().filter(|&&k| k == 'c').count(), 14);
}

#[test]
fn fair_chance_single_key_fills_all() {
    let slots = fair_chance_array(&vec![(7u8, 5usize)]);
    assert_eq!(slots, [7u8; 16]);
}

#[test]
fn fair_chance_ties_keep_order() {
    let choices = vec![(1u8, 2usize), (2u8, 2usize), (3u8, 2usize), (4u8, 2usize)];
    let slots = fair_chance_array(&choices);
    assert_eq!(slots, [1, 2, 3, 4, 1, 2, 3, 4, 1, 2, 3, 4, 1, 2, 3, 4]);
}

fn note(p: i32, d: usize) -> Note {
    Note { pitch: Some(Pitch(p)), duration: Duration(d) }
}

#[test]
fn markov_needs_history() {
    let mut chain = MarkovMelody::new();
    assert_eq!(chain.next(note(0, 2), 0), None);
    // 0 -> 3 is now known, but nothing follows 3 yet
    assert_eq!(chain.next(note(3, 4), 0), None);
    // 3 -> 0 recorded; 0 is followed by 3
    assert_eq!(chain.next(note(0, 2), 0x00), Some(note(3, 4)));
}

#[test]
fn markov_rest_pitches() {
    let mut chain = MarkovMelody::new();
    let rest = Note { pitch: None, duration: Duration(1) };
    chain.next(rest, 0);
    chain.next(rest, 0);
    assert_eq!(chain.next(rest, 0xff), Some(rest));
}

#[test]
fn sequence_up_wraps() {
    let notes = vec![note(0, 1), note(1, 1), note(2, 1)];
    let mut seq = Sequence::new(notes, Direction::Up);
    let got: Vec<_> = (0..5).map(|_| seq.next_note().unwrap().pitch.unwrap().0).collect();
    assert_eq!(got, vec![0, 1, 2, 0, 1]);
}

#[test]
fn sequence_down_wraps() {
    let notes = vec![note(0, 1), note(1, 1), note(2, 1)];
    let mut seq = Sequence::new(notes, Direction::Down);
    let got: Vec<_> = (0..5).map(|_| seq.next_note().unwrap().pitch.unwrap().0).collect();
    assert_eq!(got, vec![0, 2, 1, 0, 2]);
}

#[test]
fn sequence_ping_pong_turns() {
    let notes = vec![note(0, 1), note(1, 1), note(2, 1)];
    let mut seq = Sequence::new(notes, Direction::PingPong);
    let got: Vec<_> = (0..7).map(|_| seq.next_note().unwrap().pitch.unwrap().0).collect();
    assert_eq!(got, vec![0, 1, 2, 1, 0, 1, 2]);
}

#[test]
fn empty_sequence_gives_nothing() {
    let mut seq = Sequence::new(vec![], Direction::Up);
    assert_eq!(seq.next_note(), None);
}

#[test]
fn arpeggio_from_scale_degree() {
    // -19 is degree 2 of the pentatonic minor scale over A2: chord 0 5 8
    let mut arp = Sequence::new_arp(Pitch::a2(), Pitch(-19), Direction::Up, Duration::eighth()).unwrap();
    let got: Vec<_> = (0..3).map(|_| arp.next_note().unwrap()).collect();
    assert_eq!(got, vec![note(-24, 4), note(-19, 4), note(-16, 4)]);
    assert!(Sequence::new_arp(Pitch::a2(), Pitch(-23), Direction::Up, Duration::eighth()).is_none());
}

#[test]
fn fair_chance_share_bound_on_skewed_counts() {
    // shares: a 0.4, b 0.4, c 15.2 slots; each stays below its share plus one
    let choices = vec![('a', 1usize), ('b', 1usize), ('c', 38usize)];
    let slots = fair_chance_array(&choices);
    for (key, count) in choices {
        let n = slots.iter().filter(|&&k| k == key).count();
        assert!(n * 40 < 16 * count + 40);
    }
}
