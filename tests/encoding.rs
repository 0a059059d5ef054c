use breakgen::midi::{MidiEvent, TimedEvent};
use breakgen::pattern::Pattern;

#[test]
fn events_are_tempo_then_note_pairs() {
    let p = Pattern::from_csv("1,2,3\n4,5,6").unwrap();
    let es = p.events();
    assert_eq!(es.len(), 1 + 2 * 2);
    assert_eq!(es[0], TimedEvent { wait: 0, event: MidiEvent::SetTempo(428571) });
    assert_eq!(es[1], TimedEvent { wait: 1, event: MidiEvent::NoteOn(0, 3, 100) });
    assert_eq!(es[2], TimedEvent { wait: 2, event: MidiEvent::NoteOff(0, 3, 100) });
    assert_eq!(es[3], TimedEvent { wait: 4, event: MidiEvent::NoteOn(0, 6, 100) });
    assert_eq!(es[4], TimedEvent { wait: 5, event: MidiEvent::NoteOff(0, 6, 100) });
}

#[test]
fn events_of_empty_pattern() {
    let es = Pattern::new().events();
    assert_eq!(es.len(), 1);
}

#[test]
fn to_midi_holds_every_event() {
    let p = Pattern::from_csv("1,2,3\n4,5,6\n0,7,1").unwrap();
    let m = p.to_midi();
    assert_eq!(m.count_events(), 7);
    // Ticks are absolute: the last note-off ends at the pattern's duration.
    assert_eq!(m.get_track_length(0), p.length() + 1);
}
