use vstd::prelude::*;
use crate::pattern::{Note, Pattern, notes_duration, note_ticks};

verus! {

/// Tempo of every encoded pattern, in beats per minute.
pub const TEMPO_BPM: u32 = 140;

/// Microseconds in a minute.
pub const MICROS_PER_MINUTE: u32 = 60000000;

/// Channel of every note event.
pub const CHANNEL: u8 = 0;

/// Velocity of every note event.
pub const VELOCITY: u8 = 100;

/// A MIDI event as this library emits it.
#[derive(Clone, Copy, Debug, PartialEq, Eq, Structural)]
pub enum MidiEvent {
    /// Microseconds per quarter note.
    SetTempo(u32),
    /// Channel, key, velocity.
    NoteOn(u8, u8, u8),
    /// Channel, key, velocity.
    NoteOff(u8, u8, u8),
}

/// An event and the ticks to wait after the previous one.
#[derive(Clone, Copy, Debug, PartialEq, Eq, Structural)]
pub struct TimedEvent {
    pub wait: usize,
    pub event: MidiEvent,
}

/// The tempo event that opens every encoding.
pub open spec fn tempo_event() -> TimedEvent {
    TimedEvent { wait: 0, event: MidiEvent::SetTempo((MICROS_PER_MINUTE / TEMPO_BPM) as u32) }
}

/// A note's two events: note-on after `pos` ticks, note-off `len` ticks later.
pub open spec fn note_events(n: Note) -> Seq<TimedEvent> {
    seq![
        TimedEvent { wait: n.pos, event: MidiEvent::NoteOn(CHANNEL, n.key, VELOCITY) },
        TimedEvent { wait: n.len, event: MidiEvent::NoteOff(CHANNEL, n.key, VELOCITY) },
    ]
}

/// The events of the notes in order, two per note.
pub open spec fn notes_events(s: Seq<Note>) -> Seq<TimedEvent>
    decreases s.len(),
{
    if s.len() == 0 {
        Seq::empty()
    } else {
        notes_events(s.drop_last()) + note_events(s.last())
    }
}

/// The full encoding of a sequence of notes.
pub open spec fn encoding(s: Seq<Note>) -> Seq<TimedEvent> {
    seq![tempo_event()] + notes_events(s)
}

/// The latest tick of a timeline, or zero for an empty one.
pub open spec fn track_end(t: Seq<(nat, MidiEvent)>) -> nat
    decreases t.len(),
{
    if t.len() == 0 {
        0
    } else if t.last().0 >= track_end(t.drop_last()) {
        t.last().0
    } else {
        track_end(t.drop_last())
    }
}

/// The timeline that appending the events one after the other gives: each
/// event at the track's latest tick plus its wait.
pub open spec fn timeline_of(es: Seq<TimedEvent>) -> Seq<(nat, MidiEvent)>
    decreases es.len(),
{
    if es.len() == 0 {
        Seq::empty()
    } else {
        let t = timeline_of(es.drop_last());
        t.push((track_end(t) + es.last().wait as nat, es.last().event))
    }
}

/// The summed waits of the events.
pub open spec fn waits(es: Seq<TimedEvent>) -> nat
    decreases es.len(),
{
    if es.len() == 0 {
        0
    } else {
        waits(es.drop_last()) + es.last().wait as nat
    }
}

/// The events of an apres MIDI document in the order they were added, each
/// with its absolute tick.
pub uninterp spec fn midi_timeline(m: apres::MIDI) -> Seq<(nat, MidiEvent)>;

#[verifier::external_type_specification]
#[verifier::external_body]
pub struct ExMidi(apres::MIDI);

/// Relies on `apres::MIDI::new`: a document with no events.
#[verifier::external_body]
fn new_midi() -> (r: apres::MIDI)
    ensures
        midi_timeline(r) == Seq::<(nat, MidiEvent)>::empty(),
{
    apres::MIDI::new()
}

/// Relies on `apres::MIDI::push_event` on track 0: the event is placed `wait`
/// ticks after the latest tick of the document's events.
#[verifier::external_body]
fn push_midi_event(m: &mut apres::MIDI, wait: usize, ev: MidiEvent)
    requires
        track_end(midi_timeline(*old(m))) + wait < usize::MAX,
    ensures
        midi_timeline(*final(m)) == midi_timeline(*old(m)).push(
            (track_end(midi_timeline(*old(m))) + wait as nat, ev),
        ),
{
    let event = match ev {
        MidiEvent::SetTempo(t) => apres::MIDIEvent::SetTempo(t),
        MidiEvent::NoteOn(c, k, v) => apres::MIDIEvent::NoteOn(c, k, v),
        MidiEvent::NoteOff(c, k, v) => apres::MIDIEvent::NoteOff(c, k, v),
    };
    m.push_event(0, wait, event);
}

/// Appending events ends the track at the sum of their waits.
pub proof fn lemma_timeline_end(es: Seq<TimedEvent>)
    ensures
        track_end(timeline_of(es)) == waits(es),
    decreases es.len(),
{
    if es.len() > 0 {
        lemma_timeline_end(es.drop_last());
        let t = timeline_of(es.drop_last());
        assert(timeline_of(es).drop_last() == t);
    }
}

proof fn lemma_waits_concat(a: Seq<TimedEvent>, b: Seq<TimedEvent>)
    ensures
        waits(a + b) == waits(a) + waits(b),
    decreases b.len(),
{
    if b.len() == 0 {
        assert(a + b =~= a);
    } else {
        lemma_waits_concat(a, b.drop_last());
        assert((a + b).drop_last() =~= a + b.drop_last());
    }
}

proof fn lemma_waits_prefix(es: Seq<TimedEvent>, i: int)
    requires
        0 <= i <= es.len(),
    ensures
        waits(es.take(i)) <= waits(es),
    decreases es.len() - i,
{
    if i < es.len() {
        lemma_waits_prefix(es, i + 1);
        assert(es.take(i + 1).drop_last() =~= es.take(i));
    } else {
        assert(es.take(i) =~= es);
    }
}

/// The waits of a pattern's encoding add up to its duration.
pub proof fn lemma_encoding_waits(s: Seq<Note>)
    ensures
        waits(encoding(s)) == notes_duration(s),
    decreases s.len(),
{
    let first = seq![tempo_event()];
    assert(first.drop_last() =~= Seq::<TimedEvent>::empty());
    assert(first.last() == tempo_event());
    reveal_with_fuel(waits, 2);
    assert(waits(first) == 0);
    lemma_notes_waits(s);
    lemma_waits_concat(first, notes_events(s));
}

proof fn lemma_notes_waits(s: Seq<Note>)
    ensures
        waits(notes_events(s)) == notes_duration(s),
    decreases s.len(),
{
    if s.len() > 0 {
        lemma_notes_waits(s.drop_last());
        let ne = note_events(s.last());
        assert(ne.drop_last().drop_last() =~= Seq::<TimedEvent>::empty());
        reveal_with_fuel(waits, 3);
        assert(waits(ne) == note_ticks(s.last()));
        lemma_waits_concat(notes_events(s.drop_last()), ne);
    }
}

/// Encoding a pattern of `k` notes gives `1 + 2k` events: the tempo first,
/// then for each note in order its note-on and its note-off.
pub proof fn lemma_encoding_layout(s: Seq<Note>)
    ensures
        encoding(s).len() == 1 + 2 * s.len(),
        encoding(s)[0] == tempo_event(),
        forall|i: int|
            0 <= i < s.len() ==> encoding(s)[1 + 2 * i] == #[trigger] note_events(s[i])[0]
                && encoding(s)[2 + 2 * i] == note_events(s[i])[1],
{
    lemma_notes_events_layout(s);
}

proof fn lemma_notes_events_layout(s: Seq<Note>)
    ensures
        notes_events(s).len() == 2 * s.len(),
        forall|i: int|
            0 <= i < s.len() ==> notes_events(s)[2 * i] == #[trigger] note_events(s[i])[0]
                && notes_events(s)[2 * i + 1] == note_events(s[i])[1],
    decreases s.len(),
{
    if s.len() > 0 {
        let p = s.drop_last();
        lemma_notes_events_layout(p);
        assert forall|i: int| 0 <= i < s.len() implies notes_events(s)[2 * i]
            == #[trigger] note_events(s[i])[0] && notes_events(s)[2 * i + 1]
            == note_events(s[i])[1] by {
            if i < p.len() {
                assert(s[i] == p[i]);
            }
        }
    }
}

impl Pattern {
    /// The MIDI events of the pattern: the tempo, then a note-on after each
    /// note's `pos` and a note-off after its `len`.
    pub fn events(&self) -> (r: Vec<TimedEvent>)
        ensures
            r@ == encoding(self.notes@),
    {
        let mut out: Vec<TimedEvent> = Vec::new();
        out.push(TimedEvent { wait: 0, event: MidiEvent::SetTempo(MICROS_PER_MINUTE / TEMPO_BPM) });
        let mut i: usize = 0;
        assert(self.notes@.take(0) =~= Seq::<Note>::empty());
        assert(out@ =~= encoding(self.notes@.take(0)));
        while i < self.notes.len()
            invariant
                i <= self.notes@.len(),
                out@ == encoding(self.notes@.take(i as int)),
            decreases self.notes@.len() - i,
        {
            let n = self.notes[i];
            let ghost before = out@;
            out.push(TimedEvent { wait: n.pos, event: MidiEvent::NoteOn(CHANNEL, n.key, VELOCITY) });
            out.push(TimedEvent { wait: n.len, event: MidiEvent::NoteOff(CHANNEL, n.key, VELOCITY) });
            proof {
                let s = self.notes@.take(i as int + 1);
                assert(s.drop_last() =~= self.notes@.take(i as int));
                assert(out@ =~= before + note_events(n));
            }
            i = i + 1;
        }
        assert(self.notes@.take(i as int) =~= self.notes@);
        out
    }

    /// The pattern as an apres MIDI document, ready to be saved.
    pub fn to_midi(&self) -> (r: apres::MIDI)
        requires
            self.duration() < usize::MAX,
        ensures
            midi_timeline(r) == timeline_of(encoding(self.notes@)),
    {
        let es = self.events();
        let mut midi = new_midi();
        let mut i: usize = 0;
        proof {
            lemma_encoding_waits(self.notes@);
            assert(es@.take(0) =~= Seq::<TimedEvent>::empty());
        }
        while i < es.len()
            invariant
                i <= es@.len(),
                waits(es@) < usize::MAX,
                midi_timeline(midi) == timeline_of(es@.take(i as int)),
            decreases es@.len() - i,
        {
            let e = es[i];
            proof {
                let s = es@.take(i as int + 1);
                assert(s.drop_last() =~= es@.take(i as int));
                lemma_timeline_end(es@.take(i as int));
                lemma_waits_prefix(es@, i as int + 1);
            }
            push_midi_event(&mut midi, e.wait, e.event);
            i = i + 1;
        }
        assert(es@.take(i as int) =~= es@);
        midi
    }
}

} // verus!
