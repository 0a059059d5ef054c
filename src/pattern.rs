use vstd::prelude::*;

verus! {

/// One percussion hit. `pos` is the offset in ticks from the end of the
/// previous note, `len` the note's own length in ticks, `key` the drum lane.
#[derive(Clone, Copy, Debug, PartialEq, Eq, Structural)]
pub struct Note {
    pub key: u8,
    pub len: usize,
    pub pos: usize,
}

/// An ordered sequence of notes and the number of drum lanes it is laid out on.
#[derive(Clone, Debug)]
pub struct Pattern {
    pub notes: Vec<Note>,
    pub drums: u8,
}

/// Number of drum lanes of a fresh pattern.
pub const DEFAULT_DRUMS: u8 = 3;

/// The ticks one note adds to a pattern's duration.
pub open spec fn note_ticks(n: Note) -> nat {
    n.pos as nat + n.len as nat
}

/// Sum of `pos + len` over the notes: the cumulative duration measure.
pub open spec fn notes_duration(s: Seq<Note>) -> nat
    decreases s.len(),
{
    if s.len() == 0 {
        0
    } else {
        notes_duration(s.drop_last()) + note_ticks(s.last())
    }
}

/// Duration of a sequence of notes, capped at the largest `usize`.
pub open spec fn capped_duration(s: Seq<Note>) -> nat {
    if notes_duration(s) <= usize::MAX {
        notes_duration(s)
    } else {
        usize::MAX as nat
    }
}

/// The duration of concatenated note sequences is the sum of their durations.
pub proof fn lemma_duration_concat(a: Seq<Note>, b: Seq<Note>)
    ensures
        notes_duration(a + b) == notes_duration(a) + notes_duration(b),
    decreases b.len(),
{
    if b.len() == 0 {
        assert(a + b =~= a);
    } else {
        lemma_duration_concat(a, b.drop_last());
        assert((a + b).drop_last() =~= a + b.drop_last());
        assert((a + b).last() == b.last());
    }
}

impl Pattern {
    /// The model of a pattern's duration.
    pub open spec fn duration(&self) -> nat {
        notes_duration(self.notes@)
    }

    /// An empty pattern on the default number of lanes.
    pub fn new() -> (r: Pattern)
        ensures
            r.notes@.len() == 0,
            r.drums == DEFAULT_DRUMS,
    {
        Pattern { notes: Vec::new(), drums: DEFAULT_DRUMS }
    }

    /// The duration, capped at `usize::MAX` where the true sum does not fit.
    pub fn capped_length(&self) -> (r: usize)
        ensures
            r == capped_duration(self.notes@),
    {
        let mut size: usize = 0;
        let mut i: usize = 0;
        while i < self.notes.len()
            invariant
                i <= self.notes@.len(),
                size == capped_duration(self.notes@.take(i as int)),
            decreases self.notes@.len() - i,
        {
            let n = self.notes[i];
            proof {
                let s = self.notes@.take(i as int + 1);
                assert(s.drop_last() =~= self.notes@.take(i as int));
                assert(s.last() == n);
            }
            let t = n.pos as u128 + n.len as u128 + size as u128;
            if t > usize::MAX as u128 {
                size = usize::MAX;
            } else {
                size = t as usize;
            }
            i = i + 1;
        }
        assert(self.notes@.take(i as int) =~= self.notes@);
        size
    }

    /// The duration: the sum of `pos + len` over all notes.
    pub fn length(&self) -> (r: usize)
        requires
            self.duration() <= usize::MAX,
        ensures
            r == self.duration(),
    {
        self.capped_length()
    }
}

} // verus!
