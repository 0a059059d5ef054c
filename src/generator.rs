use vstd::prelude::*;
use crate::pattern::{
    Note, Pattern, DEFAULT_DRUMS, notes_duration, capped_duration, lemma_duration_concat,
};
use crate::fragment::parse_notes;

verus! {

/// Ticks in one beat.
pub const TICKS_PER_BEAT: usize = 120;

/// Why no pattern could be generated.
#[derive(Clone, Copy, Debug, PartialEq, Eq, Structural)]
pub enum GenerationError {
    /// The fragment library's directory does not exist.
    LibraryMissing,
    /// The library holds no fragment that could be read.
    NoFragments,
    /// Every fragment of the library has zero duration.
    AllFragmentsEmpty,
}

/// The texts of a library, as character sequences.
pub open spec fn texts_view(texts: Seq<String>) -> Seq<Seq<char>> {
    texts.map_values(|s: String| s@)
}

/// The fragments that a library's texts give: each text that parses, in order.
pub open spec fn fragments_of(texts: Seq<Seq<char>>) -> Seq<Seq<Note>>
    decreases texts.len(),
{
    if texts.len() == 0 {
        Seq::empty()
    } else {
        match parse_notes(texts.last()) {
            Ok(s) => fragments_of(texts.drop_last()).push(s),
            Err(_) => fragments_of(texts.drop_last()),
        }
    }
}

/// The notes of each pattern.
pub open spec fn notes_of(ps: Seq<Pattern>) -> Seq<Seq<Note>> {
    ps.map_values(|p: Pattern| p.notes@)
}

/// The notes of the drawn fragments, one after the other.
pub open spec fn concat_notes(picks: Seq<Seq<Note>>) -> Seq<Note>
    decreases picks.len(),
{
    if picks.len() == 0 {
        Seq::empty()
    } else {
        concat_notes(picks.drop_last()) + picks.last()
    }
}

/// The summed duration of the drawn fragments.
pub open spec fn picks_duration(picks: Seq<Seq<Note>>) -> nat
    decreases picks.len(),
{
    if picks.len() == 0 {
        0
    } else {
        picks_duration(picks.drop_last()) + notes_duration(picks.last())
    }
}

/// Every drawn fragment is a fragment of the library with nonzero duration.
pub open spec fn drawn_from(picks: Seq<Seq<Note>>, frags: Seq<Seq<Note>>) -> bool {
    forall|i: int|
        0 <= i < picks.len() ==> frags.contains(#[trigger] picks[i]) && notes_duration(picks[i]) > 0
}

/// `notes` is what drawing fragments of `frags` gives when drawing stops as
/// soon as their summed duration reaches `target` ticks.
pub open spec fn assembled_from(picks: Seq<Seq<Note>>, notes: Seq<Note>, frags: Seq<Seq<Note>>, target: nat) -> bool {
    drawn_from(picks, frags) && notes == concat_notes(picks) && picks_duration(picks) >= target
        && (picks.len() > 0 ==> picks_duration(picks.drop_last()) < target)
}

/// Whether some drawing of fragments of `frags` gives `notes` for `target`.
pub open spec fn assembles(notes: Seq<Note>, frags: Seq<Seq<Note>>, target: nat) -> bool {
    exists|picks: Seq<Seq<Note>>| assembled_from(picks, notes, frags, target)
}

/// Every fragment has zero duration.
pub open spec fn all_silent(frags: Seq<Seq<Note>>) -> bool {
    forall|k: int| 0 <= k < frags.len() ==> notes_duration(#[trigger] frags[k]) == 0
}

/// `x`, capped at the largest `usize`.
pub open spec fn cap(x: nat) -> nat {
    if x <= usize::MAX {
        x
    } else {
        usize::MAX as nat
    }
}

/// The duration of concatenated fragments is the sum of their durations.
pub proof fn lemma_concat_duration(picks: Seq<Seq<Note>>)
    ensures
        notes_duration(concat_notes(picks)) == picks_duration(picks),
    decreases picks.len(),
{
    if picks.len() > 0 {
        lemma_concat_duration(picks.drop_last());
        lemma_duration_concat(concat_notes(picks.drop_last()), picks.last());
    }
}

/// Relies on `macroquad::rand::rand`: a pseudo-random `u32`, of which nothing
/// is promised.
#[verifier::external_body]
fn random_u32() -> (r: u32) {
    macroquad::rand::rand()
}

impl Pattern {
    /// One draw: picks the candidate at `roll` modulo their number. A candidate
    /// of zero duration is removed from the candidates and nothing is added;
    /// any other has its notes appended to `self`. Returns the duration added,
    /// capped at `usize::MAX`.
    pub fn take_draw(&mut self, candidates: &mut Vec<Pattern>, roll: u32) -> (r: usize)
        requires
            old(candidates)@.len() > 0,
        ensures
            ({
                let i = roll as int % old(candidates)@.len() as int;
                let f = old(candidates)@[i];
                if f.duration() == 0 {
                    final(candidates)@ == old(candidates)@.remove(i) && final(self).notes@
                        == old(self).notes@ && r == 0
                } else {
                    final(candidates)@ == old(candidates)@ && final(self).notes@ == old(self).notes@
                        + f.notes@ && r == capped_duration(f.notes@) && r > 0
                }
            }),
            final(self).drums == old(self).drums,
    {
        let i = roll as usize % candidates.len();
        let d = candidates[i].capped_length();
        if d == 0 {
            proof {
                assert(capped_duration(candidates@[i as int].notes@) == 0);
            }
            candidates.remove(i);
            return 0;
        }
        let ghost before = self.notes@;
        let n = candidates[i].notes.len();
        let mut j: usize = 0;
        while j < n
            invariant
                j <= n,
                i < candidates@.len(),
                candidates@ == old(candidates)@,
                n == candidates@[i as int].notes@.len(),
                self.notes@ == before + candidates@[i as int].notes@.take(j as int),
                self.drums == old(self).drums,
            decreases n - j,
        {
            let note = candidates[i].notes[j];
            self.notes.push(note);
            proof {
                assert(candidates@[i as int].notes@.take(j as int + 1) =~= candidates@[i as int].notes@.take(j as int).push(note));
                assert(self.notes@ =~= before + candidates@[i as int].notes@.take(j as int + 1));
            }
            j = j + 1;
        }
        assert(candidates@[i as int].notes@.take(j as int) =~= candidates@[i as int].notes@);
        d
    }
}

/// What generation owes for a library of fragments `frags` and a target of
/// `target` ticks: no fragments fail with `NoFragments`; a positive target
/// with only silent fragments fails with `AllFragmentsEmpty`; otherwise a
/// pattern on the default lanes that some drawing of fragments assembles.
pub open spec fn generated(r: Result<Pattern, GenerationError>, frags: Seq<Seq<Note>>, target: nat) -> bool {
    if frags.len() == 0 {
        r == Err::<Pattern, GenerationError>(GenerationError::NoFragments)
    } else if target > 0 && all_silent(frags) {
        r == Err::<Pattern, GenerationError>(GenerationError::AllFragmentsEmpty)
    } else {
        r matches Ok(p) && assembles(p.notes@, frags, target) && p.drums == DEFAULT_DRUMS
    }
}

proof fn lemma_contains_after_remove(cands: Seq<Pattern>, i: int, f: Seq<Note>)
    requires
        0 <= i < cands.len(),
        notes_of(cands).contains(f),
        cands[i].notes@ != f,
    ensures
        notes_of(cands.remove(i)).contains(f),
{
    let j = choose|j: int| 0 <= j < notes_of(cands).len() && notes_of(cands)[j] == f;
    let rest = cands.remove(i);
    if j < i {
        assert(notes_of(rest)[j] == f);
    } else {
        assert(notes_of(rest)[j - 1] == f);
    }
}

/// Draws fragments at random, with replacement, until their summed duration
/// reaches `target` ticks; a drawn fragment of zero duration is dropped from
/// the candidates for good.
#[verifier::loop_isolation(false)]
pub fn assemble(fragments: Vec<Pattern>, target: usize) -> (r: Result<Pattern, GenerationError>)
    ensures
        generated(r, notes_of(fragments@), target as nat),
{
    let ghost frags = notes_of(fragments@);
    if fragments.len() == 0 {
        return Err(GenerationError::NoFragments);
    }
    let mut candidates = fragments;
    let mut this = Pattern::new();
    let mut acc: usize = 0;
    let ghost mut picks: Seq<Seq<Note>> = Seq::empty();
    assert(this.notes@ =~= concat_notes(picks));
    assert forall|k: int| 0 <= k < frags.len() && notes_duration(#[trigger] frags[k]) > 0
        implies notes_of(candidates@).contains(frags[k]) by {
        assert(notes_of(candidates@)[k] == frags[k]);
    }
    assert forall|j: int| 0 <= j < candidates@.len()
        implies frags.contains(#[trigger] candidates@[j].notes@) by {
        assert(frags[j] == candidates@[j].notes@);
    }
    while acc < target
        invariant
            candidates@.len() > 0,
            frags.len() > 0,
            forall|j: int| 0 <= j < candidates@.len() ==> frags.contains(#[trigger] candidates@[j].notes@),
            forall|k: int| 0 <= k < frags.len() && notes_duration(#[trigger] frags[k]) > 0
                ==> notes_of(candidates@).contains(frags[k]),
            drawn_from(picks, frags),
            this.notes@ == concat_notes(picks),
            acc == cap(picks_duration(picks)),
            picks.len() > 0 ==> picks_duration(picks.drop_last()) < target,
            this.drums == DEFAULT_DRUMS,
        decreases usize::MAX - acc, candidates@.len(),
    {
        let roll = random_u32();
        let ghost before = candidates@;
        let ghost idx = roll as int % before.len() as int;
        let d = this.take_draw(&mut candidates, roll);
        if d == 0 {
            assert forall|k: int| 0 <= k < frags.len() && notes_duration(#[trigger] frags[k]) > 0
                implies notes_of(candidates@).contains(frags[k]) by {
                lemma_contains_after_remove(before, idx, frags[k]);
            }
            assert forall|j: int| 0 <= j < candidates@.len()
                implies frags.contains(#[trigger] candidates@[j].notes@) by {
                if j < idx {
                    assert(candidates@[j] == before[j]);
                } else {
                    assert(candidates@[j] == before[j + 1]);
                }
            }
            if candidates.len() == 0 {
                assert forall|k: int| 0 <= k < frags.len() implies notes_duration(#[trigger] frags[k]) == 0 by {
                    if notes_duration(frags[k]) > 0 {
                        assert(notes_of(candidates@).contains(frags[k]));
                    }
                }
                return Err(GenerationError::AllFragmentsEmpty);
            }
        } else {
            proof {
                let f = before[idx].notes@;
                let old_picks = picks;
                picks = picks.push(f);
                assert(picks.drop_last() =~= old_picks);
                assert forall|i: int| 0 <= i < picks.len()
                    implies frags.contains(#[trigger] picks[i]) && notes_duration(picks[i]) > 0 by {
                    if i < old_picks.len() {
                        assert(picks[i] == old_picks[i]);
                    }
                }
            }
            if d > usize::MAX - acc {
                acc = usize::MAX;
            } else {
                acc = acc + d;
            }
        }
    }
    proof {
        assert(assembled_from(picks, this.notes@, frags, target as nat));
        if target > 0 {
            assert(picks.len() > 0);
            assert(frags.contains(picks[0]));
            let k = choose|k: int| 0 <= k < frags.len() && frags[k] == picks[0];
            assert(notes_duration(frags[k]) > 0);
        }
    }
    Ok(this)
}

/// Parses each text of a library and keeps those that parse, in order.
pub fn load_fragments(texts: &Vec<String>) -> (r: Vec<Pattern>)
    ensures
        notes_of(r@) == fragments_of(texts_view(texts@)),
{
    let ghost tv = texts_view(texts@);
    let mut out: Vec<Pattern> = Vec::new();
    let mut i: usize = 0;
    assert(tv.take(0) =~= Seq::<Seq<char>>::empty());
    assert(notes_of(out@) =~= Seq::<Seq<Note>>::empty());
    while i < texts.len()
        invariant
            i <= texts@.len(),
            tv == texts_view(texts@),
            notes_of(out@) == fragments_of(tv.take(i as int)),
        decreases texts@.len() - i,
    {
        assert(tv.take(i as int + 1).drop_last() =~= tv.take(i as int));
        assert(tv[i as int] == texts@[i as int]@);
        let ghost before = out@;
        match Pattern::from_csv(texts[i].as_str()) {
            Ok(p) => {
                out.push(p);
                assert(notes_of(out@) =~= notes_of(before).push(p.notes@));
            },
            Err(_) => {},
        }
        i = i + 1;
    }
    assert(tv.take(i as int) =~= tv);
    out
}

impl Pattern {
    /// Generates a pattern of at least `length` beats from a fragment
    /// library: `None` where the library's directory is missing, else the
    /// texts of its files.
    pub fn generate(library: Option<Vec<String>>, length: usize) -> (r: Result<Pattern, GenerationError>)
        requires
            length * TICKS_PER_BEAT <= usize::MAX,
        ensures
            match library {
                None => r == Err::<Pattern, GenerationError>(GenerationError::LibraryMissing),
                Some(texts) => generated(
                    r,
                    fragments_of(texts_view(texts@)),
                    (length * TICKS_PER_BEAT) as nat,
                ),
            },
    {
        let texts = match library {
            None => return Err(GenerationError::LibraryMissing),
            Some(texts) => texts,
        };
        let fragments = load_fragments(&texts);
        assemble(fragments, length * TICKS_PER_BEAT)
    }
}

/// A generated pattern never falls short of its target: its duration is at
/// least the target's ticks, whatever fragments were drawn.
pub proof fn lemma_generated_reaches_target(p: Pattern, frags: Seq<Seq<Note>>, target: nat)
    requires
        generated(Ok(p), frags, target),
    ensures
        p.duration() >= target,
{
    let picks = choose|picks: Seq<Seq<Note>>| assembled_from(picks, p.notes@, frags, target);
    lemma_concat_duration(picks);
}

/// With a target of zero and a library that is not empty, generation
/// succeeds without drawing: the pattern has no notes.
pub proof fn lemma_zero_target_draws_nothing(r: Result<Pattern, GenerationError>, frags: Seq<Seq<Note>>)
    requires
        frags.len() > 0,
        generated(r, frags, 0),
    ensures
        r matches Ok(p) && p.notes@.len() == 0,
{
    let p = r->Ok_0;
    let picks = choose|picks: Seq<Seq<Note>>| assembled_from(picks, p.notes@, frags, 0);
    assert(picks.len() == 0);
}

} // verus!
