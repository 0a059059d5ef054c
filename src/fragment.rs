use vstd::prelude::*;
use crate::pattern::{Note, Pattern, DEFAULT_DRUMS};
use vstd::string::{axiom_spec_iter, next_postcondition};
use vstd::std_specs::iter::IteratorSpec;

verus! {

broadcast use {axiom_spec_iter, next_postcondition};

/// Why a fragment's text was rejected.
#[derive(Clone, Copy, Debug, PartialEq, Eq, Structural)]
pub enum ParseError {
    /// A row holds a field that is not text at all.
    UnreadableRow,
    /// The text holds a double quote; the format has no quoting.
    QuotedField,
    /// One of a row's three leading fields is not an integer of its type.
    BadNumber,
}

/// The rows that quick-csv reads from a text: for each record, its fields, or
/// `None` where the reader could not read the record; `None` overall where a
/// record's bytes could not be turned into fields.
pub uninterp spec fn csv_rows_of(text: Seq<char>) -> Option<Seq<Option<Seq<Seq<char>>>>>;

/// The fields of each row, as character sequences.
pub open spec fn rows_view(rows: Seq<Option<Vec<String>>>) -> Seq<Option<Seq<Seq<char>>>> {
    rows.map_values(
        |row: Option<Vec<String>>|
            match row {
                Some(f) => Some(f@.map_values(|s: String| s@)),
                None => None,
            },
    )
}

/// Relies on `quick_csv::Csv::from_string` with flexible column counts, and
/// on `Row::columns`: the records of the text in order, each split into its
/// fields. Its column iterator strips a quoted field's first and last bytes,
/// and panics on some unbalanced quotes: hence text without quotes only.
#[verifier::external_body]
fn read_csv_rows(src: &str) -> (r: Option<Vec<Option<Vec<String>>>>)
    requires
        !src@.contains('"'),
    ensures
        match r {
            Some(rows) => csv_rows_of(src@) == Some(rows_view(rows@)),
            None => csv_rows_of(src@).is_none(),
        },
{
    let mut rows = Vec::new();
    for line in quick_csv::Csv::from_string(src).flexible(true) {
        match line {
            Ok(row) => match row.columns() {
                Ok(cols) => rows.push(Some(cols.map(String::from).collect())),
                Err(_) => return None,
            },
            Err(_) => rows.push(None),
        }
    }
    Some(rows)
}

/// Whether the text holds a double quote.
fn has_quote(s: &str) -> (r: bool)
    ensures
        r == s@.contains('"'),
{
    let mut it = s.chars();
    let ghost mut k: int = 0;
    loop
        invariant
            0 <= k <= s@.len(),
            it.remaining() == s@.skip(k),
            forall|j: int| 0 <= j < k ==> s@[j] != '"',
        decreases s@.len() - k,
    {
        let ghost before = it.remaining();
        match it.next() {
            None => {
                proof {
                    assert(before.len() == 0);
                    if s@.contains('"') {
                        let j = choose|j: int| 0 <= j < s@.len() && s@[j] == '"';
                        assert(j < k);
                    }
                }
                return false;
            },
            Some(c) => {
                proof {
                    assert(c == s@[k]);
                    assert(it.remaining() =~= s@.skip(k + 1));
                }
                if c == '"' {
                    return true;
                }
                proof {
                    k = k + 1;
                }
            },
        }
    }
}

/// Whether every character is an ASCII decimal digit, and there is one at least.
pub open spec fn is_digits(s: Seq<char>) -> bool {
    s.len() > 0 && forall|i: int| 0 <= i < s.len() ==> '0' <= #[trigger] s[i] <= '9'
}

/// The number that a string of decimal digits writes.
pub open spec fn digits_value(s: Seq<char>) -> nat
    decreases s.len(),
{
    if s.len() == 0 {
        0
    } else {
        digits_value(s.drop_last()) * 10 + (s.last() as nat - '0' as nat) as nat
    }
}

/// The value of an unsigned decimal integer as std's `from_str` reads it: an
/// optional `+`, then one digit or more; no blanks.
pub open spec fn unsigned_value(s: Seq<char>) -> Option<nat> {
    if s.len() > 0 && s[0] == '+' {
        if is_digits(s.drop_first()) {
            Some(digits_value(s.drop_first()))
        } else {
            None
        }
    } else if is_digits(s) {
        Some(digits_value(s))
    } else {
        None
    }
}

/// The value of `s` read as an integer no larger than `max`.
pub open spec fn bounded_value(s: Seq<char>, max: nat) -> Option<nat> {
    match unsigned_value(s) {
        Some(v) => if v <= max {
            Some(v)
        } else {
            None
        },
        None => None,
    }
}

/// Relies on `<usize as FromStr>::from_str`: decimal digits after an optional
/// `+`, with an error on anything else and on overflow.
#[verifier::external_body]
fn parse_usize(s: &str) -> (r: Option<usize>)
    ensures
        r matches Some(v) ==> bounded_value(s@, usize::MAX as nat) == Some(v as nat),
        r is None ==> bounded_value(s@, usize::MAX as nat) is None,
{
    s.parse::<usize>().ok()
}

/// Relies on `<u8 as FromStr>::from_str`: decimal digits after an optional
/// `+`, with an error on anything else and on values over 255.
#[verifier::external_body]
fn parse_u8(s: &str) -> (r: Option<u8>)
    ensures
        r matches Some(v) ==> bounded_value(s@, u8::MAX as nat) == Some(v as nat),
        r is None ==> bounded_value(s@, u8::MAX as nat) is None,
{
    s.parse::<u8>().ok()
}

/// What one row contributes: `Ok(None)` for a row that is skipped, `Ok(Some(note))`
/// for a row of three fields or more that read as numbers, and an error otherwise.
pub open spec fn row_note(row: Option<Seq<Seq<char>>>) -> Result<Option<Note>, ParseError> {
    match row {
        None => Ok(None),
        Some(f) => if f.len() < 3 {
            Ok(None)
        } else {
            match (
                bounded_value(f[0], usize::MAX as nat),
                bounded_value(f[1], usize::MAX as nat),
                bounded_value(f[2], u8::MAX as nat),
            ) {
                (Some(p), Some(l), Some(k)) => Ok(
                    Some(Note { pos: p as usize, len: l as usize, key: k as u8 }),
                ),
                _ => Err(ParseError::BadNumber),
            }
        },
    }
}

/// The notes that a sequence of rows gives, in order, or the first error.
pub open spec fn rows_notes(rows: Seq<Option<Seq<Seq<char>>>>) -> Result<Seq<Note>, ParseError>
    decreases rows.len(),
{
    if rows.len() == 0 {
        Ok(Seq::empty())
    } else {
        match rows_notes(rows.drop_last()) {
            Err(e) => Err(e),
            Ok(s) => match row_note(rows.last()) {
                Err(e) => Err(e),
                Ok(None) => Ok(s),
                Ok(Some(n)) => Ok(s.push(n)),
            },
        }
    }
}

/// The notes that a fragment's text holds, or why it is rejected.
pub open spec fn parse_notes(text: Seq<char>) -> Result<Seq<Note>, ParseError> {
    if text.contains('"') {
        Err(ParseError::QuotedField)
    } else {
        match csv_rows_of(text) {
            None => Err(ParseError::UnreadableRow),
            Some(rows) => rows_notes(rows),
        }
    }
}

fn parse_row(row: &Option<Vec<String>>) -> (r: Result<Option<Note>, ParseError>)
    ensures
        r == row_note(
            match row {
                Some(f) => Some(f@.map_values(|s: String| s@)),
                None => None,
            },
        ),
{
    match row {
        None => Ok(None),
        Some(f) => {
            if f.len() < 3 {
                return Ok(None);
            }
            let ghost v = f@.map_values(|s: String| s@);
            assert(v[0] == f@[0]@ && v[1] == f@[1]@ && v[2] == f@[2]@);
            let p = parse_usize(f[0].as_str());
            let l = parse_usize(f[1].as_str());
            let k = parse_u8(f[2].as_str());
            match (p, l, k) {
                (Some(p), Some(l), Some(k)) => Ok(Some(Note { pos: p, len: l, key: k })),
                _ => Err(ParseError::BadNumber),
            }
        },
    }
}

impl Pattern {
    /// Builds a fragment from rows of CSV fields: one note per row of three
    /// fields or more (`pos,len,key`), in order. Unreadable rows and rows of
    /// fewer fields are skipped; a leading field that is not a number of its
    /// type rejects all the rows.
    pub fn from_rows(rows: &Vec<Option<Vec<String>>>) -> (r: Result<Pattern, ParseError>)
        ensures
            match r {
                Ok(p) => rows_notes(rows_view(rows@)) == Ok::<Seq<Note>, ParseError>(p.notes@)
                    && p.drums == DEFAULT_DRUMS,
                Err(e) => rows_notes(rows_view(rows@)) == Err::<Seq<Note>, ParseError>(e),
            },
    {
        let ghost rv = rows_view(rows@);
        let mut this = Pattern::new();
        let mut i: usize = 0;
        assert(rv.take(0) =~= Seq::<Option<Seq<Seq<char>>>>::empty());
        assert(this.notes@ =~= Seq::<Note>::empty());
        while i < rows.len()
            invariant
                i <= rows@.len(),
                rv == rows_view(rows@),
                this.drums == DEFAULT_DRUMS,
                rows_notes(rv.take(i as int)) == Ok::<Seq<Note>, ParseError>(this.notes@),
            decreases rows@.len() - i,
        {
            proof {
                assert(rv.take(i as int + 1).drop_last() =~= rv.take(i as int));
            }
            match parse_row(&rows[i]) {
                Err(e) => {
                    proof {
                        assert(rows_notes(rv.take(i as int + 1)) == Err::<Seq<Note>, ParseError>(e));
                        lemma_error_persists(rv, i as int + 1);
                    }
                    return Err(e);
                },
                Ok(None) => {},
                Ok(Some(n)) => this.notes.push(n),
            }
            i = i + 1;
        }
        assert(rv.take(i as int) =~= rv);
        Ok(this)
    }

    /// Reads a fragment from CSV text, as `from_rows` does on the records
    /// that quick-csv reads from it. Text holding a double quote is rejected.
    pub fn from_csv(src: &str) -> (r: Result<Pattern, ParseError>)
        ensures
            match r {
                Ok(p) => parse_notes(src@) == Ok::<Seq<Note>, ParseError>(p.notes@)
                    && p.drums == DEFAULT_DRUMS,
                Err(e) => parse_notes(src@) == Err::<Seq<Note>, ParseError>(e),
            },
    {
        if has_quote(src) {
            return Err(ParseError::QuotedField);
        }
        match read_csv_rows(src) {
            Some(rows) => Pattern::from_rows(&rows),
            None => Err(ParseError::UnreadableRow),
        }
    }
}

/// Once a prefix of the rows is rejected, so are the rows as a whole.
proof fn lemma_error_persists(rows: Seq<Option<Seq<Seq<char>>>>, k: int)
    requires
        0 <= k <= rows.len(),
        rows_notes(rows.take(k)) is Err,
    ensures
        rows_notes(rows) == rows_notes(rows.take(k)),
    decreases rows.len() - k,
{
    if k < rows.len() {
        assert(rows.take(k + 1).drop_last() =~= rows.take(k));
        lemma_error_persists(rows, k + 1);
    } else {
        assert(rows.take(k) =~= rows);
    }
}

} // verus!
