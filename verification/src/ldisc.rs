//! The table of registered line disciplines.
//!
//! Each line of the source text describes one discipline:
//! `<name> <number>`, fields separated by runs of whitespace. The table is
//! an ordered sequence of records, in input order, duplicates kept.

use vstd::prelude::*;

use crate::error::ProcError;
use crate::num::{uint_value, valid_usize};
use crate::text::{lines_of, split_lines, split_tokens, tokens};

verus! {

/// One registered line discipline.
#[derive(Debug)]
pub struct LineDiscipline {
    /// The discipline's name.
    pub name: String,
    /// The discipline's numeric identifier.
    pub no: usize,
}

/// The mathematical value of a [`LineDiscipline`].
pub ghost struct LdiscRec {
    pub name: Seq<char>,
    pub no: int,
}

impl View for LineDiscipline {
    type V = LdiscRec;

    open spec fn view(&self) -> LdiscRec {
        LdiscRec { name: self.name@, no: self.no as int }
    }
}

/// The result of parsing one line-discipline line: its first
/// whitespace-delimited token is the name and its second the unsigned
/// numeric identifier. A missing field is [`ProcError::MalformedRecord`]; a
/// present but non-numeric (or out-of-range) number field is
/// [`ProcError::InvalidNumber`]; tokens beyond the second are ignored.
pub open spec fn spec_parse_ldisc(line: Seq<char>) -> Result<LdiscRec, ProcError> {
    let toks = tokens(line);
    if toks.len() < 2 {
        Err(ProcError::MalformedRecord)
    } else if !valid_usize(toks[1]) {
        Err(ProcError::InvalidNumber)
    } else {
        Ok(LdiscRec { name: toks[0], no: uint_value(toks[1]) })
    }
}

impl LineDiscipline {
    /// Parses one line of the line-discipline table, exactly as
    /// [`spec_parse_ldisc`] describes.
    pub fn parse_line(line: &str) -> (r: Result<LineDiscipline, ProcError>)
        ensures
            r is Ok <==> spec_parse_ldisc(line@) is Ok,
            r is Ok ==> r->Ok_0@ == spec_parse_ldisc(line@)->Ok_0,
            r is Err ==> r->Err_0 == spec_parse_ldisc(line@)->Err_0,
    {
        let toks = split_tokens(line);
        proof {
            assert(forall|i: int|
                0 <= i < toks@.len() ==> tokens(line@)[i] == (#[trigger] toks@[i])@);
        }
        if toks.len() < 2 {
            return Err(ProcError::MalformedRecord);
        }
        let no = match crate::num::parse_usize(toks[1].as_str()) {
            Ok(v) => v,
            Err(()) => {
                return Err(ProcError::InvalidNumber);
            },
        };
        Ok(LineDiscipline { name: toks[0].clone(), no })
    }
}

/// The table of registered line disciplines: the records in input order.
#[derive(Debug)]
pub struct LineDisciplines {
    /// The records, one per input line, in input order.
    pub disciplines: Vec<LineDiscipline>,
}

impl View for LineDisciplines {
    type V = Seq<LdiscRec>;

    /// The table as the ordered sequence of its records.
    open spec fn view(&self) -> Seq<LdiscRec> {
        self.disciplines@.map_values(|d: LineDiscipline| d@)
    }
}

/// The result of decoding a whole line-discipline table from `lines`: each
/// line parsed in order per [`spec_parse_ldisc`], the records kept in input
/// order, duplicates and all; the first failing line aborts the whole
/// decode with its error, and no lines at all give the empty sequence.
pub open spec fn spec_ldisc_table(lines: Seq<Seq<char>>) -> Result<Seq<LdiscRec>, ProcError>
    decreases lines.len(),
{
    if lines.len() == 0 {
        Ok(Seq::empty())
    } else {
        match spec_ldisc_table(lines.drop_last()) {
            Ok(s) => match spec_parse_ldisc(lines.last()) {
                Ok(r) => Ok(s.push(r)),
                Err(e) => Err(e),
            },
            Err(e) => Err(e),
        }
    }
}

/// Once a prefix of the lines fails to decode, the whole input fails with
/// the same error: no later line can recover the decode.
pub proof fn lemma_ldisc_table_err_persists(lines: Seq<Seq<char>>, k: int)
    requires
        0 <= k <= lines.len(),
        spec_ldisc_table(lines.take(k)) is Err,
    ensures
        spec_ldisc_table(lines) == spec_ldisc_table(lines.take(k)),
    decreases lines.len(),
{
    if k < lines.len() {
        assert(lines.drop_last().take(k) =~= lines.take(k));
        lemma_ldisc_table_err_persists(lines.drop_last(), k);
    } else {
        assert(lines.take(k) =~= lines);
    }
}

/// Law: decoding preserves input order exactly — a successful decode
/// yields one record per input line, and the i-th record is the parse of
/// the i-th line.
pub proof fn lemma_ldisc_table_order(lines: Seq<Seq<char>>)
    requires
        spec_ldisc_table(lines) is Ok,
    ensures
        spec_ldisc_table(lines)->Ok_0.len() == lines.len(),
        forall|i: int|
            0 <= i < lines.len() ==> spec_parse_ldisc(#[trigger] lines[i]) is Ok
                && spec_ldisc_table(lines)->Ok_0[i] == spec_parse_ldisc(lines[i])->Ok_0,
    decreases lines.len(),
{
    if lines.len() > 0 {
        lemma_ldisc_table_order(lines.drop_last());
        assert(forall|i: int| 0 <= i < lines.len() - 1 ==> lines.drop_last()[i] == lines[i]);
    }
}

/// Law: the name of a successfully parsed record is a non-empty token free
/// of whitespace.
pub proof fn lemma_ldisc_name_is_token(line: Seq<char>)
    requires
        spec_parse_ldisc(line) is Ok,
    ensures
        crate::text::is_token(spec_parse_ldisc(line)->Ok_0.name),
{
    crate::text::lemma_tokens_wf(line);
}

/// Law: an empty input source decodes to the empty sequence, not an error.
pub proof fn lemma_ldisc_empty_input()
    ensures
        spec_ldisc_table(Seq::empty()) == Ok::<_, ProcError>(Seq::<LdiscRec>::empty()),
{
}

/// If every line parses successfully, the whole decode succeeds.
pub proof fn lemma_ldisc_table_ok(lines: Seq<Seq<char>>)
    requires
        forall|i: int| 0 <= i < lines.len() ==> spec_parse_ldisc(#[trigger] lines[i]) is Ok,
    ensures
        spec_ldisc_table(lines) is Ok,
    decreases lines.len(),
{
    if lines.len() > 0 {
        assert(forall|i: int| 0 <= i < lines.len() - 1 ==> lines.drop_last()[i] == lines[i]);
        lemma_ldisc_table_ok(lines.drop_last());
    }
}

/// Law: a line with fewer than two tokens fails the whole decode with
/// [`ProcError::MalformedRecord`] — no partial sequence results, since the
/// decode returns no sequence at all.
pub proof fn lemma_ldisc_short_line_malformed(lines: Seq<Seq<char>>, i: int)
    requires
        0 <= i < lines.len(),
        tokens(lines[i]).len() < 2,
        forall|j: int| 0 <= j < i ==> spec_parse_ldisc(#[trigger] lines[j]) is Ok,
    ensures
        spec_ldisc_table(lines) == Err::<Seq<LdiscRec>, _>(ProcError::MalformedRecord),
{
    assert(spec_parse_ldisc(lines[i]) == Err::<LdiscRec, _>(ProcError::MalformedRecord));
    assert(forall|j: int| 0 <= j < i ==> lines.take(i)[j] == lines[j]);
    lemma_ldisc_table_ok(lines.take(i));
    assert(lines.take(i + 1).drop_last() =~= lines.take(i));
    assert(lines.take(i + 1).last() == lines[i]);
    lemma_ldisc_table_err_persists(lines, i + 1);
}

/// Law: a line whose number field is not a well-formed in-range unsigned
/// integer fails the whole decode with [`ProcError::InvalidNumber`].
pub proof fn lemma_ldisc_bad_number(lines: Seq<Seq<char>>, i: int)
    requires
        0 <= i < lines.len(),
        tokens(lines[i]).len() >= 2,
        !valid_usize(tokens(lines[i])[1]),
        forall|j: int| 0 <= j < i ==> spec_parse_ldisc(#[trigger] lines[j]) is Ok,
    ensures
        spec_ldisc_table(lines) == Err::<Seq<LdiscRec>, _>(ProcError::InvalidNumber),
{
    assert(spec_parse_ldisc(lines[i]) == Err::<LdiscRec, _>(ProcError::InvalidNumber));
    assert(forall|j: int| 0 <= j < i ==> lines.take(i)[j] == lines[j]);
    lemma_ldisc_table_ok(lines.take(i));
    assert(lines.take(i + 1).drop_last() =~= lines.take(i));
    assert(lines.take(i + 1).last() == lines[i]);
    lemma_ldisc_table_err_persists(lines, i + 1);
}

impl LineDisciplines {
    /// The empty table.
    pub fn new() -> (r: LineDisciplines)
        ensures
            r@ == Seq::<LdiscRec>::empty(),
    {
        let r = LineDisciplines { disciplines: Vec::new() };
        proof {
            assert(r@ =~= Seq::<LdiscRec>::empty());
        }
        r
    }

    /// Appends `d` at the end of the sequence.
    pub fn push(&mut self, d: LineDiscipline)
        ensures
            final(self)@ == old(self)@.push(d@),
    {
        proof {
            let f = |x: LineDiscipline| x@;
            assert(self.disciplines@.push(d).map_values(f) =~= self.disciplines@.map_values(
                f,
            ).push(d@));
        }
        self.disciplines.push(d);
    }

    /// The number of records of the table.
    pub fn len(&self) -> (r: usize)
        ensures
            r == self@.len(),
    {
        self.disciplines.len()
    }

    /// The `i`-th record, in input order: `Some` exactly when `i` is in
    /// range.
    pub fn get(&self, i: usize) -> (r: Option<&LineDiscipline>)
        ensures
            match r {
                Some(d) => i < self@.len() && d@ == self@[i as int],
                None => i >= self@.len(),
            },
    {
        if i < self.disciplines.len() {
            Some(&self.disciplines[i])
        } else {
            None
        }
    }

    /// Decodes a whole line-discipline table from already-read lines,
    /// exactly as [`spec_ldisc_table`] describes: the records in input
    /// order on success, the first failing line's error otherwise, and
    /// never a partial table.
    pub fn from_lines(lines: &Vec<String>) -> (r: Result<LineDisciplines, ProcError>)
        ensures
            ({
                let t = spec_ldisc_table(lines@.map_values(|l: String| l@));
                match r {
                    Ok(table) => t is Ok && table@ == t->Ok_0,
                    Err(e) => t is Err && e == t->Err_0,
                }
            }),
    {
        let ghost ln = lines@.map_values(|l: String| l@);
        let mut table = LineDisciplines::new();
        let n = lines.len();
        let mut i: usize = 0;
        while i < n
            invariant
                n == lines.len(),
                i <= n,
                ln == lines@.map_values(|l: String| l@),
                spec_ldisc_table(ln.take(i as int)) is Ok,
                spec_ldisc_table(ln.take(i as int))->Ok_0 == table@,
            decreases n - i,
        {
            proof {
                assert(ln.take(i + 1).drop_last() =~= ln.take(i as int));
                assert(ln.take(i + 1).last() == lines@[i as int]@);
            }
            match LineDiscipline::parse_line(lines[i].as_str()) {
                Ok(d) => {
                    table.push(d);
                },
                Err(e) => {
                    proof {
                        lemma_ldisc_table_err_persists(ln, i + 1);
                    }
                    return Err(e);
                },
            }
            i = i + 1;
        }
        proof {
            assert(ln.take(n as int) =~= ln);
        }
        Ok(table)
    }

    /// Decodes a whole line-discipline table from a single text, whose
    /// physical lines (as [`crate::text::lines_of`] describes) are the
    /// records.
    pub fn from_text(text: &str) -> (r: Result<LineDisciplines, ProcError>)
        ensures
            ({
                let t = spec_ldisc_table(lines_of(text@));
                match r {
                    Ok(table) => t is Ok && table@ == t->Ok_0,
                    Err(e) => t is Err && e == t->Err_0,
                }
            }),
    {
        let lines = split_lines(text);
        LineDisciplines::from_lines(&lines)
    }
}

} // verus!
