//! The table of registered terminal (tty) drivers.
//!
//! Each line of the source text describes one driver:
//! `<name> <node_name> <major> <minor_bounds> <driver_type>`, fields
//! separated by runs of whitespace, where `<minor_bounds>` is either a
//! single integer `k` (the degenerate range `[k, k]`) or `<lower>-<upper>`.
//! The table maps each driver name to its record; a later line with the same
//! name overwrites the earlier one.

use vstd::prelude::*;

use crate::error::ProcError;
use crate::num::{int_value, valid_isize};
use crate::text::{lines_of, split_lines, split_tokens, tokens};

verus! {

/// An inclusive range of device minor numbers.
///
/// The range is built exactly as the source text gives it: no reordering and
/// no `lower <= upper` validation, so an input that supplies an inverted
/// range yields an inverted (empty) range here.
#[derive(Clone, Copy, Debug, PartialEq, Eq, Structural)]
pub struct MinorRange {
    /// The lower bound, inclusive.
    pub lower: isize,
    /// The upper bound, inclusive.
    pub upper: isize,
}

/// One registered tty driver.
#[derive(Debug)]
pub struct TttyDriver {
    /// The driver's registered name; the unique key of the table.
    pub name: String,
    /// The device node path the driver is bound to.
    pub node_name: String,
    /// The device major number.
    pub major_number: isize,
    /// The inclusive range of minor numbers the driver serves.
    pub minor_numbers: MinorRange,
    /// Free-form descriptor; may itself contain a colon-separated sub-type,
    /// treated as opaque text.
    pub driver_type: String,
}

/// The mathematical value of a [`TttyDriver`].
pub ghost struct TtyRec {
    pub name: Seq<char>,
    pub node_name: Seq<char>,
    pub major: int,
    pub minor_lo: int,
    pub minor_hi: int,
    pub driver_type: Seq<char>,
}

impl View for TttyDriver {
    type V = TtyRec;

    open spec fn view(&self) -> TtyRec {
        TtyRec {
            name: self.name@,
            node_name: self.node_name@,
            major: self.major_number as int,
            minor_lo: self.minor_numbers.lower as int,
            minor_hi: self.minor_numbers.upper as int,
            driver_type: self.driver_type@,
        }
    }
}

/// Whether `s` contains a hyphen.
pub open spec fn has_hyphen(s: Seq<char>) -> bool {
    exists|i: int| 0 <= i < s.len() && s[i] == '-'
}

/// The index of the first hyphen of `s`, or `s.len()` if there is none.
pub open spec fn first_hyphen(s: Seq<char>) -> int
    decreases s.len(),
{
    if s.len() == 0 {
        0
    } else if s[0] == '-' {
        0
    } else {
        1 + first_hyphen(s.skip(1))
    }
}

/// Characterizes [`first_hyphen`]: it is the least hyphen index, and equals
/// the length exactly when `s` has no hyphen.
pub proof fn lemma_first_hyphen(s: Seq<char>)
    ensures
        0 <= first_hyphen(s) <= s.len(),
        has_hyphen(s) <==> first_hyphen(s) < s.len(),
        first_hyphen(s) < s.len() ==> s[first_hyphen(s)] == '-',
        forall|j: int| 0 <= j < first_hyphen(s) ==> s[j] != '-',
    decreases s.len(),
{
    if s.len() > 0 && s[0] != '-' {
        lemma_first_hyphen(s.skip(1));
        if has_hyphen(s) {
            let i = choose|i: int| 0 <= i < s.len() && s[i] == '-';
            assert(s.skip(1)[i - 1] == '-');
        }
        if has_hyphen(s.skip(1)) {
            let i = choose|i: int| 0 <= i < s.skip(1).len() && s.skip(1)[i] == '-';
            assert(s[i + 1] == '-');
        }
        assert forall|j: int| 0 <= j < first_hyphen(s) implies s[j] != '-' by {
            if j > 0 {
                assert(s.skip(1)[j - 1] == s[j]);
            }
        }
    }
}

/// The result of reading a minor-bounds field: if the field contains a
/// hyphen, it is split at the first one and each side is read as a signed
/// integer `[lower, upper]`; otherwise the whole field is read as one signed
/// integer `k`, giving `[k, k]`. Any side that is not a well-shaped in-range
/// integer fails with [`ProcError::InvalidNumber`].
pub open spec fn spec_parse_minor(f: Seq<char>) -> Result<(int, int), ProcError> {
    if has_hyphen(f) {
        let i = first_hyphen(f);
        let lo = f.take(i);
        let hi = f.skip(i + 1);
        if valid_isize(lo) && valid_isize(hi) {
            Ok((int_value(lo), int_value(hi)))
        } else {
            Err(ProcError::InvalidNumber)
        }
    } else {
        if valid_isize(f) {
            Ok((int_value(f), int_value(f)))
        } else {
            Err(ProcError::InvalidNumber)
        }
    }
}

/// The result of parsing one tty-driver line: its whitespace-delimited
/// tokens are, in order, the name, the node name, the major number, the
/// minor bounds and the driver type. A missing field is
/// [`ProcError::MalformedRecord`]; a present but non-numeric (or
/// out-of-range) numeric field is [`ProcError::InvalidNumber`]; fields are
/// checked left to right, and tokens beyond the fifth are ignored.
pub open spec fn spec_parse_tty(line: Seq<char>) -> Result<TtyRec, ProcError> {
    let toks = tokens(line);
    if toks.len() < 3 {
        Err(ProcError::MalformedRecord)
    } else if !valid_isize(toks[2]) {
        Err(ProcError::InvalidNumber)
    } else if toks.len() < 4 {
        Err(ProcError::MalformedRecord)
    } else if spec_parse_minor(toks[3]) is Err {
        Err(ProcError::InvalidNumber)
    } else if toks.len() < 5 {
        Err(ProcError::MalformedRecord)
    } else {
        let (lo, hi) = spec_parse_minor(toks[3])->Ok_0;
        Ok(
            TtyRec {
                name: toks[0],
                node_name: toks[1],
                major: int_value(toks[2]),
                minor_lo: lo,
                minor_hi: hi,
                driver_type: toks[4],
            },
        )
    }
}

impl TttyDriver {
    /// Parses one line of the tty-driver table, exactly as
    /// [`spec_parse_tty`] describes.
    pub fn parse_line(line: &str) -> (r: Result<TttyDriver, ProcError>)
        ensures
            r is Ok <==> spec_parse_tty(line@) is Ok,
            r is Ok ==> r->Ok_0@ == spec_parse_tty(line@)->Ok_0,
            r is Err ==> r->Err_0 == spec_parse_tty(line@)->Err_0,
    {
        let toks = split_tokens(line);
        proof {
            assert(forall|i: int|
                0 <= i < toks@.len() ==> tokens(line@)[i] == (#[trigger] toks@[i])@);
        }
        if toks.len() < 3 {
            return Err(ProcError::MalformedRecord);
        }
        let major_number = match crate::num::parse_isize(toks[2].as_str()) {
            Ok(v) => v,
            Err(()) => {
                return Err(ProcError::InvalidNumber);
            },
        };
        if toks.len() < 4 {
            return Err(ProcError::MalformedRecord);
        }
        let minor_numbers = match Self::parse_minor(toks[3].as_str()) {
            Ok(m) => m,
            Err(e) => {
                return Err(e);
            },
        };
        if toks.len() < 5 {
            return Err(ProcError::MalformedRecord);
        }
        Ok(
            TttyDriver {
                name: toks[0].clone(),
                node_name: toks[1].clone(),
                major_number,
                minor_numbers,
                driver_type: toks[4].clone(),
            },
        )
    }

    /// The index of the first hyphen of `f`, or its length if there is
    /// none.
    fn find_hyphen(f: &str) -> (h: usize)
        ensures
            h <= f@.len(),
            h < f@.len() ==> f@[h as int] == '-',
            forall|j: int| 0 <= j < h ==> f@[j] != '-',
    {
        let n = f.unicode_len();
        let mut h: usize = 0;
        while h < n
            invariant
                n == f@.len(),
                h <= n,
                forall|j: int| 0 <= j < h ==> f@[j] != '-',
            decreases n - h,
        {
            if f.get_char(h) == '-' {
                return h;
            }
            h = h + 1;
        }
        h
    }

    /// Parses a minor-bounds field, exactly as [`spec_parse_minor`]
    /// describes.
    fn parse_minor(f: &str) -> (r: Result<MinorRange, ProcError>)
        ensures
            r is Ok <==> spec_parse_minor(f@) is Ok,
            r is Ok ==> {
                let (lo, hi) = spec_parse_minor(f@)->Ok_0;
                r->Ok_0.lower as int == lo && r->Ok_0.upper as int == hi
            },
            r is Err ==> r->Err_0 == spec_parse_minor(f@)->Err_0,
    {
        let n = f.unicode_len();
        let h = Self::find_hyphen(f);
        proof {
            lemma_first_hyphen(f@);
            if h < n {
                assert(first_hyphen(f@) == h);
            } else {
                assert(!has_hyphen(f@));
            }
        }
        if h < n {
            let lower = match crate::num::parse_isize(f.substring_char(0, h)) {
                Ok(v) => v,
                Err(()) => {
                    proof {
                        assert(f@.subrange(0, h as int) =~= f@.take(h as int));
                    }
                    return Err(ProcError::InvalidNumber);
                },
            };
            let upper = match crate::num::parse_isize(f.substring_char(h + 1, n)) {
                Ok(v) => v,
                Err(()) => {
                    proof {
                        assert(f@.subrange(h + 1, n as int) =~= f@.skip(h + 1));
                    }
                    return Err(ProcError::InvalidNumber);
                },
            };
            proof {
                assert(f@.subrange(0, h as int) =~= f@.take(h as int));
                assert(f@.subrange(h + 1, n as int) =~= f@.skip(h + 1));
            }
            Ok(MinorRange { lower, upper })
        } else {
            match crate::num::parse_isize(f) {
                Ok(v) => Ok(MinorRange { lower: v, upper: v }),
                Err(()) => Err(ProcError::InvalidNumber),
            }
        }
    }
}

/// Whether no two drivers of `s` share a name.
pub open spec fn distinct_names(s: Seq<TttyDriver>) -> bool {
    forall|i: int, j: int|
        0 <= i < j < s.len() ==> (#[trigger] s[i])@.name != (#[trigger] s[j])@.name
}

/// The name-keyed mapping that the drivers of `s` denote, a later entry
/// overwriting an earlier one of the same name.
pub open spec fn drivers_map(s: Seq<TttyDriver>) -> Map<Seq<char>, TtyRec>
    decreases s.len(),
{
    if s.len() == 0 {
        Map::empty()
    } else {
        drivers_map(s.drop_last()).insert(s.last()@.name, s.last()@)
    }
}

/// With distinct names, [`drivers_map`] holds exactly the names of `s`, and
/// maps each name to the record of the driver bearing it.
pub proof fn lemma_drivers_map_lookup(s: Seq<TttyDriver>, n: Seq<char>)
    requires
        distinct_names(s),
    ensures
        drivers_map(s).contains_key(n) <==> exists|i: int| 0 <= i < s.len() && (#[trigger] s[i])@.name == n,
        forall|i: int|
            0 <= i < s.len() && (#[trigger] s[i])@.name == n ==> drivers_map(s)[n] == s[i]@,
    decreases s.len(),
{
    broadcast use vstd::map::group_map_axioms;

    if s.len() > 0 {
        assert(distinct_names(s.drop_last()));
        lemma_drivers_map_lookup(s.drop_last(), n);
        assert(forall|i: int| 0 <= i < s.len() - 1 ==> s.drop_last()[i] == s[i]);
    }
}

/// With distinct names, [`drivers_map`] is finite and has one entry per
/// driver.
pub proof fn lemma_drivers_map_len(s: Seq<TttyDriver>)
    requires
        distinct_names(s),
    ensures
        drivers_map(s).dom().finite(),
        drivers_map(s).len() == s.len(),
    decreases s.len(),
{
    broadcast use vstd::map::group_map_axioms;
    broadcast use vstd::set::group_set_axioms;

    if s.len() > 0 {
        assert(distinct_names(s.drop_last()));
        lemma_drivers_map_len(s.drop_last());
        lemma_drivers_map_lookup(s.drop_last(), s.last()@.name);
        assert(forall|i: int| 0 <= i < s.len() - 1 ==> s.drop_last()[i] == s[i]);
        assert(!drivers_map(s.drop_last()).contains_key(s.last()@.name));
    }
}

/// Overwriting the one driver of a given name changes [`drivers_map`] at
/// that name alone, and keeps the names distinct.
pub proof fn lemma_drivers_map_update(s: Seq<TttyDriver>, k: int, d: TttyDriver)
    requires
        distinct_names(s),
        0 <= k < s.len(),
        s[k]@.name == d@.name,
    ensures
        distinct_names(s.update(k, d)),
        drivers_map(s.update(k, d)) == drivers_map(s).insert(d@.name, d@),
    decreases s.len(),
{
    broadcast use vstd::map::group_map_axioms;

    let t = s.update(k, d);
    assert(forall|i: int| 0 <= i < s.len() && i != k ==> t[i] == s[i]);
    assert(t[k] == d);
    if k == s.len() - 1 {
        assert(t.drop_last() =~= s.drop_last());
        assert(drivers_map(t) == drivers_map(s.drop_last()).insert(d@.name, d@));
        assert(drivers_map(s).insert(d@.name, d@) =~= drivers_map(s.drop_last()).insert(
            d@.name,
            d@,
        ));
    } else {
        assert(distinct_names(s.drop_last()));
        assert(s.drop_last()[k] == s[k]);
        lemma_drivers_map_update(s.drop_last(), k, d);
        assert(t.drop_last() =~= s.drop_last().update(k, d));
        assert(t.last() == s.last());
        assert(s.last()@.name != d@.name);
        assert(drivers_map(t) == drivers_map(s.drop_last()).insert(d@.name, d@).insert(
            s.last()@.name,
            s.last()@,
        ));
        assert(drivers_map(t) =~= drivers_map(s).insert(d@.name, d@));
    }
}

/// The table of registered tty drivers: one record per driver name.
#[derive(Debug)]
pub struct TtyDrivers {
    /// The records, in first-appearance order, no two sharing a name.
    pub drivers: Vec<TttyDriver>,
}

impl View for TtyDrivers {
    type V = Map<Seq<char>, TtyRec>;

    /// The table as a mapping from driver name to record.
    open spec fn view(&self) -> Map<Seq<char>, TtyRec> {
        drivers_map(self.drivers@)
    }
}

/// The result of decoding a whole tty-driver table from `lines`: each line
/// parsed in order per [`spec_parse_tty`] and inserted under its name (a
/// later line overwriting an earlier one of the same name); the first
/// failing line aborts the whole decode with its error, and no lines at all
/// give the empty table.
pub open spec fn spec_tty_table(lines: Seq<Seq<char>>) -> Result<Map<Seq<char>, TtyRec>, ProcError>
    decreases lines.len(),
{
    if lines.len() == 0 {
        Ok(Map::empty())
    } else {
        match spec_tty_table(lines.drop_last()) {
            Ok(m) => match spec_parse_tty(lines.last()) {
                Ok(r) => Ok(m.insert(r.name, r)),
                Err(e) => Err(e),
            },
            Err(e) => Err(e),
        }
    }
}

/// Once a prefix of the lines fails to decode, the whole input fails with
/// the same error: no later line can recover the decode.
pub proof fn lemma_tty_table_err_persists(lines: Seq<Seq<char>>, k: int)
    requires
        0 <= k <= lines.len(),
        spec_tty_table(lines.take(k)) is Err,
    ensures
        spec_tty_table(lines) == spec_tty_table(lines.take(k)),
    decreases lines.len(),
{
    if k < lines.len() {
        assert(lines.drop_last().take(k) =~= lines.take(k));
        lemma_tty_table_err_persists(lines.drop_last(), k);
    } else {
        assert(lines.take(k) =~= lines);
    }
}

/// Law: on a line that parses successfully with a hyphenated minor-bounds
/// field, the minor range is `[lower, upper]` with `lower` read from the
/// text before the first hyphen and `upper` from the text after it.
pub proof fn lemma_minor_range_hyphenated(line: Seq<char>)
    requires
        spec_parse_tty(line) is Ok,
        has_hyphen(tokens(line)[3]),
    ensures
        ({
            let f = tokens(line)[3];
            let h = first_hyphen(f);
            let rec = spec_parse_tty(line)->Ok_0;
            rec.minor_lo == int_value(f.take(h)) && rec.minor_hi == int_value(f.skip(h + 1))
        }),
{
}

/// Law: on a line that parses successfully with a single-integer
/// minor-bounds field `k`, the minor range is the degenerate `[k, k]`.
pub proof fn lemma_minor_range_single(line: Seq<char>)
    requires
        spec_parse_tty(line) is Ok,
        !has_hyphen(tokens(line)[3]),
    ensures
        spec_parse_tty(line)->Ok_0.minor_lo == int_value(tokens(line)[3]),
        spec_parse_tty(line)->Ok_0.minor_hi == int_value(tokens(line)[3]),
{
}

/// Law: the text fields of a successfully parsed record are non-empty
/// tokens free of whitespace.
pub proof fn lemma_tty_fields_are_tokens(line: Seq<char>)
    requires
        spec_parse_tty(line) is Ok,
    ensures
        crate::text::is_token(spec_parse_tty(line)->Ok_0.name),
        crate::text::is_token(spec_parse_tty(line)->Ok_0.node_name),
        crate::text::is_token(spec_parse_tty(line)->Ok_0.driver_type),
{
    crate::text::lemma_tokens_wf(line);
}

/// Law: an empty input source decodes to the empty table, not an error.
pub proof fn lemma_tty_empty_input()
    ensures
        spec_tty_table(Seq::empty()) == Ok::<_, ProcError>(Map::<Seq<char>, TtyRec>::empty()),
{
}

/// If every line parses successfully, the whole decode succeeds.
pub proof fn lemma_tty_table_ok(lines: Seq<Seq<char>>)
    requires
        forall|i: int| 0 <= i < lines.len() ==> spec_parse_tty(#[trigger] lines[i]) is Ok,
    ensures
        spec_tty_table(lines) is Ok,
    decreases lines.len(),
{
    if lines.len() > 0 {
        assert(forall|i: int| 0 <= i < lines.len() - 1 ==> lines.drop_last()[i] == lines[i]);
        lemma_tty_table_ok(lines.drop_last());
    }
}

/// A successful decode holds exactly the names of the parsed records as
/// keys.
pub proof fn lemma_tty_table_keys(lines: Seq<Seq<char>>, n: Seq<char>)
    requires
        forall|i: int| 0 <= i < lines.len() ==> spec_parse_tty(#[trigger] lines[i]) is Ok,
    ensures
        spec_tty_table(lines) is Ok,
        spec_tty_table(lines)->Ok_0.dom().finite(),
        spec_tty_table(lines)->Ok_0.contains_key(n) <==> exists|i: int|
            0 <= i < lines.len() && spec_parse_tty(#[trigger] lines[i])->Ok_0.name == n,
    decreases lines.len(),
{
    broadcast use vstd::map::group_map_axioms;
    broadcast use vstd::set::group_set_axioms;

    lemma_tty_table_ok(lines);
    if lines.len() > 0 {
        let prev = lines.drop_last();
        assert(forall|i: int| 0 <= i < lines.len() - 1 ==> prev[i] == lines[i]);
        lemma_tty_table_keys(prev, n);
        let last_rec = spec_parse_tty(lines.last())->Ok_0;
        if last_rec.name == n {
            assert(spec_parse_tty(lines[lines.len() - 1])->Ok_0.name == n);
        } else {
            if spec_tty_table(prev)->Ok_0.contains_key(n) {
                let i = choose|i: int|
                    0 <= i < prev.len() && spec_parse_tty(#[trigger] prev[i])->Ok_0.name == n;
                assert(spec_parse_tty(lines[i])->Ok_0.name == n);
            }
            if exists|i: int|
                0 <= i < lines.len() && spec_parse_tty(#[trigger] lines[i])->Ok_0.name == n {
                let i = choose|i: int|
                    0 <= i < lines.len() && spec_parse_tty(#[trigger] lines[i])->Ok_0.name == n;
                assert(i < lines.len() - 1);
                assert(spec_parse_tty(prev[i])->Ok_0.name == n);
            }
        }
    }
}

/// Law: decoding well-formed lines with all-distinct names yields a table
/// of exactly one entry per line.
pub proof fn lemma_tty_table_distinct_count(lines: Seq<Seq<char>>)
    requires
        forall|i: int| 0 <= i < lines.len() ==> spec_parse_tty(#[trigger] lines[i]) is Ok,
        forall|i: int, j: int|
            0 <= i < j < lines.len() ==> spec_parse_tty(#[trigger] lines[i])->Ok_0.name
                != spec_parse_tty(#[trigger] lines[j])->Ok_0.name,
    ensures
        spec_tty_table(lines) is Ok,
        spec_tty_table(lines)->Ok_0.len() == lines.len(),
    decreases lines.len(),
{
    broadcast use vstd::map::group_map_axioms;
    broadcast use vstd::set::group_set_axioms;

    lemma_tty_table_ok(lines);
    if lines.len() > 0 {
        let prev = lines.drop_last();
        assert(forall|i: int| 0 <= i < lines.len() - 1 ==> prev[i] == lines[i]);
        lemma_tty_table_distinct_count(prev);
        let last_rec = spec_parse_tty(lines.last())->Ok_0;
        lemma_tty_table_keys(prev, last_rec.name);
        if spec_tty_table(prev)->Ok_0.contains_key(last_rec.name) {
            let i = choose|i: int|
                0 <= i < prev.len() && spec_parse_tty(#[trigger] prev[i])->Ok_0.name
                    == last_rec.name;
            assert(spec_parse_tty(lines[i])->Ok_0.name == spec_parse_tty(
                lines[lines.len() - 1],
            )->Ok_0.name);
            assert(false);
        }
    }
}

/// Law: when no later line shares a name with line `i`, the decoded table
/// maps that name to exactly the record of line `i` — together with
/// [`lemma_tty_table_distinct_count`], a later line with the same name wins.
pub proof fn lemma_tty_table_last_write_wins(lines: Seq<Seq<char>>, i: int)
    requires
        forall|k: int| 0 <= k < lines.len() ==> spec_parse_tty(#[trigger] lines[k]) is Ok,
        0 <= i < lines.len(),
        forall|j: int|
            i < j < lines.len() ==> spec_parse_tty(#[trigger] lines[j])->Ok_0.name
                != spec_parse_tty(lines[i])->Ok_0.name,
    ensures
        spec_tty_table(lines) is Ok,
        spec_tty_table(lines)->Ok_0.contains_key(spec_parse_tty(lines[i])->Ok_0.name),
        spec_tty_table(lines)->Ok_0[spec_parse_tty(lines[i])->Ok_0.name] == spec_parse_tty(
            lines[i],
        )->Ok_0,
    decreases lines.len(),
{
    broadcast use vstd::map::group_map_axioms;

    lemma_tty_table_ok(lines);
    if i == lines.len() - 1 {
        assert(lines.last() == lines[i]);
    } else {
        let prev = lines.drop_last();
        assert(forall|k: int| 0 <= k < lines.len() - 1 ==> prev[k] == lines[k]);
        lemma_tty_table_last_write_wins(prev, i);
        assert(spec_parse_tty(lines[lines.len() - 1])->Ok_0.name != spec_parse_tty(
            lines[i],
        )->Ok_0.name);
    }
}

/// Law: a line with fewer than five tokens (whose numeric fields, where
/// present, are themselves well formed) fails the whole decode with
/// [`ProcError::MalformedRecord`] — no partial table results, since the
/// decode returns no table at all.
pub proof fn lemma_tty_short_line_malformed(lines: Seq<Seq<char>>, i: int)
    requires
        0 <= i < lines.len(),
        tokens(lines[i]).len() < 5,
        tokens(lines[i]).len() >= 3 ==> valid_isize(tokens(lines[i])[2]),
        tokens(lines[i]).len() >= 4 ==> spec_parse_minor(tokens(lines[i])[3]) is Ok,
        forall|j: int| 0 <= j < i ==> spec_parse_tty(#[trigger] lines[j]) is Ok,
    ensures
        spec_tty_table(lines) == Err::<Map<Seq<char>, TtyRec>, _>(ProcError::MalformedRecord),
{
    assert(spec_parse_tty(lines[i]) == Err::<TtyRec, _>(ProcError::MalformedRecord));
    assert(forall|j: int| 0 <= j < i ==> lines.take(i)[j] == lines[j]);
    lemma_tty_table_ok(lines.take(i));
    assert(lines.take(i + 1).drop_last() =~= lines.take(i));
    assert(lines.take(i + 1).last() == lines[i]);
    lemma_tty_table_err_persists(lines, i + 1);
}

/// Law: a line whose major-number field is not a well-formed in-range
/// signed integer fails the whole decode with [`ProcError::InvalidNumber`].
pub proof fn lemma_tty_bad_number(lines: Seq<Seq<char>>, i: int)
    requires
        0 <= i < lines.len(),
        tokens(lines[i]).len() >= 3,
        !valid_isize(tokens(lines[i])[2]),
        forall|j: int| 0 <= j < i ==> spec_parse_tty(#[trigger] lines[j]) is Ok,
    ensures
        spec_tty_table(lines) == Err::<Map<Seq<char>, TtyRec>, _>(ProcError::InvalidNumber),
{
    assert(spec_parse_tty(lines[i]) == Err::<TtyRec, _>(ProcError::InvalidNumber));
    assert(forall|j: int| 0 <= j < i ==> lines.take(i)[j] == lines[j]);
    lemma_tty_table_ok(lines.take(i));
    assert(lines.take(i + 1).drop_last() =~= lines.take(i));
    assert(lines.take(i + 1).last() == lines[i]);
    lemma_tty_table_err_persists(lines, i + 1);
}

impl TtyDrivers {
    /// Whether the representation is well formed: no two records share a
    /// name. Every table this module builds is.
    pub open spec fn wf(&self) -> bool {
        distinct_names(self.drivers@)
    }

    /// The empty table.
    pub fn new() -> (r: TtyDrivers)
        ensures
            r.wf(),
            r@ == Map::<Seq<char>, TtyRec>::empty(),
            r.drivers@.len() == 0,
    {
        TtyDrivers { drivers: Vec::new() }
    }

    /// Inserts `d` under its name, overwriting any record of the same name.
    pub fn insert(&mut self, d: TttyDriver)
        requires
            old(self).wf(),
        ensures
            final(self).wf(),
            final(self)@ == old(self)@.insert(d@.name, d@),
    {
        let n = self.drivers.len();
        let mut k: usize = 0;
        while k < n
            invariant
                n == self.drivers.len(),
                k <= n,
                self == old(self),
                old(self).wf(),
                forall|j: int| 0 <= j < k ==> (#[trigger] self.drivers@[j])@.name != d@.name,
            decreases n - k,
        {
            if self.drivers[k].name == d.name {
                proof {
                    lemma_drivers_map_update(self.drivers@, k as int, d);
                }
                self.drivers[k] = d;
                return ;
            }
            k = k + 1;
        }
        proof {
            let s = self.drivers@.push(d);
            assert(s.drop_last() =~= self.drivers@);
            assert(s.last() == d);
            assert(forall|i: int| 0 <= i < self.drivers@.len() ==> s[i] == self.drivers@[i]);
        }
        self.drivers.push(d);
    }

    /// Looks a driver up by name: `Some` exactly when the table holds the
    /// name, and then the record it maps to.
    pub fn get(&self, name: &str) -> (r: Option<&TttyDriver>)
        requires
            self.wf(),
        ensures
            match r {
                Some(d) => self@.contains_key(name@) && d@ == self@[name@],
                None => !self@.contains_key(name@),
            },
    {
        proof {
            lemma_drivers_map_lookup(self.drivers@, name@);
        }
        let n = self.drivers.len();
        let mut k: usize = 0;
        while k < n
            invariant
                n == self.drivers.len(),
                k <= n,
                self.wf(),
                forall|j: int| 0 <= j < k ==> (#[trigger] self.drivers@[j])@.name != name@,
            decreases n - k,
        {
            if crate::text::str_eq(self.drivers[k].name.as_str(), name) {
                proof {
                    assert(self.drivers@[k as int]@.name == name@);
                    lemma_drivers_map_lookup(self.drivers@, name@);
                    assert(self@.contains_key(name@));
                    assert(self@[name@] == self.drivers@[k as int]@);
                }
                return Some(&self.drivers[k]);
            }
            k = k + 1;
        }
        None
    }

    /// The number of entries of the table.
    pub fn len(&self) -> (r: usize)
        requires
            self.wf(),
        ensures
            r == self@.len(),
    {
        proof {
            lemma_drivers_map_len(self.drivers@);
        }
        self.drivers.len()
    }

    /// Decodes a whole tty-driver table from already-read lines, exactly as
    /// [`spec_tty_table`] describes: the table on success, the first
    /// failing line's error otherwise, and never a partial table.
    pub fn from_lines(lines: &Vec<String>) -> (r: Result<TtyDrivers, ProcError>)
        ensures
            ({
                let t = spec_tty_table(lines@.map_values(|l: String| l@));
                match r {
                    Ok(table) => t is Ok && table.wf() && table@ == t->Ok_0,
                    Err(e) => t is Err && e == t->Err_0,
                }
            }),
    {
        let ghost ln = lines@.map_values(|l: String| l@);
        let mut table = TtyDrivers::new();
        let n = lines.len();
        let mut i: usize = 0;
        while i < n
            invariant
                n == lines.len(),
                i <= n,
                ln == lines@.map_values(|l: String| l@),
                table.wf(),
                spec_tty_table(ln.take(i as int)) is Ok,
                spec_tty_table(ln.take(i as int))->Ok_0 == table@,
            decreases n - i,
        {
            proof {
                assert(ln.take(i + 1).drop_last() =~= ln.take(i as int));
                assert(ln.take(i + 1).last() == lines@[i as int]@);
            }
            match TttyDriver::parse_line(lines[i].as_str()) {
                Ok(d) => {
                    table.insert(d);
                },
                Err(e) => {
                    proof {
                        lemma_tty_table_err_persists(ln, i + 1);
                    }
                    return Err(e);
                },
            }
            i = i + 1;
        }
        proof {
            assert(ln.take(n as int) =~= ln);
        }
        Ok(table)
    }

    /// Decodes a whole tty-driver table from a single text, whose physical
    /// lines (as [`crate::text::lines_of`] describes) are the records.
    pub fn from_text(text: &str) -> (r: Result<TtyDrivers, ProcError>)
        ensures
            ({
                let t = spec_tty_table(lines_of(text@));
                match r {
                    Ok(table) => t is Ok && table.wf() && table@ == t->Ok_0,
                    Err(e) => t is Err && e == t->Err_0,
                }
            }),
    {
        let lines = split_lines(text);
        TtyDrivers::from_lines(&lines)
    }
}

} // verus!
