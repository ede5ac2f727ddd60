//! Splitting text into whitespace-delimited tokens and into physical lines.

use vstd::prelude::*;

verus! {

/// The whitespace characters that delimit fields of a record line.
pub open spec fn is_space(c: char) -> bool {
    c == ' ' || c == '\t' || c == '\n' || c == '\r' || c == '\x0b' || c == '\x0c'
}

/// Executable test matching [`is_space`].
pub fn is_space_char(c: char) -> (r: bool)
    ensures
        r == is_space(c),
{
    c == ' ' || c == '\t' || c == '\n' || c == '\r' || c == '\x0b' || c == '\x0c'
}

/// Whether two text slices hold the same characters.
pub fn str_eq(a: &str, b: &str) -> (r: bool)
    ensures
        r == (a@ == b@),
{
    let na = a.unicode_len();
    let nb = b.unicode_len();
    if na != nb {
        return false;
    }
    let mut i: usize = 0;
    while i < na
        invariant
            na == a@.len(),
            nb == b@.len(),
            na == nb,
            i <= na,
            forall|j: int| 0 <= j < i ==> a@[j] == b@[j],
        decreases na - i,
    {
        if a.get_char(i) != b.get_char(i) {
            return false;
        }
        i = i + 1;
    }
    proof {
        assert(a@ =~= b@);
    }
    true
}

/// State of a left-to-right tokenizing scan over the first `i` characters of
/// `s`: the tokens already completed, and the (possibly empty) run of
/// non-space characters the scan currently stands in.
pub open spec fn token_scan(s: Seq<char>, i: int) -> (Seq<Seq<char>>, Seq<char>)
    decreases i,
{
    if i <= 0 {
        (Seq::empty(), Seq::empty())
    } else {
        let (done, cur) = token_scan(s, i - 1);
        let c = s[i - 1];
        if is_space(c) {
            if cur.len() == 0 {
                (done, cur)
            } else {
                (done.push(cur), Seq::empty())
            }
        } else {
            (done, cur.push(c))
        }
    }
}

/// The whitespace-delimited tokens of `s`, in order: maximal runs of
/// non-space characters; leading, trailing and repeated whitespace carries no
/// empty token.
pub open spec fn tokens(s: Seq<char>) -> Seq<Seq<char>> {
    let (done, cur) = token_scan(s, s.len() as int);
    if cur.len() == 0 {
        done
    } else {
        done.push(cur)
    }
}

/// Whether `t` is a well-formed token: non-empty text without whitespace.
pub open spec fn is_token(t: Seq<char>) -> bool {
    t.len() > 0 && forall|j: int| 0 <= j < t.len() ==> !is_space(#[trigger] t[j])
}

/// Every completed token of a partial scan is a well-formed token, and the
/// current run holds no whitespace.
proof fn lemma_token_scan_wf(s: Seq<char>, i: int)
    requires
        0 <= i <= s.len(),
    ensures
        forall|k: int| 0 <= k < token_scan(s, i).0.len() ==> is_token(#[trigger] token_scan(s, i).0[k]),
        forall|j: int| 0 <= j < token_scan(s, i).1.len() ==> !is_space(#[trigger] token_scan(s, i).1[j]),
    decreases i,
{
    if i > 0 {
        lemma_token_scan_wf(s, i - 1);
        let (done, cur) = token_scan(s, i - 1);
        let c = s[i - 1];
        if is_space(c) && cur.len() > 0 {
            assert forall|k: int| 0 <= k < token_scan(s, i).0.len() implies is_token(
                #[trigger] token_scan(s, i).0[k],
            ) by {
                if k < done.len() {
                    assert(token_scan(s, i).0[k] == done[k]);
                } else {
                    assert(token_scan(s, i).0[k] == cur);
                }
            }
        } else if !is_space(c) {
            assert forall|j: int| 0 <= j < token_scan(s, i).1.len() implies !is_space(
                #[trigger] token_scan(s, i).1[j],
            ) by {
                if j < cur.len() {
                    assert(token_scan(s, i).1[j] == cur[j]);
                } else {
                    assert(token_scan(s, i).1[j] == c);
                }
            }
        }
    }
}

/// Every token of `s` is non-empty and free of whitespace.
pub proof fn lemma_tokens_wf(s: Seq<char>)
    ensures
        forall|k: int| 0 <= k < tokens(s).len() ==> is_token(#[trigger] tokens(s)[k]),
{
    lemma_token_scan_wf(s, s.len() as int);
}

/// Splits `s` into its whitespace-delimited tokens, in order.
pub fn split_tokens(s: &str) -> (toks: Vec<String>)
    ensures
        toks@.map_values(|t: String| t@) == tokens(s@),
{
    let n = s.unicode_len();
    let mut toks: Vec<String> = Vec::new();
    let mut start: usize = 0;
    let mut i: usize = 0;
    while i < n
        invariant
            n == s@.len(),
            start <= i <= n,
            toks@.map_values(|t: String| t@) == token_scan(s@, i as int).0,
            token_scan(s@, i as int).1 == s@.subrange(start as int, i as int),
        decreases n - i,
    {
        let c = s.get_char(i);
        if is_space_char(c) {
            if start < i {
                let tok = String::from_str(s.substring_char(start, i));
                proof {
                    let f = |t: String| t@;
                    assert(toks@.push(tok).map_values(f) =~= toks@.map_values(f).push(tok@));
                }
                toks.push(tok);
            }
            proof {
                assert(s@.subrange(i + 1, i + 1) =~= token_scan(s@, i + 1).1);
            }
            start = i + 1;
        } else {
            proof {
                assert(s@.subrange(start as int, i + 1) =~= s@.subrange(
                    start as int,
                    i as int,
                ).push(s@[i as int]));
            }
        }
        i = i + 1;
    }
    if start < n {
        let tok = String::from_str(s.substring_char(start, n));
        proof {
            let f = |t: String| t@;
            assert(toks@.push(tok).map_values(f) =~= toks@.map_values(f).push(tok@));
        }
        toks.push(tok);
    }
    toks
}

/// `l` with one trailing carriage return removed, if it has one.
pub open spec fn strip_cr(l: Seq<char>) -> Seq<char> {
    if l.len() > 0 && l.last() == '\r' {
        l.drop_last()
    } else {
        l
    }
}

/// State of a left-to-right line-splitting scan over the first `i`
/// characters of `s`: the lines already terminated by a newline (each with a
/// trailing carriage return stripped), and the characters of the line the
/// scan currently stands in.
pub open spec fn line_scan(s: Seq<char>, i: int) -> (Seq<Seq<char>>, Seq<char>)
    decreases i,
{
    if i <= 0 {
        (Seq::empty(), Seq::empty())
    } else {
        let (done, cur) = line_scan(s, i - 1);
        let c = s[i - 1];
        if c == '\n' {
            (done.push(strip_cr(cur)), Seq::empty())
        } else {
            (done, cur.push(c))
        }
    }
}

/// The physical lines of `s`: pieces separated by `'\n'`, each
/// newline-terminated piece with one trailing `'\r'` stripped. A final piece
/// after the last newline is kept as-is (no stripping); text ending in a
/// newline yields no empty final line.
pub open spec fn lines_of(s: Seq<char>) -> Seq<Seq<char>> {
    let (done, cur) = line_scan(s, s.len() as int);
    if cur.len() == 0 {
        done
    } else {
        done.push(cur)
    }
}

/// Splits `s` into its physical lines, as [`lines_of`] describes.
pub fn split_lines(s: &str) -> (lines: Vec<String>)
    ensures
        lines@.map_values(|l: String| l@) == lines_of(s@),
{
    let n = s.unicode_len();
    let mut lines: Vec<String> = Vec::new();
    let mut start: usize = 0;
    let mut i: usize = 0;
    while i < n
        invariant
            n == s@.len(),
            start <= i <= n,
            lines@.map_values(|l: String| l@) == line_scan(s@, i as int).0,
            line_scan(s@, i as int).1 == s@.subrange(start as int, i as int),
        decreases n - i,
    {
        let c = s.get_char(i);
        if c == '\n' {
            let end: usize = if i > start && s.get_char(i - 1) == '\r' {
                i - 1
            } else {
                i
            };
            let line = String::from_str(s.substring_char(start, end));
            proof {
                let cur = s@.subrange(start as int, i as int);
                if i > start && s@[i - 1] == '\r' {
                    assert(cur.last() == '\r');
                    assert(cur.drop_last() =~= s@.subrange(start as int, i - 1));
                } else if i > start {
                    assert(cur.last() == s@[i - 1]);
                }
                assert(line@ == strip_cr(cur));
                let f = |l: String| l@;
                assert(lines@.push(line).map_values(f) =~= lines@.map_values(f).push(line@));
                assert(s@.subrange(i + 1, i + 1) =~= line_scan(s@, i + 1).1);
            }
            lines.push(line);
            start = i + 1;
        } else {
            proof {
                assert(s@.subrange(start as int, i + 1) =~= s@.subrange(
                    start as int,
                    i as int,
                ).push(s@[i as int]));
            }
        }
        i = i + 1;
    }
    if start < n {
        let line = String::from_str(s.substring_char(start, n));
        proof {
            let f = |l: String| l@;
            assert(lines@.push(line).map_values(f) =~= lines@.map_values(f).push(line@));
        }
        lines.push(line);
    }
    lines
}

} // verus!
