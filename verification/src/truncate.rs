//! Bounded output shaping: head and tail truncation by line count and
//! byte size, with structured metadata about what was cut.

use vstd::prelude::*;

verus! {

use crate::text::{
    bytes_len,
    spec_lines,
    join_lines,
    views_of,
    all_no_nl,
    cut_chars,
    dec_rep,
    chars_of,
    string_of,
    lines_of,
    join_range,
    push_all,
    sub_chars,
    bytes_len_exec,
    cut_chars_exec,
    fmt_usize,
    str_bytes_len,
    lemma_bytes_len_nl,
    lemma_bytes_len_at_least_len,
    lemma_bytes_len_concat,
    lemma_join_take_step,
    lemma_join_take_bytes,
    lemma_join_skip_bytes,
    lemma_join_lines_bytes,
    lemma_spec_lines_no_nl,
    lemma_spec_lines_len,
    lemma_spec_lines_skip_le,
    lemma_count_nl_join,
    lemma_count_nl_nonneg,
    lemma_cut_chars_bounds,
};

/// Maximum lines returned from a file read.
pub const MAX_LINES: usize = 2000;

/// Maximum bytes returned from any tool output (~50 KB).
pub const MAX_BYTES: usize = 51200;

/// Maximum characters per line in search output.
pub const GREP_MAX_LINE_LENGTH: usize = 500;

/// Which budget caused a cut.
#[derive(Debug, Clone, Copy, PartialEq, Eq)]
pub enum TruncatedBy {
    Lines,
    Bytes,
}

/// Result of a truncation operation.
#[derive(Debug, Clone)]
pub struct TruncationResult {
    pub content: String,
    pub original_lines: usize,
    pub output_lines: usize,
    pub original_bytes: usize,
    pub output_bytes: usize,
    pub truncated_by: Option<TruncatedBy>,
}

// ---------------------------------------------------------------------
// Head truncation: keep the first lines within both budgets
// ---------------------------------------------------------------------

/// How many further lines a head scan keeps, starting at line `i` with
/// `bytes` bytes already kept.  The scan stops at the line budget, or
/// as soon as the next line (with its separator) would overrun the byte
/// budget.
pub open spec fn head_count_from(
    lines: Seq<Seq<char>>,
    i: int,
    bytes: int,
    max_lines: int,
    max_bytes: int,
) -> int
    decreases lines.len() - i,
    when 0 <= i <= lines.len()
{
    if i >= lines.len() || i >= max_lines {
        i
    } else {
        let cost = bytes_len(lines[i]) + (if i > 0 {
            1int
        } else {
            0int
        });
        if bytes + cost > max_bytes {
            i
        } else {
            head_count_from(lines, i + 1, bytes + cost, max_lines, max_bytes)
        }
    }
}

/// The number of leading lines a head truncation keeps.
pub open spec fn head_count(lines: Seq<Seq<char>>, max_lines: int, max_bytes: int) -> int {
    head_count_from(lines, 0, 0, max_lines, max_bytes)
}

/// The text a head truncation keeps once the fast path is passed.
pub open spec fn head_content(s: Seq<char>, max_lines: int, max_bytes: int) -> Seq<char> {
    join_lines(spec_lines(s).take(head_count(spec_lines(s), max_lines, max_bytes)))
}

/// The cut reason a head truncation reports once the fast path is
/// passed: the line budget where the scan stopped on it, else the byte
/// budget -- also where every line fit and only a trailing newline of
/// an over-budget input was dropped.
pub open spec fn head_reason(s: Seq<char>, max_lines: int, max_bytes: int) -> Option<TruncatedBy> {
    let lines = spec_lines(s);
    let k = head_count(lines, max_lines, max_bytes);
    if k == lines.len() {
        Some(TruncatedBy::Bytes)
    } else if k == max_lines {
        Some(TruncatedBy::Lines)
    } else {
        Some(TruncatedBy::Bytes)
    }
}

/// The content any head truncation returns, fast path included.
pub open spec fn head_full_content(s: Seq<char>, max_lines: int, max_bytes: int) -> Seq<char> {
    if spec_lines(s).len() <= max_lines && bytes_len(s) <= max_bytes {
        s
    } else {
        head_content(s, max_lines, max_bytes)
    }
}

/// The cut reason any head truncation reports, fast path included.
pub open spec fn head_full_reason(s: Seq<char>, max_lines: int, max_bytes: int) -> Option<
    TruncatedBy,
> {
    if spec_lines(s).len() <= max_lines && bytes_len(s) <= max_bytes {
        None
    } else {
        head_reason(s, max_lines, max_bytes)
    }
}

/// The output line count any head truncation reports, fast path
/// included.
pub open spec fn head_full_lines(s: Seq<char>, max_lines: int, max_bytes: int) -> int {
    if spec_lines(s).len() <= max_lines && bytes_len(s) <= max_bytes {
        spec_lines(s).len() as int
    } else {
        head_count(spec_lines(s), max_lines, max_bytes)
    }
}

/// Keep the first `max_lines` lines and first `max_bytes` bytes.
///
/// Input already within both budgets is returned unchanged with no cut
/// reason.  Otherwise lines are kept from the start, each joined by a
/// newline, stopping at the line budget or just before the byte budget
/// would be exceeded; a line is never partially included.
pub fn truncate_head(input: &str, max_lines: usize, max_bytes: usize) -> (r: TruncationResult)
    ensures
        r.original_lines == spec_lines(input@).len(),
        r.original_bytes == bytes_len(input@),
        spec_lines(input@).len() <= max_lines && bytes_len(input@) <= max_bytes ==> r.content@
            == input@ && r.truncated_by is None,
        !(spec_lines(input@).len() <= max_lines && bytes_len(input@) <= max_bytes) ==> {
            &&& r.content@ == head_content(input@, max_lines as int, max_bytes as int)
            &&& r.output_lines == head_count(spec_lines(input@), max_lines as int, max_bytes as int)
            &&& r.truncated_by == head_reason(input@, max_lines as int, max_bytes as int)
        },
        r.content@ == head_full_content(input@, max_lines as int, max_bytes as int),
        r.truncated_by == head_full_reason(input@, max_lines as int, max_bytes as int),
        r.output_lines == head_full_lines(input@, max_lines as int, max_bytes as int),
        r.output_bytes == bytes_len(r.content@),
        spec_lines(r.content@).len() <= r.output_lines,
        r.output_lines <= r.original_lines,
        r.output_bytes <= r.original_bytes,
{
    let original_bytes = str_bytes_len(input);
    let chars = chars_of(input);
    let lines = lines_of(&chars);
    let original_lines = lines.len();
    if original_lines <= max_lines && original_bytes <= max_bytes {
        return TruncationResult {
            content: input.to_owned(),
            original_lines,
            output_lines: original_lines,
            original_bytes,
            output_bytes: original_bytes,
            truncated_by: None,
        };
    }
    let ghost linesv = views_of(lines@);
    let ghost ml = max_lines as int;
    let ghost mb = max_bytes as int;
    let mut out: Vec<char> = Vec::new();
    let mut k: usize = 0;
    let mut byte_count: usize = 0;
    let mut reason: Option<TruncatedBy> = None;
    proof {
        assert(linesv.take(0) =~= Seq::<Seq<char>>::empty());
    }
    while k < lines.len() && reason.is_none()
        invariant
            0 <= k <= lines.len(),
            k <= max_lines,
            linesv == views_of(lines@),
            linesv == spec_lines(input@),
            ml == max_lines as int,
            mb == max_bytes as int,
            original_bytes == bytes_len(input@),
            out@ == join_lines(linesv.take(k as int)),
            byte_count == bytes_len(out@),
            reason is None ==> head_count(linesv, ml, mb) == head_count_from(
                linesv,
                k as int,
                byte_count as int,
                ml,
                mb,
            ),
            reason is Some ==> k as int == head_count(linesv, ml, mb) && k < lines.len(),
            reason is Some ==> (reason == Some(TruncatedBy::Lines) <==> k == max_lines),
            reason is Some ==> (reason == Some(TruncatedBy::Lines) || reason == Some(
                TruncatedBy::Bytes,
            )),
        decreases lines.len() - k, (if reason is None {
            1int
        } else {
            0int
        }),
    {
        if k >= max_lines {
            reason = Some(TruncatedBy::Lines);
        } else {
            proof {
                lemma_join_take_step(linesv, k as int);
                if k == 0 {
                    assert(join_lines(linesv.take(1)) == linesv[0]);
                } else {
                    lemma_bytes_len_concat(
                        join_lines(linesv.take(k as int)) + seq!['\n'],
                        linesv[k as int],
                    );
                    lemma_bytes_len_concat(join_lines(linesv.take(k as int)), seq!['\n']);
                    lemma_bytes_len_nl();
                }
                lemma_join_take_bytes(linesv, k + 1);
                lemma_join_lines_bytes(input@);
                lemma_bytes_len_at_least_len(linesv[k as int]);
                assert(views_of(lines@)[k as int] == lines@[k as int]@);
            }
            let lb = bytes_len_exec(&lines[k]);
            let sep: usize = if k > 0 {
                1
            } else {
                0
            };
            let new_bytes = byte_count + sep + lb;
            if new_bytes > max_bytes {
                reason = Some(TruncatedBy::Bytes);
            } else {
                if k > 0 {
                    out.push('\n');
                }
                push_all(&mut out, &lines[k]);
                byte_count = new_bytes;
                k = k + 1;
                proof {
                    if k - 1 == 0 {
                        assert(out@ =~= linesv[0]);
                    } else {
                        assert(out@ =~= join_lines(linesv.take(k - 1)) + seq!['\n'] + linesv[k - 1]);
                    }
                    assert(out@ == join_lines(linesv.take(k as int)));
                }
            }
        }
    }
    proof {
        if reason is None {
            assert(k == lines.len());
            assert(head_count_from(linesv, k as int, byte_count as int, ml, mb) == k as int);
        }
        assert(k as int == head_count(linesv, ml, mb));
        lemma_join_take_bytes(linesv, k as int);
        lemma_join_lines_bytes(input@);
        lemma_spec_lines_no_nl(input@);
        assert(all_no_nl(linesv.take(k as int))) by {
            assert(forall|i: int|
                0 <= i < linesv.take(k as int).len() ==> linesv.take(k as int)[i]
                    == linesv[i]);
        }
        lemma_count_nl_join(linesv.take(k as int));
        lemma_spec_lines_len(out@);
        lemma_count_nl_nonneg(out@);
    }
    let reason_final: Option<TruncatedBy> = match reason {
        Option::None => Option::Some(TruncatedBy::Bytes),
        Option::Some(t) => Option::Some(t),
    };
    let content = string_of(&out);
    TruncationResult {
        content,
        original_lines,
        output_lines: k,
        original_bytes,
        output_bytes: byte_count,
        truncated_by: reason_final,
    }
}

// ---------------------------------------------------------------------
// Tail truncation: keep the last lines, then trim bytes from the front
// ---------------------------------------------------------------------

/// Index of the first line a tail truncation keeps.
pub open spec fn tail_start(lines: Seq<Seq<char>>, max_lines: int) -> int {
    if lines.len() > max_lines {
        lines.len() - max_lines
    } else {
        0
    }
}

/// The last lines joined, before any byte trimming.
pub open spec fn tail_joined(s: Seq<char>, max_lines: int) -> Seq<char> {
    join_lines(spec_lines(s).skip(tail_start(spec_lines(s), max_lines)))
}

/// The text a tail truncation keeps once the fast path is passed:
/// bytes beyond the budget are removed from the front of the joined
/// lines, never splitting a character.
pub open spec fn tail_content(s: Seq<char>, max_lines: int, max_bytes: int) -> Seq<char> {
    let j = tail_joined(s, max_lines);
    if bytes_len(j) > max_bytes {
        j.skip(cut_chars(j, bytes_len(j) - max_bytes))
    } else {
        j
    }
}

/// The cut reason a tail truncation reports once the fast path is
/// passed: the byte budget where the joined text was trimmed, else the
/// line budget where leading lines were dropped, else the byte budget
/// again -- only a trailing newline of an over-budget input was
/// dropped.
pub open spec fn tail_reason(s: Seq<char>, max_lines: int, max_bytes: int) -> Option<TruncatedBy> {
    if bytes_len(tail_joined(s, max_lines)) > max_bytes {
        Some(TruncatedBy::Bytes)
    } else if tail_start(spec_lines(s), max_lines) > 0 {
        Some(TruncatedBy::Lines)
    } else {
        Some(TruncatedBy::Bytes)
    }
}

/// The content any tail truncation returns, fast path included.
pub open spec fn tail_full_content(s: Seq<char>, max_lines: int, max_bytes: int) -> Seq<char> {
    if spec_lines(s).len() <= max_lines && bytes_len(s) <= max_bytes {
        s
    } else {
        tail_content(s, max_lines, max_bytes)
    }
}

/// The cut reason any tail truncation reports, fast path included.
pub open spec fn tail_full_reason(s: Seq<char>, max_lines: int, max_bytes: int) -> Option<
    TruncatedBy,
> {
    if spec_lines(s).len() <= max_lines && bytes_len(s) <= max_bytes {
        None
    } else {
        tail_reason(s, max_lines, max_bytes)
    }
}

/// Keep the last `max_lines` lines and last `max_bytes` bytes.
///
/// Input already within both budgets is returned unchanged with no cut
/// reason.  Otherwise the last lines are kept and joined; if the joined
/// text still overruns the byte budget, bytes are removed from its
/// start, advancing past any partially cut character.
pub fn truncate_tail(input: &str, max_lines: usize, max_bytes: usize) -> (r: TruncationResult)
    ensures
        r.original_lines == spec_lines(input@).len(),
        r.original_bytes == bytes_len(input@),
        spec_lines(input@).len() <= max_lines && bytes_len(input@) <= max_bytes ==> r.content@
            == input@ && r.truncated_by is None,
        !(spec_lines(input@).len() <= max_lines && bytes_len(input@) <= max_bytes) ==> {
            &&& r.content@ == tail_content(input@, max_lines as int, max_bytes as int)
            &&& r.output_lines == spec_lines(r.content@).len()
            &&& r.truncated_by == tail_reason(input@, max_lines as int, max_bytes as int)
        },
        r.content@ == tail_full_content(input@, max_lines as int, max_bytes as int),
        r.truncated_by == tail_full_reason(input@, max_lines as int, max_bytes as int),
        r.output_lines == spec_lines(r.content@).len(),
        r.output_bytes == bytes_len(r.content@),
        r.output_lines <= r.original_lines,
        r.output_bytes <= r.original_bytes,
{
    let original_bytes = str_bytes_len(input);
    let chars = chars_of(input);
    let lines = lines_of(&chars);
    let original_lines = lines.len();
    if original_lines <= max_lines && original_bytes <= max_bytes {
        return TruncationResult {
            content: input.to_owned(),
            original_lines,
            output_lines: original_lines,
            original_bytes,
            output_bytes: original_bytes,
            truncated_by: None,
        };
    }
    let ghost linesv = views_of(lines@);
    let start: usize = if lines.len() > max_lines {
        lines.len() - max_lines
    } else {
        0
    };
    let joined = join_range(&lines, start, lines.len());
    proof {
        assert(linesv.subrange(start as int, linesv.len() as int) =~= linesv.skip(start as int));
        lemma_join_skip_bytes(linesv, start as int);
        lemma_join_lines_bytes(input@);
    }
    let jb = bytes_len_exec(&joined);
    let content_v: Vec<char>;
    let reason: Option<TruncatedBy>;
    let out_bytes: usize;
    if jb > max_bytes {
        let excess = jb - max_bytes;
        let d = cut_chars_exec(&joined, excess);
        proof {
            lemma_cut_chars_bounds(joined@, excess as int);
            assert(joined@ =~= joined@.take(d as int) + joined@.skip(d as int));
            lemma_bytes_len_concat(joined@.take(d as int), joined@.skip(d as int));
            lemma_bytes_len_at_least_len(joined@.take(d as int));
        }
        content_v = sub_chars(&joined, d, joined.len());
        proof {
            assert(joined@.subrange(d as int, joined@.len() as int) =~= joined@.skip(d as int));
        }
        reason = Some(TruncatedBy::Bytes);
        out_bytes = bytes_len_exec(&content_v);
    } else {
        content_v = joined;
        reason = if start > 0 {
            Some(TruncatedBy::Lines)
        } else {
            Some(TruncatedBy::Bytes)
        };
        out_bytes = jb;
    }
    let out_lines_vec = lines_of(&content_v);
    let output_lines = out_lines_vec.len();
    proof {
        // The kept text never has more lines than the original.
        lemma_spec_lines_no_nl(input@);
        assert(all_no_nl(linesv.skip(start as int))) by {
            assert(forall|i: int|
                0 <= i < linesv.skip(start as int).len() ==> linesv.skip(start as int)[i]
                    == linesv[i + start as int]);
        }
        lemma_count_nl_join(linesv.skip(start as int));
        lemma_spec_lines_len(joined@);
        if jb > max_bytes {
            lemma_spec_lines_skip_le(joined@, cut_chars(joined@, jb - max_bytes as int));
        }
    }
    TruncationResult {
        content: string_of(&content_v),
        original_lines,
        output_lines,
        original_bytes,
        output_bytes: out_bytes,
        truncated_by: reason,
    }
}

// ---------------------------------------------------------------------
// Single-line truncation
// ---------------------------------------------------------------------

/// The text `truncate_line` returns: the line itself when its
/// character count fits the budget, else its first `max_chars - 3`
/// characters followed by an ellipsis.
pub open spec fn truncate_line_spec(l: Seq<char>, max_chars: int) -> Seq<char> {
    if l.len() <= max_chars {
        l
    } else {
        l.take(if max_chars - 3 >= 0 {
            max_chars - 3
        } else {
            0int
        }) + "..."@
    }
}

/// Truncate a single line to at most `max_chars` characters, appending
/// `...` when something was cut.  The bound holds as long as the
/// budget has room for the ellipsis.
pub fn truncate_line(line: &str, max_chars: usize) -> (r: String)
    ensures
        r@ == truncate_line_spec(line@, max_chars as int),
        line@.len() <= max_chars ==> r@ == line@,
        max_chars >= 3 ==> r@.len() <= max_chars,
        line@.len() > max_chars ==> r@.len() >= 3 && r@.skip(r@.len() - 3) == "..."@,
{
    let chars = chars_of(line);
    if chars.len() <= max_chars {
        line.to_owned()
    } else {
        let m3: usize = if max_chars >= 3 {
            max_chars - 3
        } else {
            0
        };
        let mut out = sub_chars(&chars, 0, m3);
        proof {
            assert(line@.subrange(0, m3 as int) =~= line@.take(m3 as int));
        }
        out.push('.');
        out.push('.');
        out.push('.');
        proof {
            reveal_strlit("...");
            assert("..."@ =~= seq!['.', '.', '.']);
            assert(out@ =~= line@.take(m3 as int) + "..."@);
            assert(out@.skip(out@.len() - 3) =~= "..."@);
        }
        string_of(&out)
    }
}

// ---------------------------------------------------------------------
// Notices and metadata
// ---------------------------------------------------------------------

/// The notice text for a cut by the line budget.
pub open spec fn lines_notice_spec(out: int, orig: int) -> Seq<char> {
    "[Truncated: showing "@ + dec_rep(out) + " of "@ + dec_rep(orig) + " lines]"@
}

/// The notice text for a cut by the byte budget.
pub open spec fn bytes_notice_spec(out: int, orig: int) -> Seq<char> {
    "[Truncated: showing "@ + dec_rep(out) + " of "@ + dec_rep(orig) + " bytes]"@
}

impl TruncationResult {
    /// Whether either budget caused a cut.
    pub fn is_truncated(&self) -> (r: bool)
        ensures
            r == self.truncated_by is Some,
    {
        self.truncated_by.is_some()
    }

    /// A human-readable description of what was cut, if anything was.
    pub fn truncation_notice(&self) -> (r: Option<String>)
        ensures
            self.truncated_by is None ==> r is None,
            self.truncated_by == Some(TruncatedBy::Lines) ==> r is Some && r->0@
                == lines_notice_spec(self.output_lines as int, self.original_lines as int),
            self.truncated_by == Some(TruncatedBy::Bytes) ==> r is Some && r->0@
                == bytes_notice_spec(self.output_bytes as int, self.original_bytes as int),
    {
        match &self.truncated_by {
            Option::None => Option::None,
            Option::Some(TruncatedBy::Lines) => {
                let mut v = chars_of("[Truncated: showing ");
                let d1 = fmt_usize(self.output_lines);
                push_all(&mut v, &d1);
                let mid = chars_of(" of ");
                push_all(&mut v, &mid);
                let d2 = fmt_usize(self.original_lines);
                push_all(&mut v, &d2);
                let tail_lit = chars_of(" lines]");
                push_all(&mut v, &tail_lit);
                Option::Some(string_of(&v))
            },
            Option::Some(TruncatedBy::Bytes) => {
                let mut v = chars_of("[Truncated: showing ");
                let d1 = fmt_usize(self.output_bytes);
                push_all(&mut v, &d1);
                let mid = chars_of(" of ");
                push_all(&mut v, &mid);
                let d2 = fmt_usize(self.original_bytes);
                push_all(&mut v, &d2);
                let tail_lit = chars_of(" bytes]");
                push_all(&mut v, &tail_lit);
                Option::Some(string_of(&v))
            },
        }
    }
}

// ---------------------------------------------------------------------
// Line numbering
// ---------------------------------------------------------------------

/// `n` spaces.
pub open spec fn spaces(n: int) -> Seq<char>
    decreases n,
{
    if n <= 0 {
        Seq::<char>::empty()
    } else {
        spaces(n - 1).push(' ')
    }
}

/// A line prefixed with its right-aligned number (width six) and a tab.
pub open spec fn numbered_line(n: int, l: Seq<char>) -> Seq<char> {
    spaces(6 - dec_rep(n).len()) + dec_rep(n) + seq!['\t'] + l
}

/// Every line numbered consecutively from `start`.
pub open spec fn numbered_lines(ls: Seq<Seq<char>>, start: int) -> Seq<Seq<char>> {
    ls.map(|i: int, l: Seq<char>| numbered_line(start + i, l))
}

/// Every line numbered from `start`, joined with newlines.
pub open spec fn add_line_numbers_spec(s: Seq<char>, start: int) -> Seq<char> {
    join_lines(numbered_lines(spec_lines(s), start))
}

/// Prefix each line with a right-aligned line number (minimum width
/// six) and a tab, beginning at `start_line`.
pub fn add_line_numbers(content: &str, start_line: usize) -> (r: String)
    requires
        start_line + spec_lines(content@).len() <= usize::MAX,
    ensures
        r@ == add_line_numbers_spec(content@, start_line as int),
{
    let chars = chars_of(content);
    let lines = lines_of(&chars);
    let ghost linesv = views_of(lines@);
    let ghost mapped = numbered_lines(spec_lines(content@), start_line as int);
    let mut out: Vec<char> = Vec::new();
    let mut k: usize = 0;
    proof {
        assert(mapped.take(0) =~= Seq::<Seq<char>>::empty());
    }
    while k < lines.len()
        invariant
            0 <= k <= lines.len(),
            linesv == views_of(lines@),
            linesv == spec_lines(content@),
            start_line + linesv.len() <= usize::MAX,
            mapped == numbered_lines(spec_lines(content@), start_line as int),
            out@ == join_lines(mapped.take(k as int)),
        decreases lines.len() - k,
    {
        if k > 0 {
            out.push('\n');
        }
        let ghost base = out@;
        let digits = fmt_usize(start_line + k);
        let dlen = digits.len();
        let pad: usize = if dlen >= 6 {
            0
        } else {
            6 - dlen
        };
        let mut seg: Vec<char> = Vec::new();
        let mut j: usize = 0;
        while j < pad
            invariant
                0 <= j <= pad,
                seg@ == spaces(j as int),
            decreases pad - j,
        {
            seg.push(' ');
            j = j + 1;
        }
        proof {
            assert(seg@ == spaces(6 - dlen as int));
        }
        push_all(&mut out, &seg);
        push_all(&mut out, &digits);
        out.push('\t');
        push_all(&mut out, &lines[k]);
        proof {
            assert(views_of(lines@)[k as int] == lines@[k as int]@);
            assert(mapped[k as int] == numbered_line(start_line as int + k as int, linesv[k as int]));
            assert(out@ =~= base + spaces(6 - dec_rep(start_line as int + k as int).len()) + dec_rep(
                start_line as int + k as int,
            ) + seq!['\t'] + linesv[k as int]);
            assert(out@ =~= base + mapped[k as int]);
            lemma_join_take_step(mapped, k as int);
            if k == 0 {
                assert(out@ =~= join_lines(mapped.take(1)));
            } else {
                assert(base =~= join_lines(mapped.take(k as int)) + seq!['\n']);
                assert(out@ =~= join_lines(mapped.take(k as int)) + seq!['\n'] + mapped[k as int]);
            }
        }
        k = k + 1;
    }
    proof {
        assert(mapped.take(mapped.len() as int) =~= mapped);
    }
    string_of(&out)
}

// ---------------------------------------------------------------------
// Laws relating the two engines to their budgets
// ---------------------------------------------------------------------

proof fn lemma_head_count_no_byte_cut(ls: Seq<Seq<char>>, i: int, max_lines: int, max_bytes: int)
    requires
        0 <= i <= max_lines <= ls.len(),
        bytes_len(join_lines(ls)) <= max_bytes,
    ensures
        head_count_from(ls, i, bytes_len(join_lines(ls.take(i))), max_lines, max_bytes)
            == max_lines,
    decreases max_lines - i,
{
    if i < max_lines {
        lemma_join_take_step(ls, i);
        if i == 0 {
            assert(ls.take(0) =~= Seq::<Seq<char>>::empty());
            assert(bytes_len(join_lines(ls.take(0))) == 0);
            assert(join_lines(ls.take(1)) == ls[0]);
        } else {
            lemma_bytes_len_concat(join_lines(ls.take(i)) + seq!['\n'], ls[i]);
            lemma_bytes_len_concat(join_lines(ls.take(i)), seq!['\n']);
            lemma_bytes_len_nl();
        }
        lemma_join_take_bytes(ls, i + 1);
        lemma_head_count_no_byte_cut(ls, i + 1, max_lines, max_bytes);
    }
}

/// Input within both budgets passes through either engine unchanged,
/// with no cut reported.
pub proof fn lemma_truncate_within_budgets(s: Seq<char>, max_lines: int, max_bytes: int)
    requires
        spec_lines(s).len() <= max_lines,
        bytes_len(s) <= max_bytes,
    ensures
        head_full_content(s, max_lines, max_bytes) == s,
        head_full_reason(s, max_lines, max_bytes) is None,
        tail_full_content(s, max_lines, max_bytes) == s,
        tail_full_reason(s, max_lines, max_bytes) is None,
{
}

/// The reported cut reason is absent exactly when the input was
/// within both budgets.
pub proof fn lemma_cut_reason_iff(s: Seq<char>, max_lines: int, max_bytes: int)
    ensures
        (head_full_reason(s, max_lines, max_bytes) is None) <==> (spec_lines(s).len() <= max_lines
            && bytes_len(s) <= max_bytes),
        (tail_full_reason(s, max_lines, max_bytes) is None) <==> (spec_lines(s).len() <= max_lines
            && bytes_len(s) <= max_bytes),
{
}

/// Under a line budget below the line count but an ample byte budget,
/// head truncation keeps exactly the first `max_lines` lines.
pub proof fn lemma_truncate_head_lines(s: Seq<char>, max_lines: int, max_bytes: int)
    requires
        0 <= max_lines < spec_lines(s).len(),
        bytes_len(s) <= max_bytes,
    ensures
        head_count(spec_lines(s), max_lines, max_bytes) == max_lines,
        head_content(s, max_lines, max_bytes) == join_lines(spec_lines(s).take(max_lines)),
        head_reason(s, max_lines, max_bytes) == Some(TruncatedBy::Lines),
{
    lemma_join_lines_bytes(s);
    assert(spec_lines(s).take(0) =~= Seq::<Seq<char>>::empty());
    assert(bytes_len(join_lines(spec_lines(s).take(0))) == 0);
    lemma_head_count_no_byte_cut(spec_lines(s), 0, max_lines, max_bytes);
}

/// Under a line budget below the line count but an ample byte budget,
/// tail truncation keeps exactly the last `max_lines` lines.
pub proof fn lemma_truncate_tail_lines(s: Seq<char>, max_lines: int, max_bytes: int)
    requires
        0 <= max_lines < spec_lines(s).len(),
        bytes_len(s) <= max_bytes,
    ensures
        tail_content(s, max_lines, max_bytes) == join_lines(
            spec_lines(s).skip(spec_lines(s).len() - max_lines),
        ),
        tail_reason(s, max_lines, max_bytes) == Some(TruncatedBy::Lines),
{
    lemma_join_lines_bytes(s);
    lemma_join_skip_bytes(spec_lines(s), tail_start(spec_lines(s), max_lines));
}

} // verus!
