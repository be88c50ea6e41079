//! Content search helpers: literal pattern matching over lines, with
//! optional case folding, and the simple glob filter for file names.

use vstd::prelude::*;

verus! {

use crate::text::{
    chars_of,
    spec_lines,
    occurrences,
    starts_with,
    ends_with,
    contains_seq,
    starts_with_exec,
    ends_with_exec,
    contains_exec,
    scan_occurrences,
    sub_chars,
    eq_chars,
};

/// What `str::to_lowercase` returns for these characters.
pub uninterp spec fn lower_of(s: Seq<char>) -> Seq<char>;

/// Relies on `str::to_lowercase`: the Unicode lowercase mapping is a
/// function of the characters alone.
#[verifier::external_body]
pub(crate) fn to_lowercase(s: &str) -> (r: String)
    ensures
        r@ == lower_of(s@),
{
    s.to_lowercase()
}

/// Whether a line matches a search pattern: containment of the
/// pattern, after folding both to lowercase when case is ignored.
pub open spec fn pattern_matches(line: Seq<char>, pattern: Seq<char>, ignore_case: bool) -> bool {
    if ignore_case {
        contains_seq(lower_of(line), lower_of(pattern))
    } else {
        contains_seq(line, pattern)
    }
}

/// Whether a line matches a search pattern.  Patterns are always
/// literal here; the `literal` flag is accepted for the caller's sake
/// and changes nothing.
pub fn matches_pattern(line: &str, pattern: &str, _literal: bool, ignore_case: bool) -> (r: bool)
    ensures
        r == pattern_matches(line@, pattern@, ignore_case),
{
    if ignore_case {
        let ll = to_lowercase(line);
        let lp = to_lowercase(pattern);
        let lv = chars_of(ll.as_str());
        let pv = chars_of(lp.as_str());
        contains_exec(&lv, &pv)
    } else {
        let lv = chars_of(line);
        let pv = chars_of(pattern);
        contains_exec(&lv, &pv)
    }
}

// ---------------------------------------------------------------------
// Scanning one file and assembling the report
// ---------------------------------------------------------------------

/// One reported line: the display path, the one-based line number, the
/// line truncated to the length cap, with `:` before a matched line
/// and `-` before a context line.
pub open spec fn grep_line_ref(display: Seq<char>, n: int, sep: char, line: Seq<char>) -> Seq<
    char,
> {
    display + seq![':'] + crate::text::dec_rep(n) + seq![sep] + crate::truncate::truncate_line_spec(
        line,
        crate::truncate::GREP_MAX_LINE_LENGTH as int,
    ) + seq!['\n']
}

/// The context lines `a..b` (zero-based), each reported with `-`.
pub open spec fn grep_ctx_cat(display: Seq<char>, lines: Seq<Seq<char>>, a: int, b: int) -> Seq<
    char,
>
    decreases b - a,
{
    if a >= b {
        Seq::<char>::empty()
    } else {
        grep_ctx_cat(display, lines, a, b - 1) + grep_line_ref(display, b, '-', lines[b - 1])
    }
}

/// The block reported for a match on line `idx` (zero-based): up to
/// `context` lines before, the match itself, up to `context` lines
/// after.
pub open spec fn grep_block(
    display: Seq<char>,
    lines: Seq<Seq<char>>,
    idx: int,
    context: int,
) -> Seq<char> {
    let ctx_start = if idx - context >= 0 {
        idx - context
    } else {
        0int
    };
    let ctx_end = if idx + context + 1 <= lines.len() {
        idx + context + 1
    } else {
        lines.len() as int
    };
    grep_ctx_cat(display, lines, ctx_start, idx) + grep_line_ref(display, idx + 1, ':', lines[idx])
        + grep_ctx_cat(display, lines, idx + 1, ctx_end)
}

/// Scanning a file's lines from `i` with `total` matches already
/// found: the blocks emitted and the new total.  The scan stops once
/// the total reaches `maxm`, after emitting the block that reached it.
pub open spec fn grep_scan(
    display: Seq<char>,
    lines: Seq<Seq<char>>,
    pattern: Seq<char>,
    ignore_case: bool,
    context: int,
    i: int,
    total: int,
    maxm: int,
) -> (Seq<char>, int)
    decreases lines.len() - i,
    when 0 <= i
{
    if i >= lines.len() {
        (Seq::<char>::empty(), total)
    } else if pattern_matches(lines[i], pattern, ignore_case) {
        let blk = grep_block(display, lines, i, context);
        if total + 1 >= maxm {
            (blk, total + 1)
        } else {
            let rest = grep_scan(display, lines, pattern, ignore_case, context, i + 1, total + 1, maxm);
            (blk + rest.0, rest.1)
        }
    } else {
        grep_scan(display, lines, pattern, ignore_case, context, i + 1, total, maxm)
    }
}

/// Appends one reported line.
fn push_line_ref(out: &mut Vec<char>, display: &Vec<char>, n: usize, sep: char, line: &Vec<char>)
    ensures
        final(out)@ == old(out)@ + grep_line_ref(display@, n as int, sep, line@),
{
    crate::text::push_all(out, display);
    out.push(':');
    let d = crate::text::fmt_usize(n);
    crate::text::push_all(out, &d);
    out.push(sep);
    let ls = crate::text::string_of(line);
    let t = crate::truncate::truncate_line(ls.as_str(), crate::truncate::GREP_MAX_LINE_LENGTH);
    let tc = chars_of(t.as_str());
    crate::text::push_all(out, &tc);
    out.push('\n');
    proof {
        assert(out@ =~= old(out)@ + grep_line_ref(display@, n as int, sep, line@));
    }
}

/// Appends the context lines `a..b`, reported with `-`.
fn push_ctx(out: &mut Vec<char>, display: &Vec<char>, lines: &Vec<Vec<char>>, a: usize, b: usize)
    requires
        a <= b <= lines.len(),
    ensures
        final(out)@ == old(out)@ + grep_ctx_cat(
            display@,
            crate::text::views_of(lines@),
            a as int,
            b as int,
        ),
{
    let ghost linesv = crate::text::views_of(lines@);
    let mut g: usize = a;
    proof {
        assert(old(out)@ + grep_ctx_cat(display@, linesv, a as int, a as int) =~= old(out)@);
    }
    while g < b
        invariant
            a <= g <= b <= lines.len(),
            linesv == crate::text::views_of(lines@),
            out@ == old(out)@ + grep_ctx_cat(display@, linesv, a as int, g as int),
        decreases b - g,
    {
        proof {
            assert(crate::text::views_of(lines@)[g as int] == lines@[g as int]@);
        }
        push_line_ref(out, display, g + 1, '-', &lines[g]);
        proof {
            assert(grep_ctx_cat(display@, linesv, a as int, g + 1) == grep_ctx_cat(
                display@,
                linesv,
                a as int,
                g as int,
            ) + grep_line_ref(display@, g + 1, '-', linesv[g as int]));
            assert(out@ =~= old(out)@ + grep_ctx_cat(display@, linesv, a as int, g + 1));
        }
        g = g + 1;
    }
}

/// Scan one file's content for a pattern, reporting each matched line
/// with its context, until the overall match cap is reached.  Returns
/// the report block for this file and the new overall match count.
#[verifier::rlimit(80)]
pub fn grep_file(
    display: &str,
    content: &str,
    pattern: &str,
    _literal: bool,
    ignore_case: bool,
    context: usize,
    total: usize,
    max_matches: usize,
) -> (r: (String, usize))
    requires
        total < max_matches,
    ensures
        r.0@ == grep_scan(
            display@,
            spec_lines(content@),
            pattern@,
            ignore_case,
            context as int,
            0,
            total as int,
            max_matches as int,
        ).0,
        r.1 == grep_scan(
            display@,
            spec_lines(content@),
            pattern@,
            ignore_case,
            context as int,
            0,
            total as int,
            max_matches as int,
        ).1,
        total <= r.1 <= max_matches,
{
    let dv = chars_of(display);
    let cv = chars_of(content);
    let lines = crate::text::lines_of(&cv);
    let ghost linesv = crate::text::views_of(lines@);
    let ghost goal = grep_scan(
        display@,
        linesv,
        pattern@,
        ignore_case,
        context as int,
        0,
        total as int,
        max_matches as int,
    );
    let mut out: Vec<char> = Vec::new();
    let mut t: usize = total;
    let mut i: usize = 0;
    let mut stopped = false;
    while i < lines.len() && !stopped
        invariant
            0 <= i <= lines.len(),
            dv@ == display@,
            linesv == crate::text::views_of(lines@),
            linesv == spec_lines(content@),
            total <= t <= max_matches,
            goal == grep_scan(
                display@,
                linesv,
                pattern@,
                ignore_case,
                context as int,
                0,
                total as int,
                max_matches as int,
            ),
            !stopped ==> t < max_matches && goal == {
                let rest = grep_scan(
                    display@,
                    linesv,
                    pattern@,
                    ignore_case,
                    context as int,
                    i as int,
                    t as int,
                    max_matches as int,
                );
                (out@ + rest.0, rest.1)
            },
            stopped ==> goal == (out@, t as int),
        decreases lines.len() - i, (if stopped {
            0int
        } else {
            1int
        }),
    {
        let ghost out0 = out@;
        let ghost t0 = t as int;
        let line_s = crate::text::string_of(&lines[i]);
        proof {
            assert(crate::text::views_of(lines@)[i as int] == lines@[i as int]@);
        }
        if matches_pattern(line_s.as_str(), pattern, _literal, ignore_case) {
            let ctx_start: usize = if i >= context {
                i - context
            } else {
                0
            };
            let ghost c1 = grep_ctx_cat(display@, linesv, ctx_start as int, i as int);
            push_ctx(&mut out, &dv, &lines, ctx_start, i);
            let ghost lr = grep_line_ref(display@, i + 1, ':', linesv[i as int]);
            push_line_ref(&mut out, &dv, i + 1, ':', &lines[i]);
            let avail_after: usize = lines.len() - i - 1;
            let extra: usize = if context <= avail_after {
                context
            } else {
                avail_after
            };
            let ghost c2 = grep_ctx_cat(display@, linesv, i + 1, i + 1 + extra);
            push_ctx(&mut out, &dv, &lines, i + 1, i + 1 + extra);
            proof {
                assert(out@ == ((out0 + c1) + lr) + c2);
                assert(ctx_start as int == (if i as int - context as int >= 0 {
                    i as int - context as int
                } else {
                    0int
                }));
                assert(i + 1 + extra == (if i as int + context as int + 1 <= linesv.len() {
                    i as int + context as int + 1
                } else {
                    linesv.len() as int
                }));
                assert(grep_block(display@, linesv, i as int, context as int) == (c1 + lr) + c2);
                assert(((out0 + c1) + lr) + c2 =~= out0 + ((c1 + lr) + c2));
                assert(out@ =~= out0 + grep_block(display@, linesv, i as int, context as int));
            }
            t = t + 1;
            if t >= max_matches {
                stopped = true;
            }
            proof {
                let step = grep_scan(
                    display@,
                    linesv,
                    pattern@,
                    ignore_case,
                    context as int,
                    i as int,
                    t0,
                    max_matches as int,
                );
                let blk = grep_block(display@, linesv, i as int, context as int);
                if t0 + 1 >= max_matches {
                    assert(step == (blk, t0 + 1));
                    assert(goal == (out0 + blk, t0 + 1));
                } else {
                    let rest = grep_scan(
                        display@,
                        linesv,
                        pattern@,
                        ignore_case,
                        context as int,
                        i + 1,
                        t0 + 1,
                        max_matches as int,
                    );
                    assert(step == (blk + rest.0, rest.1));
                    assert(out0 + (blk + rest.0) =~= (out0 + blk) + rest.0);
                }
            }
        } else {
            proof {
                assert(grep_scan(
                    display@,
                    linesv,
                    pattern@,
                    ignore_case,
                    context as int,
                    i as int,
                    t0,
                    max_matches as int,
                ) == grep_scan(
                    display@,
                    linesv,
                    pattern@,
                    ignore_case,
                    context as int,
                    i + 1,
                    t0,
                    max_matches as int,
                ));
            }
        }
        i = i + 1;
    }
    proof {
        if !stopped {
            assert(grep_scan(
                display@,
                linesv,
                pattern@,
                ignore_case,
                context as int,
                i as int,
                t as int,
                max_matches as int,
            ) == (Seq::<char>::empty(), t as int));
            assert(out@ + Seq::<char>::empty() =~= out@);
        }
    }
    (crate::text::string_of(&out), t)
}

/// The accumulated report extended by one file's block: nothing for an
/// empty block, else the block after a blank-line separator when the
/// report already has content.
pub open spec fn appended_block(acc: Seq<char>, block: Seq<char>) -> Seq<char> {
    if block.len() == 0 {
        acc
    } else if acc.len() == 0 {
        block
    } else {
        acc + seq!['\n'] + block
    }
}

/// Append one file's report block to the accumulated report.
pub fn append_grep_block(acc: String, block: &str) -> (r: String)
    ensures
        r@ == appended_block(acc@, block@),
{
    let bc = chars_of(block);
    if bc.len() == 0 {
        return acc;
    }
    let mut av = chars_of(acc.as_str());
    if av.len() == 0 {
        return crate::text::string_of(&bc);
    }
    av.push('\n');
    crate::text::push_all(&mut av, &bc);
    proof {
        assert(av@ =~= acc@ + seq!['\n'] + block@);
    }
    crate::text::string_of(&av)
}

/// The report when nothing matched anywhere.
pub open spec fn no_matches_message_spec(
    pattern: Seq<char>,
    search_path: Seq<char>,
    cwd: Seq<char>,
) -> Seq<char> {
    "No matches found for pattern '"@ + pattern + "' in "@
        + crate::paths::display_path_spec(search_path, cwd)
}

/// The report when nothing matched anywhere.
pub fn grep_no_matches_message(pattern: &str, search_path: &str, cwd: &str) -> (r: String)
    ensures
        r@ == no_matches_message_spec(pattern@, search_path@, cwd@),
{
    let mut out = chars_of("No matches found for pattern '");
    let p = chars_of(pattern);
    crate::text::push_all(&mut out, &p);
    let mid = chars_of("' in ");
    crate::text::push_all(&mut out, &mid);
    let d = crate::paths::display_path(search_path, cwd);
    let dc = chars_of(d.as_str());
    crate::text::push_all(&mut out, &dc);
    crate::text::string_of(&out)
}

/// The assembled search report: the accumulated blocks bounded to a
/// line budget covering every match with its context and to the byte
/// budget, a marker when the match cap was reached, and a truncation
/// notice when something was cut.
pub open spec fn grep_final_spec(s: Seq<char>, total: int, context: int, maxm: int) -> Seq<char> {
    let ml = total + total * context * 2;
    let content = crate::truncate::head_full_content(s, ml, crate::truncate::MAX_BYTES as int);
    let base = content + (if total >= maxm {
        "\n[Reached max matches limit: "@ + crate::text::dec_rep(maxm) + "]"@
    } else {
        Seq::<char>::empty()
    });
    match crate::truncate::head_full_reason(s, ml, crate::truncate::MAX_BYTES as int) {
        None => base,
        Some(crate::truncate::TruncatedBy::Lines) => base + seq!['\n']
            + crate::truncate::lines_notice_spec(
            crate::truncate::head_full_lines(s, ml, crate::truncate::MAX_BYTES as int),
            spec_lines(s).len() as int,
        ),
        Some(crate::truncate::TruncatedBy::Bytes) => base + seq!['\n']
            + crate::truncate::bytes_notice_spec(
            crate::text::bytes_len(content),
            crate::text::bytes_len(s),
        ),
    }
}

/// Bound the accumulated report and append the cap marker and
/// truncation notice; also says whether anything was cut.
pub fn finish_grep_output(output: &str, total_matches: usize, context: usize, max_matches: usize)
    -> (r: (String, bool))
    requires
        total_matches * (1 + 2 * context) <= usize::MAX,
    ensures
        r.0@ == grep_final_spec(
            output@,
            total_matches as int,
            context as int,
            max_matches as int,
        ),
        r.1 == (crate::truncate::head_full_reason(
            output@,
            total_matches as int + total_matches as int * context as int * 2,
            crate::truncate::MAX_BYTES as int,
        ) is Some),
{
    proof {
        assert(total_matches * (1 + 2 * context) == total_matches + total_matches * context * 2)
            by (nonlinear_arith);
        assert(total_matches * context <= total_matches * (1 + 2 * context))
            by (nonlinear_arith);
        assert(total_matches * context * 2 <= total_matches * (1 + 2 * context))
            by (nonlinear_arith);
    }
    let ml = total_matches + total_matches * context * 2;
    let t = crate::truncate::truncate_head(output, ml, crate::truncate::MAX_BYTES);
    let notice = t.truncation_notice();
    let is_cut = t.is_truncated();
    let mut out = chars_of(t.content.as_str());
    if total_matches >= max_matches {
        let a = chars_of("\n[Reached max matches limit: ");
        crate::text::push_all(&mut out, &a);
        let d = crate::text::fmt_usize(max_matches);
        crate::text::push_all(&mut out, &d);
        let b = chars_of("]");
        crate::text::push_all(&mut out, &b);
    }
    match notice {
        Option::None => {},
        Option::Some(n) => {
            out.push('\n');
            let nc = chars_of(n.as_str());
            crate::text::push_all(&mut out, &nc);
        },
    }
    let r = crate::text::string_of(&out);
    proof {
        assert(r@ =~= grep_final_spec(
            output@,
            total_matches as int,
            context as int,
            max_matches as int,
        ));
    }
    (r, is_cut)
}

/// The glob filter for searched files: `*.ext` matches an extension, a
/// glob with exactly one `*` matches around it, one with several stars
/// filters nothing, anything else matches the name exactly.
pub open spec fn grep_glob_matches(filename: Seq<char>, glob: Seq<char>) -> bool {
    if glob.len() >= 2 && glob[0] == '*' && glob[1] == '.' {
        ends_with(filename, glob.skip(1))
    } else if occurrences(glob, seq!['*']).len() == 1 {
        let k = occurrences(glob, seq!['*'])[0];
        starts_with(filename, glob.take(k)) && ends_with(filename, glob.skip(k + 1))
    } else if occurrences(glob, seq!['*']).len() >= 2 {
        true
    } else {
        filename == glob
    }
}

/// Match a file name against the search tool's simple glob filter.
pub fn matches_glob(filename: &str, glob: &str) -> (r: bool)
    ensures
        r == grep_glob_matches(filename@, glob@),
{
    let f = chars_of(filename);
    let g = chars_of(glob);
    if g.len() >= 2 && g[0] == '*' && g[1] == '.' {
        let ext = sub_chars(&g, 1, g.len());
        proof {
            assert(g@.subrange(1, g@.len() as int) =~= g@.skip(1));
        }
        return ends_with_exec(&f, &ext);
    }
    let mut star: Vec<char> = Vec::new();
    star.push('*');
    proof {
        assert(star@ =~= seq!['*']);
    }
    let (count, first) = scan_occurrences(&g, &star);
    if count == 1 {
        let pre = sub_chars(&g, 0, first);
        let suf = sub_chars(&g, first + 1, g.len());
        proof {
            assert(g@.subrange(0, first as int) =~= g@.take(first as int));
            assert(g@.subrange(first + 1, g@.len() as int) =~= g@.skip(first + 1));
        }
        return starts_with_exec(&f, &pre) && ends_with_exec(&f, &suf);
    }
    if count >= 2 {
        return true;
    }
    eq_chars(&f, &g)
}

} // verus!
