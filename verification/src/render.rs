//! Shaping of tool output around the engines: command output cleaned
//! and tail-truncated, file slices numbered and head-truncated,
//! directory listings sorted and capped, file-search results made
//! relative and joined, and the write confirmation line.

use vstd::prelude::*;

verus! {

use crate::text::{
    bytes_len,
    spec_lines,
    join_lines,
    views_of,
    str_views,
    lex_le,
    dec_rep,
    chars_of,
    string_of,
    lines_of,
    join_range,
    push_all,
    fmt_usize,
    str_bytes_len,
    cmp_chars,
};
use crate::truncate::{
    TruncatedBy,
    MAX_LINES,
    MAX_BYTES,
    truncate_head,
    truncate_tail,
    head_full_content,
    head_full_reason,
    head_full_lines,
    tail_full_content,
    tail_full_reason,
    lines_notice_spec,
    bytes_notice_spec,
};
use crate::ansi::{strip_ansi, strip_ansi_spec};
use crate::paths::{display_path, display_path_spec};
use crate::grep::{lower_of, to_lowercase};

/// Maximum lines kept from command output (tail).
pub const BASH_MAX_LINES: usize = 50;

// ---------------------------------------------------------------------
// Command output
// ---------------------------------------------------------------------

/// Command output shaped for display: ANSI codes and carriage returns
/// stripped, the last lines kept within the byte budget, and a notice
/// put before the content when something was cut.
pub open spec fn command_output_spec(s: Seq<char>) -> Seq<char> {
    let cleaned = strip_ansi_spec(s);
    let content = tail_full_content(cleaned, BASH_MAX_LINES as int, MAX_BYTES as int);
    match tail_full_reason(cleaned, BASH_MAX_LINES as int, MAX_BYTES as int) {
        None => content,
        Some(TruncatedBy::Lines) => lines_notice_spec(
            spec_lines(content).len() as int,
            spec_lines(cleaned).len() as int,
        ) + seq!['\n'] + content,
        Some(TruncatedBy::Bytes) => bytes_notice_spec(bytes_len(content), bytes_len(cleaned))
            + seq!['\n'] + content,
    }
}

/// Clean and bound raw command output; also says whether anything was
/// cut.
pub fn render_command_output(raw: &str) -> (r: (String, bool))
    ensures
        r.0@ == command_output_spec(raw@),
        r.1 == (tail_full_reason(strip_ansi_spec(raw@), BASH_MAX_LINES as int, MAX_BYTES as int)
            is Some),
{
    let cleaned = strip_ansi(raw);
    let t = truncate_tail(cleaned.as_str(), BASH_MAX_LINES, MAX_BYTES);
    let notice = t.truncation_notice();
    let is_cut = t.is_truncated();
    match notice {
        Option::None => (t.content, is_cut),
        Option::Some(n) => {
            let mut out = chars_of(n.as_str());
            out.push('\n');
            let c = chars_of(t.content.as_str());
            push_all(&mut out, &c);
            proof {
                assert(out@ =~= n@ + seq!['\n'] + t.content@);
            }
            (string_of(&out), is_cut)
        },
    }
}

// ---------------------------------------------------------------------
// Write confirmation
// ---------------------------------------------------------------------

/// The confirmation line for a completed write.
pub open spec fn write_report_spec(path: Seq<char>, content: Seq<char>) -> Seq<char> {
    "Wrote "@ + dec_rep(bytes_len(content)) + " bytes to "@ + path
}

/// The confirmation line for writing `content` to `path`.
pub fn write_report(path: &str, content: &str) -> (r: String)
    ensures
        r@ == write_report_spec(path@, content@),
{
    let n = str_bytes_len(content);
    let mut out = chars_of("Wrote ");
    let d = fmt_usize(n);
    push_all(&mut out, &d);
    let mid = chars_of(" bytes to ");
    push_all(&mut out, &mid);
    let p = chars_of(path);
    push_all(&mut out, &p);
    string_of(&out)
}

// ---------------------------------------------------------------------
// Sorting
// ---------------------------------------------------------------------

/// Whether the sequences are in lexicographic order.
pub open spec fn sorted_lex(ss: Seq<Seq<char>>) -> bool {
    forall|i: int, j: int| 0 <= i < j < ss.len() ==> lex_le(#[trigger] ss[i], #[trigger] ss[j])
}

/// Whether the entries are ordered by the lowercase form of their
/// names.
pub open spec fn sorted_by_lower(es: Seq<(Seq<char>, bool)>) -> bool {
    forall|i: int, j: int|
        0 <= i < j < es.len() ==> lex_le(
            lower_of((#[trigger] es[i]).0),
            lower_of((#[trigger] es[j]).0),
        )
}

/// Three-way comparison of two strings by the lexicographic order of
/// their lowercase forms.
fn cmp_lower(a: &String, b: &String) -> (r: core::cmp::Ordering)
    ensures
        (r == core::cmp::Ordering::Less) == crate::text::lex_lt(lower_of(a@), lower_of(b@)),
        (r == core::cmp::Ordering::Equal) == (lower_of(a@) == lower_of(b@)),
{
    let la = to_lowercase(a.as_str());
    let lb = to_lowercase(b.as_str());
    let ca = chars_of(la.as_str());
    let cb = chars_of(lb.as_str());
    cmp_chars(&ca, &cb)
}

/// Relies on `slice::sort`: sorts the strings in place in their
/// natural order (byte-wise, which for UTF-8 is the order of their
/// characters' code points), keeping exactly the same elements.
#[verifier::external_body]
fn sort_strings(v: &mut Vec<String>)
    ensures
        str_views(final(v)@).to_multiset() == str_views(old(v)@).to_multiset(),
        sorted_lex(str_views(final(v)@)),
{
    v.sort();
}

/// Relies on `slice::sort_by`: sorts the entries in place with the
/// given comparator, here the lowercase order of their names, keeping
/// exactly the same elements.
#[verifier::external_body]
fn sort_entries_by_lower(v: &mut Vec<(String, bool)>)
    ensures
        entry_views(final(v)@).to_multiset() == entry_views(old(v)@).to_multiset(),
        sorted_by_lower(entry_views(final(v)@)),
{
    v.sort_by(|a, b| cmp_lower(&a.0, &b.0));
}

// ---------------------------------------------------------------------
// File-search results
// ---------------------------------------------------------------------

/// The output of a file search over the sorted result paths: each made
/// relative to the working directory and joined, head-truncated to the
/// byte budget, with a limit marker when the result cap was reached
/// and a notice when the truncation cut anything.
pub open spec fn find_output_spec(
    sorted: Seq<Seq<char>>,
    cwd: Seq<char>,
    pattern: Seq<char>,
    limit: int,
) -> Seq<char> {
    let total = sorted.len() as int;
    if total == 0 {
        "No files matching '"@ + pattern + "' found"@
    } else {
        let output = join_lines(sorted.map_values(|p: Seq<char>| display_path_spec(p, cwd)));
        let content = head_full_content(output, total, MAX_BYTES as int);
        let with_limit = content + (if total >= limit {
            "\n[Reached limit: "@ + dec_rep(limit) + " results]"@
        } else {
            Seq::<char>::empty()
        });
        match head_full_reason(output, total, MAX_BYTES as int) {
            None => with_limit,
            Some(TruncatedBy::Lines) => with_limit + seq!['\n'] + lines_notice_spec(
                head_full_lines(output, total, MAX_BYTES as int),
                spec_lines(output).len() as int,
            ),
            Some(TruncatedBy::Bytes) => with_limit + seq!['\n'] + bytes_notice_spec(
                bytes_len(content),
                bytes_len(output),
            ),
        }
    }
}

/// Sort the found paths and render them for display.
pub fn render_find_results(results: Vec<String>, cwd: &str, pattern: &str, limit: usize) -> (r:
    String)
    ensures
        exists|sorted: Seq<Seq<char>>|
            {
                &&& sorted.to_multiset() == str_views(results@).to_multiset()
                &&& sorted_lex(sorted)
                &&& r@ == find_output_spec(sorted, cwd@, pattern@, limit as int)
            },
{
    let mut rs = results;
    sort_strings(&mut rs);
    let ghost sortedv = str_views(rs@);
    let total = rs.len();
    if total == 0 {
        let mut out = chars_of("No files matching '");
        let p = chars_of(pattern);
        push_all(&mut out, &p);
        let t = chars_of("' found");
        push_all(&mut out, &t);
        let r = string_of(&out);
        proof {
            assert(sortedv.len() == 0);
            assert(r@ == find_output_spec(sortedv, cwd@, pattern@, limit as int));
        }
        return r;
    }
    let mut rel: Vec<Vec<char>> = Vec::new();
    let mut k: usize = 0;
    let ghost mapped = sortedv.map_values(|p: Seq<char>| display_path_spec(p, cwd@));
    while k < rs.len()
        invariant
            0 <= k <= rs.len(),
            sortedv == str_views(rs@),
            mapped == sortedv.map_values(|p: Seq<char>| display_path_spec(p, cwd@)),
            views_of(rel@) == mapped.take(k as int),
        decreases rs.len() - k,
    {
        let ghost prev = views_of(rel@);
        let d = display_path(rs[k].as_str(), cwd);
        let dc = chars_of(d.as_str());
        proof {
            assert(str_views(rs@)[k as int] == rs@[k as int]@);
            assert(mapped[k as int] == display_path_spec(rs@[k as int]@, cwd@));
        }
        rel.push(dc);
        proof {
            assert(views_of(rel@) =~= prev.push(display_path_spec(rs@[k as int]@, cwd@)));
            assert(views_of(rel@) =~= mapped.take(k + 1));
        }
        k = k + 1;
    }
    proof {
        assert(mapped.take(mapped.len() as int) =~= mapped);
    }
    let joined = join_range(&rel, 0, rel.len());
    proof {
        assert(views_of(rel@).subrange(0, views_of(rel@).len() as int) =~= views_of(rel@));
    }
    let joined_s = string_of(&joined);
    let t = truncate_head(joined_s.as_str(), total, MAX_BYTES);
    let notice = t.truncation_notice();
    let mut out = chars_of(t.content.as_str());
    if total >= limit {
        let a = chars_of("\n[Reached limit: ");
        push_all(&mut out, &a);
        let d = fmt_usize(limit);
        push_all(&mut out, &d);
        let b = chars_of(" results]");
        push_all(&mut out, &b);
    }
    match notice {
        Option::None => {},
        Option::Some(n) => {
            out.push('\n');
            let nc = chars_of(n.as_str());
            push_all(&mut out, &nc);
        },
    }
    let r = string_of(&out);
    proof {
        assert(r@ =~= find_output_spec(sortedv, cwd@, pattern@, limit as int));
    }
    r
}

// ---------------------------------------------------------------------
// Directory listings
// ---------------------------------------------------------------------

/// The views of directory entries: name and directory flag.
pub open spec fn entry_views(es: Seq<(String, bool)>) -> Seq<(Seq<char>, bool)> {
    es.map_values(|e: (String, bool)| (e.0@, e.1))
}

/// One listed entry: the name, with a trailing slash for a directory.
pub open spec fn listed_entry(e: (Seq<char>, bool)) -> Seq<char> {
    if e.1 {
        e.0 + seq!['/']
    } else {
        e.0
    }
}

/// The listing of the sorted entries: the first `limit` shown, one per
/// line, a count marker when entries were withheld, and a fixed line
/// for an empty directory.
pub open spec fn ls_output_spec(sorted: Seq<(Seq<char>, bool)>, limit: int) -> Seq<char> {
    let total = sorted.len() as int;
    let shown = if total <= limit {
        total
    } else {
        limit
    };
    if total == 0 {
        "(empty directory)"@
    } else {
        join_lines(sorted.take(shown).map_values(|e: (Seq<char>, bool)| listed_entry(e))) + (if total
            > limit {
            "\n[Showing "@ + dec_rep(limit) + " of "@ + dec_rep(total) + " entries]"@
        } else {
            Seq::<char>::empty()
        })
    }
}

/// Sort directory entries case-insensitively and render the listing.
pub fn render_dir_listing(entries: Vec<(String, bool)>, limit: usize) -> (r: String)
    ensures
        exists|sorted: Seq<(Seq<char>, bool)>|
            {
                &&& sorted.to_multiset() == entry_views(entries@).to_multiset()
                &&& sorted_by_lower(sorted)
                &&& r@ == ls_output_spec(sorted, limit as int)
            },
{
    let mut es = entries;
    sort_entries_by_lower(&mut es);
    let ghost sortedv = entry_views(es@);
    let total = es.len();
    if total == 0 {
        let r = string_of(&chars_of("(empty directory)"));
        proof {
            assert(r@ == ls_output_spec(sortedv, limit as int));
        }
        return r;
    }
    let shown: usize = if total <= limit {
        total
    } else {
        limit
    };
    let ghost mapped = sortedv.take(shown as int).map_values(
        |e: (Seq<char>, bool)| listed_entry(e),
    );
    let mut listed: Vec<Vec<char>> = Vec::new();
    let mut k: usize = 0;
    while k < shown
        invariant
            0 <= k <= shown <= es.len(),
            sortedv == entry_views(es@),
            mapped == sortedv.take(shown as int).map_values(
                |e: (Seq<char>, bool)| listed_entry(e),
            ),
            views_of(listed@) == mapped.take(k as int),
        decreases shown - k,
    {
        let ghost prev = views_of(listed@);
        let mut nc = chars_of(es[k].0.as_str());
        if es[k].1 {
            nc.push('/');
        }
        proof {
            assert(entry_views(es@)[k as int] == (es@[k as int].0@, es@[k as int].1));
            assert(sortedv.take(shown as int)[k as int] == sortedv[k as int]);
            assert(mapped[k as int] == listed_entry(sortedv[k as int]));
            assert(nc@ =~= listed_entry(sortedv[k as int]));
        }
        listed.push(nc);
        proof {
            assert(views_of(listed@) =~= prev.push(listed_entry(sortedv[k as int])));
            assert(views_of(listed@) =~= mapped.take(k + 1));
        }
        k = k + 1;
    }
    proof {
        assert(mapped.take(mapped.len() as int) =~= mapped);
    }
    let joined = join_range(&listed, 0, listed.len());
    proof {
        assert(views_of(listed@).subrange(0, views_of(listed@).len() as int) =~= views_of(
            listed@,
        ));
    }
    let mut out = joined;
    if total > limit {
        let a = chars_of("\n[Showing ");
        push_all(&mut out, &a);
        let d1 = fmt_usize(limit);
        push_all(&mut out, &d1);
        let b = chars_of(" of ");
        push_all(&mut out, &b);
        let d2 = fmt_usize(total);
        push_all(&mut out, &d2);
        let c = chars_of(" entries]");
        push_all(&mut out, &c);
    }
    let r = string_of(&out);
    proof {
        assert(r@ =~= ls_output_spec(sortedv, limit as int));
    }
    r
}

// ---------------------------------------------------------------------
// File slices
// ---------------------------------------------------------------------

/// The numbered, truncated slice of a file from one-based line
/// `offset`: the requested lines joined, head-truncated to the line
/// and byte budgets, each line numbered; a truncation appends a notice
/// and, while lines remain, the parameters for the next read.
pub open spec fn read_output_spec(s: Seq<char>, offset: int, limit: Option<usize>) -> Seq<char> {
    let ls = spec_lines(s);
    let total = ls.len() as int;
    let start = offset - 1;
    let end = match limit {
        Some(l) => if start + l <= total {
            start + l
        } else {
            total
        },
        None => total,
    };
    let selected = join_lines(ls.subrange(start, end));
    let ml = match limit {
        Some(l) => if l <= MAX_LINES {
            l as int
        } else {
            MAX_LINES as int
        },
        None => MAX_LINES as int,
    };
    let content = head_full_content(selected, ml, MAX_BYTES as int);
    let out_lines = head_full_lines(selected, ml, MAX_BYTES as int);
    let numbered = crate::truncate::add_line_numbers_spec(content, offset);
    match head_full_reason(selected, ml, MAX_BYTES as int) {
        None => numbered,
        Some(reason) => {
            let notice = if reason == TruncatedBy::Lines {
                lines_notice_spec(out_lines, spec_lines(selected).len() as int)
            } else {
                bytes_notice_spec(bytes_len(content), bytes_len(selected))
            };
            let next_offset = offset + out_lines;
            let remaining = if total >= next_offset - 1 {
                total - (next_offset - 1)
            } else {
                0int
            };
            numbered + seq!['\n'] + notice + (if remaining > 0 {
                "\n[To continue reading: offset="@ + dec_rep(next_offset) + ", limit="@ + dec_rep(
                    if remaining <= MAX_LINES {
                        remaining
                    } else {
                        MAX_LINES as int
                    },
                ) + "]"@
            } else {
                Seq::<char>::empty()
            })
        },
    }
}

/// Render the requested slice of a file, line-numbered and truncated.
/// A zero offset and an offset past the last line are rejected with
/// the exact message the caller shows.
#[verifier::rlimit(60)]
pub fn render_file_slice(content: &str, offset: usize, limit: Option<usize>) -> (r: Result<
    String,
    String,
>)
    requires
        2 * spec_lines(content@).len() <= usize::MAX,
    ensures
        offset == 0 ==> (r matches Err(e) && e@ == "offset must be >= 1"@),
        offset >= 1 && offset - 1 >= spec_lines(content@).len() ==> (r matches Err(e) && e@
            == "offset "@ + dec_rep(offset as int) + " exceeds file length ("@ + dec_rep(
            spec_lines(content@).len() as int,
        ) + " lines)"@),
        offset >= 1 && offset - 1 < spec_lines(content@).len() ==> (r matches Ok(out) && out@
            == read_output_spec(content@, offset as int, limit)),
{
    let chars = chars_of(content);
    let lines = lines_of(&chars);
    let total = lines.len();
    if offset < 1 {
        return Err(string_of(&chars_of("offset must be >= 1")));
    }
    let start: usize = if offset - 1 <= total {
        offset - 1
    } else {
        total
    };
    if start >= total {
        let mut msg = chars_of("offset ");
        let d1 = fmt_usize(offset);
        push_all(&mut msg, &d1);
        let a = chars_of(" exceeds file length (");
        push_all(&mut msg, &a);
        let d2 = fmt_usize(total);
        push_all(&mut msg, &d2);
        let b = chars_of(" lines)");
        push_all(&mut msg, &b);
        return Err(string_of(&msg));
    }
    let end: usize = match limit {
        Option::Some(l) => if l <= total - start {
            start + l
        } else {
            total
        },
        Option::None => total,
    };
    let selected = join_range(&lines, start, end);
    let selected_s = string_of(&selected);
    let ml: usize = match limit {
        Option::Some(l) => if l <= MAX_LINES {
            l
        } else {
            MAX_LINES
        },
        Option::None => MAX_LINES,
    };
    proof {
        assert(views_of(lines@).subrange(start as int, end as int) == spec_lines(
            content@,
        ).subrange(start as int, end as int));
        // The selected slice has at most `end - start` lines, so no
        // count in what follows can overflow.
        let sub = spec_lines(content@).subrange(start as int, end as int);
        crate::text::lemma_spec_lines_no_nl(content@);
        assert(crate::text::all_no_nl(sub)) by {
            assert(forall|i: int|
                0 <= i < sub.len() ==> sub[i] == spec_lines(content@)[i + start as int]);
        }
        crate::text::lemma_count_nl_join(sub);
        crate::text::lemma_spec_lines_len(selected@);
        assert(spec_lines(selected_s@).len() <= end - start);
    }
    let t = truncate_head(selected_s.as_str(), ml, MAX_BYTES);
    let numbered = add_line_numbers_checked(t.content.as_str(), offset, total);
    if !t.is_truncated() {
        return Ok(numbered);
    }
    let mut out = chars_of(numbered.as_str());
    out.push('\n');
    let notice = t.truncation_notice();
    match notice {
        Option::None => {
            proof {
                assert(false);
            }
        },
        Option::Some(n) => {
            let nc = chars_of(n.as_str());
            push_all(&mut out, &nc);
        },
    }
    let next_offset = offset + t.output_lines;
    let remaining: usize = if total >= next_offset - 1 {
        total - (next_offset - 1)
    } else {
        0
    };
    if remaining > 0 {
        let a = chars_of("\n[To continue reading: offset=");
        push_all(&mut out, &a);
        let d1 = fmt_usize(next_offset);
        push_all(&mut out, &d1);
        let b = chars_of(", limit=");
        push_all(&mut out, &b);
        let d2 = fmt_usize(
            if remaining <= MAX_LINES {
                remaining
            } else {
                MAX_LINES
            },
        );
        push_all(&mut out, &d2);
        let c = chars_of("]");
        push_all(&mut out, &c);
    }
    let r = string_of(&out);
    proof {
        assert(r@ =~= read_output_spec(content@, offset as int, limit));
    }
    Ok(r)
}

/// Line numbering for a slice whose line count is bounded by the
/// file's.
fn add_line_numbers_checked(content: &str, start_line: usize, total: usize) -> (r: String)
    requires
        spec_lines(content@).len() <= total,
        2 * total <= usize::MAX,
        start_line <= total + 1,
    ensures
        r@ == crate::truncate::add_line_numbers_spec(content@, start_line as int),
{
    crate::truncate::add_line_numbers(content, start_line)
}

} // verus!
