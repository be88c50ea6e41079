//! File-name glob matching for file discovery: `*.ext`, `prefix*`,
//! `*suffix`, `*infix*`, exact names, path patterns with `/`, and
//! recursive `**` patterns.

use vstd::prelude::*;

verus! {

use crate::text::{
    chars_of,
    sub_chars,
    eq_chars,
    seq_match_at,
    starts_with,
    ends_with,
    contains_seq,
    starts_with_exec,
    ends_with_exec,
    contains_exec,
    views_of,
};
use crate::edit::{is_ws, is_ws_exec};

// ---------------------------------------------------------------------
// Trimming and `**` removal
// ---------------------------------------------------------------------

/// The sequence without its leading white space.
pub open spec fn trim_start_spec(l: Seq<char>) -> Seq<char>
    decreases l.len(),
{
    if l.len() == 0 {
        l
    } else if is_ws(l[0]) {
        trim_start_spec(l.drop_first())
    } else {
        l
    }
}

/// The sequence without leading and trailing white space, as
/// `str::trim` sees it.
pub open spec fn trim_spec(s: Seq<char>) -> Seq<char> {
    trim_start_spec(crate::edit::trim_end_spec(s))
}

fn trim_chars(v: &Vec<char>) -> (r: Vec<char>)
    ensures
        r@ == trim_spec(v@),
{
    let mut end: usize = v.len();
    let mut stop = false;
    proof {
        assert(v@.take(v@.len() as int) =~= v@);
    }
    while end > 0 && !stop
        invariant
            0 <= end <= v.len(),
            crate::edit::trim_end_spec(v@) == crate::edit::trim_end_spec(v@.take(end as int)),
            stop ==> end > 0 && !is_ws(v@[end - 1]),
        decreases end + (if stop {
            0int
        } else {
            1int
        }),
    {
        if is_ws_exec(v[end - 1]) {
            proof {
                assert(v@.take(end as int).last() == v@[end - 1]);
                assert(v@.take(end as int).drop_last() =~= v@.take(end - 1));
            }
            end = end - 1;
        } else {
            stop = true;
        }
    }
    let ghost t = crate::edit::trim_end_spec(v@);
    proof {
        if end == 0 {
            assert(v@.take(0) =~= Seq::<char>::empty());
        } else {
            assert(v@.take(end as int).last() == v@[end - 1]);
        }
        assert(t == v@.take(end as int));
    }
    let mut a: usize = 0;
    let mut go = true;
    proof {
        assert(v@.take(end as int).skip(0) =~= v@.take(end as int));
    }
    while a < end && go
        invariant
            0 <= a <= end <= v.len(),
            t == v@.take(end as int),
            trim_start_spec(t) == trim_start_spec(t.skip(a as int)),
            !go ==> a < end && !is_ws(v@[a as int]),
        decreases end - a + (if go {
            1int
        } else {
            0int
        }),
    {
        if is_ws_exec(v[a]) {
            proof {
                assert(t.skip(a as int)[0] == v@[a as int]);
                assert(t.skip(a as int).drop_first() =~= t.skip(a + 1));
            }
            a = a + 1;
        } else {
            go = false;
        }
    }
    proof {
        if a == end {
            assert(t.skip(a as int) =~= Seq::<char>::empty());
            assert(trim_start_spec(t) == t.skip(a as int));
        } else {
            assert(t.skip(a as int)[0] == v@[a as int]);
            assert(trim_start_spec(t) == t.skip(a as int));
        }
    }
    let r = sub_chars(v, a, end);
    proof {
        assert(v@.subrange(a as int, end as int) =~= v@.take(end as int).skip(a as int));
    }
    r
}

/// `doc` with every non-overlapping occurrence of `pat` removed, as
/// `str::replace` with an empty replacement leaves it.
pub open spec fn remove_all_rec(doc: Seq<char>, pat: Seq<char>, i: int) -> Seq<char>
    decreases doc.len() - i,
    when 0 <= i && pat.len() > 0
{
    if i >= doc.len() {
        Seq::<char>::empty()
    } else if i + pat.len() <= doc.len() && doc.subrange(i, i + pat.len()) == pat {
        remove_all_rec(doc, pat, i + pat.len())
    } else {
        seq![doc[i]] + remove_all_rec(doc, pat, i + 1)
    }
}

/// `doc` with every non-overlapping occurrence of `pat` removed.
pub open spec fn remove_all(doc: Seq<char>, pat: Seq<char>) -> Seq<char> {
    remove_all_rec(doc, pat, 0)
}

fn remove_all_exec(doc: &Vec<char>, pat: &Vec<char>) -> (r: Vec<char>)
    requires
        pat.len() > 0,
    ensures
        r@ == remove_all(doc@, pat@),
{
    let mut out: Vec<char> = Vec::new();
    let mut i: usize = 0;
    while i < doc.len()
        invariant
            0 <= i <= doc.len(),
            pat@.len() > 0,
            remove_all(doc@, pat@) == out@ + remove_all_rec(doc@, pat@, i as int),
        decreases doc.len() - i,
    {
        if pat.len() <= doc.len() - i && seq_match_at(doc, pat, i) {
            proof {
                assert(remove_all_rec(doc@, pat@, i as int) == remove_all_rec(
                    doc@,
                    pat@,
                    i + pat@.len(),
                ));
            }
            i = i + pat.len();
        } else {
            let ghost o0 = out@;
            out.push(doc[i]);
            proof {
                assert(remove_all_rec(doc@, pat@, i as int) == seq![doc@[i as int]]
                    + remove_all_rec(doc@, pat@, i + 1));
                assert(o0 + (seq![doc@[i as int]] + remove_all_rec(doc@, pat@, i + 1)) =~= out@
                    + remove_all_rec(doc@, pat@, i + 1));
            }
            i = i + 1;
        }
    }
    proof {
        assert(remove_all_rec(doc@, pat@, i as int) == Seq::<char>::empty());
        assert(out@ + Seq::<char>::empty() =~= out@);
    }
    out
}

// ---------------------------------------------------------------------
// Simple globs over one name
// ---------------------------------------------------------------------

/// Whether a bare name matches a simple glob: `*` matches everything,
/// `*.ext` an extension, `*infix*` a containment, `*suffix` an end,
/// `prefix*` a start, anything else exactly.
pub open spec fn simple_glob_matches(name: Seq<char>, pat: Seq<char>) -> bool {
    if pat.len() == 1 && pat[0] == '*' {
        true
    } else if pat.len() >= 2 && pat[0] == '*' && pat[1] == '.' {
        ends_with(name, pat.skip(1))
    } else if pat.len() > 2 && pat[0] == '*' && pat.last() == '*' {
        contains_seq(name, pat.subrange(1, pat.len() - 1))
    } else if pat.len() >= 1 && pat[0] == '*' {
        ends_with(name, pat.skip(1))
    } else if pat.len() >= 1 && pat.last() == '*' {
        starts_with(name, pat.take(pat.len() - 1))
    } else {
        name == pat
    }
}

fn simple_glob_chars(n: &Vec<char>, p: &Vec<char>) -> (r: bool)
    ensures
        r == simple_glob_matches(n@, p@),
{
    if p.len() == 1 && p[0] == '*' {
        return true;
    }
    if p.len() >= 2 && p[0] == '*' && p[1] == '.' {
        let ext = sub_chars(p, 1, p.len());
        proof {
            assert(p@.subrange(1, p@.len() as int) =~= p@.skip(1));
        }
        return ends_with_exec(n, &ext);
    }
    if p.len() > 2 && p[0] == '*' && p[p.len() - 1] == '*' {
        let mid = sub_chars(p, 1, p.len() - 1);
        return contains_exec(n, &mid);
    }
    if p.len() >= 1 && p[0] == '*' {
        let suf = sub_chars(p, 1, p.len());
        proof {
            assert(p@.subrange(1, p@.len() as int) =~= p@.skip(1));
        }
        return ends_with_exec(n, &suf);
    }
    if p.len() >= 1 && p[p.len() - 1] == '*' {
        let pre = sub_chars(p, 0, p.len() - 1);
        proof {
            assert(p@.subrange(0, p@.len() - 1) =~= p@.take(p@.len() - 1));
        }
        return starts_with_exec(n, &pre);
    }
    eq_chars(n, p)
}

/// Match a bare file name against a simple glob pattern.
pub fn matches_simple_glob(name: &str, pattern: &str) -> (r: bool)
    ensures
        r == simple_glob_matches(name@, pattern@),
{
    let n = chars_of(name);
    let p = chars_of(pattern);
    simple_glob_chars(&n, &p)
}

// ---------------------------------------------------------------------
// Path globs
// ---------------------------------------------------------------------

/// The non-empty parts of `s` between slashes, carrying the part under
/// construction.
pub open spec fn slash_parts_from(s: Seq<char>, i: int, cur: Seq<char>) -> Seq<Seq<char>>
    decreases s.len() - i,
    when 0 <= i <= s.len()
{
    if i >= s.len() {
        if cur.len() > 0 {
            seq![cur]
        } else {
            Seq::<Seq<char>>::empty()
        }
    } else if s[i] == '/' {
        (if cur.len() > 0 {
            seq![cur]
        } else {
            Seq::<Seq<char>>::empty()
        }) + slash_parts_from(s, i + 1, Seq::<char>::empty())
    } else {
        slash_parts_from(s, i + 1, cur.push(s[i]))
    }
}

/// The non-empty parts of `s` between slashes.
pub open spec fn slash_parts(s: Seq<char>) -> Seq<Seq<char>> {
    slash_parts_from(s, 0, Seq::<char>::empty())
}

fn slash_parts_exec(v: &Vec<char>) -> (r: Vec<Vec<char>>)
    ensures
        views_of(r@) == slash_parts(v@),
{
    let mut out: Vec<Vec<char>> = Vec::new();
    let mut cur: Vec<char> = Vec::new();
    let mut i: usize = 0;
    while i < v.len()
        invariant
            0 <= i <= v.len(),
            slash_parts(v@) == views_of(out@) + slash_parts_from(v@, i as int, cur@),
        decreases v.len() - i,
    {
        let c = v[i];
        if c == '/' {
            let ghost prev = views_of(out@);
            let ghost line = cur@;
            if cur.len() > 0 {
                out.push(cur);
                cur = Vec::new();
                proof {
                    assert(views_of(out@) =~= prev.push(line));
                    assert(prev + (seq![line] + slash_parts_from(v@, i + 1, Seq::<char>::empty()))
                        =~= views_of(out@) + slash_parts_from(v@, i + 1, Seq::<char>::empty()));
                }
            } else {
                proof {
                    assert(slash_parts_from(v@, i as int, cur@) == Seq::<Seq<char>>::empty()
                        + slash_parts_from(v@, i + 1, Seq::<char>::empty()));
                    assert(Seq::<Seq<char>>::empty() + slash_parts_from(
                        v@,
                        i + 1,
                        Seq::<char>::empty(),
                    ) =~= slash_parts_from(v@, i + 1, Seq::<char>::empty()));
                    assert(cur@ =~= Seq::<char>::empty());
                }
            }
        } else {
            cur.push(c);
        }
        i = i + 1;
    }
    if cur.len() > 0 {
        let ghost prev = views_of(out@);
        let ghost line = cur@;
        out.push(cur);
        proof {
            assert(views_of(out@) =~= prev.push(line));
            assert(prev + seq![line] =~= views_of(out@));
        }
    } else {
        proof {
            assert(views_of(out@) + Seq::<Seq<char>>::empty() =~= views_of(out@));
        }
    }
    out
}

/// Matching path parts against pattern parts from the most specific
/// end: a `**` part matches any depth, and the pattern must be fully
/// consumed.
pub open spec fn path_glob_rec(pp: Seq<Seq<char>>, qq: Seq<Seq<char>>, pi: int, qi: int) -> bool
    decreases pi + qi,
    when 0 <= pi && 0 <= qi
{
    if pi > 0 && qi > 0 {
        if pp[pi - 1] == seq!['*', '*'] {
            true
        } else if !simple_glob_matches(qq[qi - 1], pp[pi - 1]) {
            false
        } else {
            path_glob_rec(pp, qq, pi - 1, qi - 1)
        }
    } else {
        pi == 0
    }
}

/// Whether a full path matches a pattern that contains slashes.
pub open spec fn path_glob_matches(path: Seq<char>, pattern: Seq<char>) -> bool {
    let qq = slash_parts(path);
    let pp = slash_parts(pattern);
    if pp.len() == 0 {
        true
    } else {
        path_glob_rec(pp, qq, pp.len() as int, qq.len() as int)
    }
}

fn path_glob_chars(path: &Vec<char>, pattern: &Vec<char>) -> (r: bool)
    ensures
        r == path_glob_matches(path@, pattern@),
{
    let qq = slash_parts_exec(path);
    let pp = slash_parts_exec(pattern);
    if pp.len() == 0 {
        return true;
    }
    let ghost ppv = views_of(pp@);
    let ghost qqv = views_of(qq@);
    let mut pi: usize = pp.len();
    let mut qi: usize = qq.len();
    while pi > 0 && qi > 0
        invariant
            0 <= pi <= pp.len(),
            0 <= qi <= qq.len(),
            ppv == views_of(pp@),
            qqv == views_of(qq@),
            ppv == slash_parts(pattern@),
            qqv == slash_parts(path@),
            ppv.len() > 0,
            path_glob_rec(ppv, qqv, ppv.len() as int, qqv.len() as int) == path_glob_rec(
                ppv,
                qqv,
                pi as int,
                qi as int,
            ),
        decreases pi,
    {
        pi = pi - 1;
        qi = qi - 1;
        let p = &pp[pi];
        proof {
            assert(views_of(pp@)[pi as int] == pp@[pi as int]@);
            assert(views_of(qq@)[qi as int] == qq@[qi as int]@);
        }
        if p.len() == 2 {
            if p[0] == '*' && p[1] == '*' {
                proof {
                    assert(ppv[pi as int] =~= seq!['*', '*']);
                }
                return true;
            }
        }
        proof {
            assert(ppv[pi as int] != seq!['*', '*']);
        }
        if !simple_glob_chars(&qq[qi], p) {
            return false;
        }
    }
    pi == 0
}

/// Whether a full path matches a pattern that contains slashes.
pub fn path_matches_glob(path: &str, pattern: &str) -> (r: bool)
    ensures
        r == path_glob_matches(path@, pattern@),
{
    let p = chars_of(path);
    let g = chars_of(pattern);
    path_glob_chars(&p, &g)
}

// ---------------------------------------------------------------------
// The full glob entry point
// ---------------------------------------------------------------------

/// Whether a file matches a glob pattern, after trimming it: a
/// recursive `**` pattern is tried both as its simple residue on the
/// name and as a path pattern on the full path; a pattern with a slash
/// matches against the full path; anything else against the bare name.
pub open spec fn glob_matches(name: Seq<char>, full_path: Seq<char>, pattern: Seq<char>) -> bool {
    let t = trim_spec(pattern);
    if contains_seq(t, "**/"@) || contains_seq(t, "/**"@) {
        let simple = remove_all(remove_all(t, "**/"@), "/**"@);
        simple_glob_matches(name, simple) || simple_glob_matches(full_path, t)
    } else if contains_seq(t, seq!['/']) {
        path_glob_matches(full_path, t)
    } else {
        simple_glob_matches(name, t)
    }
}

/// Match a file against a glob pattern, given its bare name and its
/// full path.
pub fn matches_glob(name: &str, full_path: &str, pattern: &str) -> (r: bool)
    ensures
        r == glob_matches(name@, full_path@, pattern@),
{
    let pv = chars_of(pattern);
    let t = trim_chars(&pv);
    let star_slash = chars_of("**/");
    let slash_star = chars_of("/**");
    proof {
        reveal_strlit("**/");
        reveal_strlit("/**");
    }
    if contains_exec(&t, &star_slash) || contains_exec(&t, &slash_star) {
        let r1 = remove_all_exec(&t, &star_slash);
        let simple = remove_all_exec(&r1, &slash_star);
        let nm = chars_of(name);
        if simple_glob_chars(&nm, &simple) {
            return true;
        }
        let fp = chars_of(full_path);
        return simple_glob_chars(&fp, &t);
    }
    let mut slash: Vec<char> = Vec::new();
    slash.push('/');
    proof {
        assert(slash@ =~= seq!['/']);
    }
    if contains_exec(&t, &slash) {
        let fp = chars_of(full_path);
        return path_glob_chars(&fp, &t);
    }
    let nm = chars_of(name);
    simple_glob_chars(&nm, &t)
}

} // verus!
