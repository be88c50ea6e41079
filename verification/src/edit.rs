//! Deterministic single-edit text replacement: locate a unique
//! occurrence of a span, exactly or after normalization, and replace
//! it, producing a unified diff of the result.

use vstd::prelude::*;

verus! {

use crate::text::{
    chars_of,
    string_of,
    lines_of,
    join_range,
    join_lines,
    spec_lines,
    views_of,
    push_all,
    sub_chars,
    eq_chars,
    occurrences,
    replace_at,
    replace_first,
    scan_occurrences,
    replace_at_exec,
    lemma_join_split,
};
use crate::diff::{DiffChange, diff_parts, render_diff_spec, unified_hunks_of, old_side, new_side};

// ---------------------------------------------------------------------
// Normalization for fuzzy comparison
// ---------------------------------------------------------------------

/// Typographic characters folded to their ASCII counterparts; all
/// others kept.
pub open spec fn map_char(c: char) -> char {
    let u = c as u32;
    if u == 0x2018 || u == 0x2019 {
        '\''
    } else if u == 0x201C || u == 0x201D {
        '"'
    } else if u == 0x2013 || u == 0x2014 {
        '-'
    } else if u == 0xA0 || u == 0x202F {
        ' '
    } else {
        c
    }
}

/// The Unicode white-space characters, as `char::is_whitespace` knows
/// them.
pub open spec fn is_ws(c: char) -> bool {
    let u = c as u32;
    ||| u == 0x09
    ||| u == 0x0A
    ||| u == 0x0B
    ||| u == 0x0C
    ||| u == 0x0D
    ||| u == 0x20
    ||| u == 0x85
    ||| u == 0xA0
    ||| u == 0x1680
    ||| (0x2000 <= u && u <= 0x200A)
    ||| u == 0x2028
    ||| u == 0x2029
    ||| u == 0x202F
    ||| u == 0x205F
    ||| u == 0x3000
}

/// The line without its trailing white space.
pub open spec fn trim_end_spec(l: Seq<char>) -> Seq<char>
    decreases l.len(),
{
    if l.len() == 0 {
        l
    } else if is_ws(l.last()) {
        trim_end_spec(l.drop_last())
    } else {
        l
    }
}

/// One line normalized: trailing white space trimmed, then each
/// character folded.
pub open spec fn norm_line(l: Seq<char>) -> Seq<char> {
    trim_end_spec(l).map_values(|c: char| map_char(c))
}

/// Every line normalized.
pub open spec fn norm_lines(ls: Seq<Seq<char>>) -> Seq<Seq<char>> {
    ls.map_values(|l: Seq<char>| norm_line(l))
}

/// The whole text normalized line by line and rejoined, a trailing
/// newline kept.  Used only for comparison, never returned as output
/// (except by the degraded fuzzy fallback).
pub open spec fn normalize_spec(s: Seq<char>) -> Seq<char> {
    join_lines(norm_lines(spec_lines(s))) + (if s.len() > 0 && s.last() == '\n' {
        seq!['\n']
    } else {
        Seq::<char>::empty()
    })
}

pub(crate) fn is_ws_exec(c: char) -> (r: bool)
    ensures
        r == is_ws(c),
{
    let u = c as u32;
    u == 0x09 || u == 0x0A || u == 0x0B || u == 0x0C || u == 0x0D || u == 0x20 || u == 0x85 || u
        == 0xA0 || u == 0x1680 || (0x2000 <= u && u <= 0x200A) || u == 0x2028 || u == 0x2029 || u
        == 0x202F || u == 0x205F || u == 0x3000
}

fn map_char_exec(c: char) -> (r: char)
    ensures
        r == map_char(c),
{
    let u = c as u32;
    if u == 0x2018 || u == 0x2019 {
        '\''
    } else if u == 0x201C || u == 0x201D {
        '"'
    } else if u == 0x2013 || u == 0x2014 {
        '-'
    } else if u == 0xA0 || u == 0x202F {
        ' '
    } else {
        c
    }
}

/// One line normalized.
fn norm_line_exec(l: &Vec<char>) -> (r: Vec<char>)
    ensures
        r@ == norm_line(l@),
{
    let mut end: usize = l.len();
    let mut stop = false;
    proof {
        assert(l@.take(l@.len() as int) =~= l@);
    }
    while end > 0 && !stop
        invariant
            0 <= end <= l.len(),
            trim_end_spec(l@) == trim_end_spec(l@.take(end as int)),
            stop ==> end > 0 && !is_ws(l@[end - 1]),
        decreases end + (if stop {
            0int
        } else {
            1int
        }),
    {
        if is_ws_exec(l[end - 1]) {
            proof {
                assert(l@.take(end as int).last() == l@[end - 1]);
                assert(l@.take(end as int).drop_last() =~= l@.take(end - 1));
            }
            end = end - 1;
        } else {
            stop = true;
        }
    }
    proof {
        if end == 0 {
            assert(l@.take(0) =~= Seq::<char>::empty());
            assert(trim_end_spec(l@) == l@.take(0));
        } else {
            assert(l@.take(end as int).last() == l@[end - 1]);
            assert(trim_end_spec(l@) == l@.take(end as int));
        }
    }
    let mut r: Vec<char> = Vec::new();
    let mut j: usize = 0;
    while j < end
        invariant
            0 <= j <= end <= l.len(),
            r@.len() == j,
            forall|x: int| 0 <= x < j ==> r@[x] == map_char(l@[x]),
        decreases end - j,
    {
        r.push(map_char_exec(l[j]));
        j = j + 1;
    }
    proof {
        assert(r@ =~= trim_end_spec(l@).map_values(|c: char| map_char(c)));
    }
    r
}

/// The characters of a text normalized line by line.
fn normalize_chars(v: &Vec<char>) -> (r: Vec<char>)
    ensures
        r@ == normalize_spec(v@),
{
    let lines = lines_of(v);
    let mut normed: Vec<Vec<char>> = Vec::new();
    let mut k: usize = 0;
    while k < lines.len()
        invariant
            0 <= k <= lines.len(),
            views_of(lines@) == spec_lines(v@),
            views_of(normed@) == norm_lines(spec_lines(v@)).take(k as int),
        decreases lines.len() - k,
    {
        let ghost prev = views_of(normed@);
        let nl = norm_line_exec(&lines[k]);
        proof {
            assert(views_of(lines@)[k as int] == lines@[k as int]@);
        }
        normed.push(nl);
        proof {
            assert(views_of(normed@) =~= prev.push(norm_line(views_of(lines@)[k as int])));
            assert(norm_lines(spec_lines(v@))[k as int] == norm_line(spec_lines(v@)[k as int]));
            assert(views_of(normed@) =~= norm_lines(spec_lines(v@)).take(k + 1));
        }
        k = k + 1;
    }
    proof {
        assert(norm_lines(spec_lines(v@)).take(norm_lines(spec_lines(v@)).len() as int)
            =~= norm_lines(spec_lines(v@)));
    }
    let mut r = join_range(&normed, 0, normed.len());
    proof {
        assert(views_of(normed@).subrange(0, views_of(normed@).len() as int) =~= views_of(
            normed@,
        ));
    }
    if v.len() > 0 && v[v.len() - 1] == '\n' {
        r.push('\n');
        proof {
            assert(r@ =~= normalize_spec(v@));
        }
    } else {
        proof {
            assert(r@ =~= normalize_spec(v@));
        }
    }
    r
}

/// Normalize text for fuzzy matching: trim trailing white space per
/// line, fold typographic quotes, dashes and exotic spaces to ASCII; a
/// trailing newline stays.
pub fn normalize_for_fuzzy(text: &str) -> (r: String)
    ensures
        r@ == normalize_spec(text@),
{
    let chars = chars_of(text);
    let n = normalize_chars(&chars);
    string_of(&n)
}

/// Trimming keeps a prefix of the line, leaves no trailing white
/// space, and never lengthens.
pub proof fn lemma_trim_end_props(l: Seq<char>)
    ensures
        trim_end_spec(l).len() <= l.len(),
        trim_end_spec(l).len() > 0 ==> !is_ws(trim_end_spec(l).last()),
        trim_end_spec(l) == l.take(trim_end_spec(l).len() as int),
    decreases l.len(),
{
    if l.len() > 0 && is_ws(l.last()) {
        lemma_trim_end_props(l.drop_last());
        assert(l.drop_last() =~= l.take(l.len() - 1));
        assert(l.take(l.len() - 1).take(trim_end_spec(l).len() as int) =~= l.take(
            trim_end_spec(l).len() as int,
        ));
    } else {
        assert(l.take(l.len() as int) =~= l);
    }
}

/// A normalized line contains no newline when the line itself has
/// none.
pub proof fn lemma_norm_line_no_nl(l: Seq<char>)
    requires
        crate::text::no_nl(l),
    ensures
        crate::text::no_nl(norm_line(l)),
{
    lemma_trim_end_props(l);
    assert forall|x: int| 0 <= x < norm_line(l).len() implies #[trigger] norm_line(l)[x] != '\n' by {
        assert(norm_line(l)[x] == map_char(trim_end_spec(l)[x]));
        assert(trim_end_spec(l)[x] == l[x]);
    }
}

/// Every normalized line of a text contains no newline.
pub proof fn lemma_norm_lines_no_nl(ls: Seq<Seq<char>>)
    requires
        crate::text::all_no_nl(ls),
    ensures
        crate::text::all_no_nl(norm_lines(ls)),
{
    assert forall|i: int|
        0 <= i < norm_lines(ls).len() implies crate::text::no_nl(#[trigger] norm_lines(ls)[i]) by {
        assert(norm_lines(ls)[i] == norm_line(ls[i]));
        lemma_norm_line_no_nl(ls[i]);
    }
}

/// Folding a line is idempotent: a normalized line normalizes to
/// itself.
pub proof fn lemma_norm_line_idempotent(l: Seq<char>)
    ensures
        norm_line(norm_line(l)) == norm_line(l),
{
    let m = norm_line(l);
    lemma_trim_end_props(l);
    if m.len() > 0 {
        assert(m.last() == map_char(trim_end_spec(l).last()));
        assert(!is_ws(m.last()));
    }
    assert(trim_end_spec(m) == m);
    assert forall|x: int| 0 <= x < m.len() implies #[trigger] norm_line(m)[x] == m[x] by {
        assert(m[x] == map_char(trim_end_spec(l)[x]));
        assert(norm_line(m)[x] == map_char(m[x]));
    }
    assert(norm_line(m) =~= m);
}

/// Normalization is idempotent: normalizing a normalized text changes
/// nothing.
pub proof fn lemma_normalize_idempotent(s: Seq<char>)
    ensures
        normalize_spec(normalize_spec(s)) == normalize_spec(s),
{
    let ls = spec_lines(s);
    let ml = norm_lines(ls);
    let j = join_lines(ml);
    crate::text::lemma_spec_lines_no_nl(s);
    lemma_norm_lines_no_nl(ls);
    assert forall|i: int| 0 <= i < ml.len() implies #[trigger] norm_line(ml[i]) == ml[i] by {
        assert(ml[i] == norm_line(ls[i]));
        lemma_norm_line_idempotent(ls[i]);
    }
    if s.len() == 0 {
        assert(ls =~= Seq::<Seq<char>>::empty());
        assert(ml =~= Seq::<Seq<char>>::empty());
        assert(normalize_spec(s) =~= Seq::<char>::empty());
        assert(normalize_spec(normalize_spec(s)) =~= Seq::<char>::empty());
    } else if s.last() == '\n' {
        let n1 = normalize_spec(s);
        assert(n1 =~= j + seq!['\n']);
        assert(n1.len() > 0 && n1.last() == '\n');
        crate::text::lemma_split_all_len(s.drop_last());
        crate::text::lemma_count_nl_nonneg(s.drop_last());
        assert(ml.len() >= 1);
        crate::text::lemma_lines_join(ml);
        assert(n1.drop_last() =~= j);
        assert(spec_lines(n1) == crate::text::split_all(j));
        assert(spec_lines(n1) == ml);
        assert(norm_lines(ml) =~= ml);
        assert(normalize_spec(n1) =~= j + seq!['\n']);
    } else {
        let n1 = normalize_spec(s);
        assert(n1 =~= j);
        crate::text::lemma_split_all_len(s);
        crate::text::lemma_count_nl_nonneg(s);
        assert(ml.len() >= 1);
        if j.len() == 0 {
            assert(n1 =~= Seq::<char>::empty());
            assert(spec_lines(n1) =~= Seq::<Seq<char>>::empty());
            assert(normalize_spec(n1) =~= Seq::<char>::empty());
        } else if ml.last().len() > 0 {
            crate::text::lemma_lines_join(ml);
            assert(j.len() > 0);
            crate::text::lemma_join_as_cat(ml);
            assert(j.last() == ml.last().last());
            assert(j.last() != '\n');
            assert(spec_lines(n1) == ml);
            assert(norm_lines(ml) =~= ml);
            assert(normalize_spec(n1) =~= j);
        } else {
            // The last normalized line is empty: the join ends with
            // its separator, which a renormalization restores.
            assert(ml.len() >= 2) by {
                if ml.len() == 1 {
                    assert(j == ml[0]);
                }
            }
            crate::text::lemma_join_as_cat(ml);
            let dl = ml.drop_last();
            assert(j =~= crate::text::cat_term(dl));
            assert(dl.len() >= 1);
            assert(crate::text::cat_term(dl) =~= crate::text::cat_term(dl.drop_last())
                + dl.last() + seq!['\n']);
            assert(j.len() > 0 && j.last() == '\n');
            assert(crate::text::all_no_nl(dl)) by {
                assert(forall|i: int| 0 <= i < dl.len() ==> #[trigger] dl[i] == ml[i]);
            }
            assert(crate::text::all_no_nl(dl.drop_last())) by {
                assert(forall|i: int|
                    0 <= i < dl.drop_last().len() ==> #[trigger] dl.drop_last()[i] == dl[i]);
            }
            assert(crate::text::no_nl(dl.last()));
            assert(j.drop_last() =~= crate::text::cat_term(dl.drop_last()) + dl.last());
            crate::text::lemma_split_cat(dl.drop_last(), dl.last());
            assert(dl.drop_last().push(dl.last()) =~= dl);
            assert(spec_lines(n1) == dl);
            assert forall|i: int| 0 <= i < dl.len() implies #[trigger] norm_line(dl[i])
                == dl[i] by {
                assert(dl[i] == ml[i]);
            }
            assert(norm_lines(dl) =~= dl);
            crate::text::lemma_join_as_cat(dl);
            assert(join_lines(dl) =~= crate::text::cat_term(dl.drop_last()) + dl.last());
            assert(normalize_spec(n1) =~= join_lines(dl) + seq!['\n']);
            assert(join_lines(dl) + seq!['\n'] =~= j);
        }
    }
}

/// Normalization inserts and removes no line breaks.
pub proof fn lemma_normalize_line_breaks(s: Seq<char>)
    ensures
        crate::text::count_nl(normalize_spec(s)) == crate::text::count_nl(s),
{
    let ls = spec_lines(s);
    let ml = norm_lines(ls);
    let j = join_lines(ml);
    crate::text::lemma_spec_lines_no_nl(s);
    lemma_norm_lines_no_nl(ls);
    crate::text::lemma_count_nl_join(ml);
    crate::text::lemma_spec_lines_len(s);
    if s.len() == 0 {
        assert(normalize_spec(s) =~= Seq::<char>::empty());
    } else if s.last() == '\n' {
        crate::text::lemma_count_nl_nonneg(s.drop_last());
        assert(ml.len() >= 1);
        crate::text::lemma_count_nl_concat(j, seq!['\n']);
        assert(seq!['\n'].drop_last() =~= Seq::<char>::empty());
        assert(crate::text::count_nl(Seq::<char>::empty()) == 0);
        assert(seq!['\n'].last() == '\n');
        assert(crate::text::count_nl(seq!['\n']) == 1);
        assert(normalize_spec(s) == j + seq!['\n']);
    } else {
        crate::text::lemma_count_nl_nonneg(s);
        assert(ml.len() >= 1);
        assert(normalize_spec(s) =~= j);
    }
}

/// Normalization keeps the number of lines, except where it empties a
/// final line that no newline terminates: there the emptied line is
/// absorbed by the separator before it.
pub proof fn lemma_normalize_line_count(s: Seq<char>)
    requires
        s.len() > 0 && s.last() != '\n' ==> norm_line(spec_lines(s).last()).len() > 0,
    ensures
        spec_lines(normalize_spec(s)).len() == spec_lines(s).len(),
{
    let ls = spec_lines(s);
    let ml = norm_lines(ls);
    let j = join_lines(ml);
    crate::text::lemma_spec_lines_no_nl(s);
    lemma_norm_lines_no_nl(ls);
    if s.len() == 0 {
        assert(normalize_spec(s) =~= Seq::<char>::empty());
        assert(spec_lines(normalize_spec(s)) =~= Seq::<Seq<char>>::empty());
    } else if s.last() == '\n' {
        let n1 = normalize_spec(s);
        assert(n1 =~= j + seq!['\n']);
        assert(n1.len() > 0 && n1.last() == '\n');
        crate::text::lemma_split_all_len(s.drop_last());
        crate::text::lemma_count_nl_nonneg(s.drop_last());
        assert(ml.len() >= 1);
        crate::text::lemma_lines_join(ml);
        assert(n1.drop_last() =~= j);
        assert(spec_lines(n1) == crate::text::split_all(j));
        assert(spec_lines(n1) == ml);
    } else {
        crate::text::lemma_split_all_len(s);
        crate::text::lemma_count_nl_nonneg(s);
        assert(ml.len() >= 1);
        assert(ml.last() == norm_line(ls.last()));
        assert(ml.last().len() > 0);
        crate::text::lemma_lines_join(ml);
        assert(normalize_spec(s) =~= j);
        assert(spec_lines(normalize_spec(s)) == ml);
    }
}

// ---------------------------------------------------------------------
// The replacement engine
// ---------------------------------------------------------------------

/// How the span was located.
#[derive(Debug, Clone, Copy, PartialEq, Eq)]
pub enum EditMethod {
    Exact,
    Fuzzy,
}

/// Why an edit was refused.
#[derive(Debug, Clone, Copy, PartialEq, Eq)]
pub enum EditError {
    /// The old span is empty, or equals the new one.
    InvalidRequest,
    /// The old span occurs this many times; replacement needs exactly
    /// one occurrence.
    Ambiguous(usize),
    /// The old span occurs nowhere, exactly or normalized.
    NotFound,
}

/// A successful edit: the new document, how the span was found, the
/// rendered diff with its segments, and the first line that changed.
#[derive(Debug, Clone)]
pub struct EditOutcome {
    pub updated: String,
    pub method: EditMethod,
    pub diff: String,
    pub segments: Vec<DiffChange>,
    pub first_changed_line: usize,
}

/// One-based index of the first position where the two line sequences
/// differ, or zero when the shared prefix of both is equal.
pub open spec fn first_diff_from(a: Seq<Seq<char>>, b: Seq<Seq<char>>, i: int) -> int
    decreases a.len() - i,
    when 0 <= i
{
    if i >= a.len() || i >= b.len() {
        0
    } else if a[i] != b[i] {
        i + 1
    } else {
        first_diff_from(a, b, i + 1)
    }
}

/// The reported first changed line: the first differing position, or
/// line one when comparing in lockstep finds none.
pub open spec fn first_changed_line_spec(a: Seq<Seq<char>>, b: Seq<Seq<char>>) -> int {
    if first_diff_from(a, b, 0) == 0 {
        1
    } else {
        first_diff_from(a, b, 0)
    }
}

fn first_changed_line_exec(doc: &Vec<char>, upd: &Vec<char>) -> (r: usize)
    ensures
        r as int == first_changed_line_spec(spec_lines(doc@), spec_lines(upd@)),
{
    let a = lines_of(doc);
    let b = lines_of(upd);
    let ghost av = views_of(a@);
    let ghost bv = views_of(b@);
    let mut i: usize = 0;
    while i < a.len() && i < b.len()
        invariant
            0 <= i,
            i <= a.len() || i <= b.len(),
            av == views_of(a@),
            bv == views_of(b@),
            av == spec_lines(doc@),
            bv == spec_lines(upd@),
            first_diff_from(av, bv, 0) == first_diff_from(av, bv, i as int),
        decreases a.len() - i,
    {
        proof {
            assert(views_of(a@)[i as int] == a@[i as int]@);
            assert(views_of(b@)[i as int] == b@[i as int]@);
        }
        if !eq_chars(&a[i], &b[i]) {
            return i + 1;
        }
        i = i + 1;
    }
    proof {
        assert(first_diff_from(av, bv, i as int) == 0);
    }
    1
}

/// The fuzzy phase's result: the sole normalized occurrence, mapped
/// back onto the original document's lines; or, where that line range
/// is inconsistent, the replacement done directly in the normalized
/// text.
pub open spec fn fuzzy_updated(d: Seq<char>, o: Seq<char>, n: Seq<char>) -> Seq<char> {
    let nd = normalize_spec(d);
    let no = normalize_spec(o);
    let pos = occurrences(nd, no)[0];
    let nlb = spec_lines(nd.take(pos)).len();
    if 0 < nlb <= spec_lines(d).len() {
        let start = nlb - 1;
        let end = if start + spec_lines(o).len() <= spec_lines(d).len() {
            start + spec_lines(o).len() as int
        } else {
            spec_lines(d).len() as int
        };
        replace_first(d, join_lines(spec_lines(d).subrange(start, end)), n)
    } else {
        replace_first(nd, no, n)
    }
}

proof fn lemma_join_len_mono(ms: Seq<Seq<char>>, ls: Seq<Seq<char>>)
    requires
        ms.len() == ls.len(),
        forall|i: int| 0 <= i < ms.len() ==> #[trigger] ms[i].len() <= ls[i].len(),
    ensures
        join_lines(ms).len() <= join_lines(ls).len(),
    decreases ms.len(),
{
    if ms.len() <= 1 {
    } else {
        assert(forall|i: int|
            0 <= i < ms.drop_last().len() ==> #[trigger] ms.drop_last()[i].len()
                <= ls.drop_last()[i].len());
        lemma_join_len_mono(ms.drop_last(), ls.drop_last());
    }
}

/// Normalization never lengthens a text.
pub proof fn lemma_normalize_len_le(s: Seq<char>)
    ensures
        normalize_spec(s).len() <= s.len(),
{
    let ls = spec_lines(s);
    let ms = norm_lines(ls);
    assert(ms.len() == ls.len());
    assert forall|i: int| 0 <= i < ms.len() implies #[trigger] ms[i].len() <= ls[i].len() by {
        assert(ms[i] == norm_line(ls[i]));
        lemma_trim_end_props(ls[i]);
    }
    lemma_join_len_mono(ms, ls);
    if s.len() == 0 {
    } else if s.last() == '\n' {
        lemma_join_split(s.drop_last());
        assert(join_lines(ls).len() == s.len() - 1);
    } else {
        lemma_join_split(s);
    }
}

/// Apply a single old-to-new replacement to a document.
///
/// The request is rejected when the old span is empty or equals the
/// new one.  Otherwise the old span must occur exactly once in the
/// document, counted byte-for-byte first; when it occurs there zero
/// times, exactly once under normalization.  Several occurrences are
/// ambiguous, none is not found; neither is ever resolved by guessing.
/// On success the result carries the updated document, the method, a
/// unified diff whose kept segments replay to the updated document,
/// and the first changed line.
pub fn apply_edit(document: &str, old_text: &str, new_text: &str, path: &str) -> (r: Result<
    EditOutcome,
    EditError,
>)
    requires
        document@.len() < usize::MAX,
    ensures
        r == Result::<EditOutcome, EditError>::Err(EditError::InvalidRequest) <==> (old_text@.len()
            == 0 || old_text@ == new_text@),
        r is Ok <==> (old_text@.len() > 0 && old_text@ != new_text@ && (occurrences(
            document@,
            old_text@,
        ).len() == 1 || (occurrences(document@, old_text@).len() == 0 && occurrences(
            normalize_spec(document@),
            normalize_spec(old_text@),
        ).len() == 1))),
        old_text@.len() > 0 && old_text@ != new_text@ ==> {
            let ec = occurrences(document@, old_text@).len();
            let fc = occurrences(normalize_spec(document@), normalize_spec(old_text@)).len();
            &&& ec == 1 ==> (r matches Ok(out) && out.method == EditMethod::Exact
                && out.updated@ == replace_at(
                document@,
                occurrences(document@, old_text@)[0],
                old_text@.len() as int,
                new_text@,
            ))
            &&& ec > 1 ==> r == Result::<EditOutcome, EditError>::Err(
                EditError::Ambiguous(ec as usize),
            )
            &&& ec == 0 && fc == 1 ==> (r matches Ok(out) && out.method == EditMethod::Fuzzy
                && out.updated@ == fuzzy_updated(document@, old_text@, new_text@))
            &&& ec == 0 && fc > 1 ==> r == Result::<EditOutcome, EditError>::Err(
                EditError::Ambiguous(fc as usize),
            )
            &&& ec == 0 && fc == 0 ==> r == Result::<EditOutcome, EditError>::Err(
                EditError::NotFound,
            )
        },
        r matches Ok(out) ==> {
            &&& old_side(out.segments@) == document@
            &&& new_side(out.segments@) == out.updated@
            &&& out.diff@ == render_diff_spec(
                path@,
                unified_hunks_of(document@, out.updated@),
                out.segments@,
            )
            &&& out.first_changed_line as int == first_changed_line_spec(
                spec_lines(document@),
                spec_lines(out.updated@),
            )
        },
{
    let doc = chars_of(document);
    let old_c = chars_of(old_text);
    let new_c = chars_of(new_text);
    if old_c.len() == 0 {
        return Err(EditError::InvalidRequest);
    }
    if eq_chars(&old_c, &new_c) {
        return Err(EditError::InvalidRequest);
    }
    let (ecount, efirst) = scan_occurrences(&doc, &old_c);
    let updated_chars: Vec<char>;
    let method: EditMethod;
    if ecount == 1 {
        updated_chars = replace_at_exec(&doc, efirst, old_c.len(), &new_c);
        method = EditMethod::Exact;
    } else if ecount > 1 {
        return Err(EditError::Ambiguous(ecount));
    } else {
        let nd = normalize_chars(&doc);
        let no = normalize_chars(&old_c);
        proof {
            lemma_normalize_len_le(document@);
        }
        let fcount: usize;
        let ffirst: usize;
        if no.len() == 0 {
            fcount = nd.len() + 1;
            ffirst = 0;
            proof {
                assert(occurrences(nd@, no@).len() == nd@.len() + 1);
                assert(occurrences(nd@, no@)[0] == 0);
            }
        } else {
            let (c, f) = scan_occurrences(&nd, &no);
            fcount = c;
            ffirst = f;
        }
        if fcount == 1 {
            proof {
                assert(ffirst <= nd@.len());
            }
            let prefix = sub_chars(&nd, 0, ffirst);
            proof {
                assert(nd@.subrange(0, ffirst as int) =~= nd@.take(ffirst as int));
            }
            let prefix_lines = lines_of(&prefix);
            let nlb = prefix_lines.len();
            let dlines = lines_of(&doc);
            let olines = lines_of(&old_c);
            if nlb > 0 && nlb <= dlines.len() {
                let start = nlb - 1;
                let avail = dlines.len() - start;
                let slc = olines.len();
                let end = if slc <= avail {
                    start + slc
                } else {
                    dlines.len()
                };
                let section = join_range(&dlines, start, end);
                if section.len() == 0 {
                    let mut u: Vec<char> = Vec::new();
                    push_all(&mut u, &new_c);
                    push_all(&mut u, &doc);
                    proof {
                        assert(occurrences(doc@, section@).len() == doc@.len() + 1);
                        assert(occurrences(doc@, section@)[0] == 0);
                        assert(doc@.take(0) =~= Seq::<char>::empty());
                        assert(doc@.skip(0) =~= doc@);
                        assert(u@ =~= replace_at(doc@, 0, 0, new_c@));
                    }
                    updated_chars = u;
                } else {
                    let (scount, sfirst) = scan_occurrences(&doc, &section);
                    if scount > 0 {
                        updated_chars = replace_at_exec(&doc, sfirst, section.len(), &new_c);
                    } else {
                        updated_chars = sub_chars(&doc, 0, doc.len());
                        proof {
                            assert(doc@.subrange(0, doc@.len() as int) =~= doc@);
                        }
                    }
                }
                method = EditMethod::Fuzzy;
            } else {
                if no.len() == 0 {
                    let mut u: Vec<char> = Vec::new();
                    push_all(&mut u, &new_c);
                    push_all(&mut u, &nd);
                    proof {
                        assert(occurrences(nd@, no@)[0] == 0);
                        assert(nd@.take(0) =~= Seq::<char>::empty());
                        assert(nd@.skip(0) =~= nd@);
                        assert(u@ =~= replace_at(nd@, 0, 0, new_c@));
                    }
                    updated_chars = u;
                } else {
                    updated_chars = replace_at_exec(&nd, ffirst, no.len(), &new_c);
                }
                method = EditMethod::Fuzzy;
            }
        } else if fcount > 1 {
            return Err(EditError::Ambiguous(fcount));
        } else {
            return Err(EditError::NotFound);
        }
    }
    let updated = string_of(&updated_chars);
    let (diff_s, segs) = diff_parts(document, updated.as_str(), path);
    let fcl = first_changed_line_exec(&doc, &updated_chars);
    Ok(
        EditOutcome {
            updated,
            method,
            diff: diff_s,
            segments: segs,
            first_changed_line: fcl,
        },
    )
}

} // verus!
