//! Line-level diffs between two versions of a document, rendered as a
//! unified-diff text block.
//!
//! The diff itself comes from the `similar` crate; what this module
//! states and proves is that the change stream covers both texts
//! exactly, so that replaying the kept segments reconstructs the
//! post-edit document, and that the rendering follows the expected
//! `-`/`+`/` ` line format.

use vstd::prelude::*;

verus! {

use crate::text::{chars_of, push_all, string_of};

/// What one diff segment does.
#[derive(Debug, Clone, Copy, PartialEq, Eq)]
pub enum DiffKind {
    Equal,
    Delete,
    Insert,
}

/// One segment of a line diff: a line (with its trailing newline,
/// unless the text ends without one) that is kept, removed or added.
#[derive(Debug, Clone)]
pub struct DiffChange {
    pub kind: DiffKind,
    pub text: String,
    pub missing_newline: bool,
}

/// The old text as the segments describe it: everything not inserted,
/// in order.
pub open spec fn old_side(segs: Seq<DiffChange>) -> Seq<char>
    decreases segs.len(),
{
    if segs.len() == 0 {
        Seq::<char>::empty()
    } else {
        old_side(segs.drop_last()) + (if segs.last().kind == DiffKind::Insert {
            Seq::<char>::empty()
        } else {
            segs.last().text@
        })
    }
}

/// The new text as the segments describe it: everything not deleted,
/// in order.
pub open spec fn new_side(segs: Seq<DiffChange>) -> Seq<char>
    decreases segs.len(),
{
    if segs.len() == 0 {
        Seq::<char>::empty()
    } else {
        new_side(segs.drop_last()) + (if segs.last().kind == DiffKind::Delete {
            Seq::<char>::empty()
        } else {
            segs.last().text@
        })
    }
}

/// Relies on `similar::TextDiff::from_lines` and its change stream:
/// the diff operations cover both texts completely and in order, each
/// change carrying one line token (trailing newline included where the
/// text has one), so the texts of the changes tagged Equal or Delete
/// concatenate to exactly the old text, and those tagged Equal or
/// Insert to exactly the new text.
#[verifier::external_body]
fn diff_line_changes(old_text: &str, new_text: &str) -> (r: Vec<DiffChange>)
    ensures
        old_side(r@) == old_text@,
        new_side(r@) == new_text@,
{
    similar::TextDiff::from_lines(old_text, new_text).iter_all_changes().map(|c| DiffChange {
        kind: match c.tag() {
            similar::ChangeTag::Equal => DiffKind::Equal,
            similar::ChangeTag::Delete => DiffKind::Delete,
            similar::ChangeTag::Insert => DiffKind::Insert,
        },
        text: c.to_string_lossy().into_owned(),
        missing_newline: c.missing_newline(),
    }).collect()
}

/// The hunk block that `similar` renders for the two texts.
pub uninterp spec fn unified_hunks_of(old_text: Seq<char>, new_text: Seq<char>) -> Seq<char>;

/// Relies on `similar::TextDiff::unified_diff`: the rendered hunk
/// block is a deterministic function of the two texts alone.
#[verifier::external_body]
fn unified_hunks(old_text: &str, new_text: &str) -> (r: String)
    ensures
        r@ == unified_hunks_of(old_text@, new_text@),
{
    let diff = similar::TextDiff::from_lines(old_text, new_text);
    let mut u = diff.unified_diff();
    u.header("", "").to_string()
}

/// The sign prefixing a rendered segment.
pub open spec fn sign_of(k: DiffKind) -> char {
    match k {
        DiffKind::Equal => ' ',
        DiffKind::Delete => '-',
        DiffKind::Insert => '+',
    }
}

/// The rendered change listing: each segment as a signed line.  A
/// segment whose text lacks its newline is closed with one and marked
/// by a blank line.
pub open spec fn render_changes(segs: Seq<DiffChange>) -> Seq<char>
    decreases segs.len(),
{
    if segs.len() == 0 {
        Seq::<char>::empty()
    } else {
        render_changes(segs.drop_last()) + seq![sign_of(segs.last().kind)] + segs.last().text@ + (
        if segs.last().missing_newline {
            seq!['\n', '\n']
        } else {
            Seq::<char>::empty()
        })
    }
}

/// The full diff block: `--- a/` and `+++ b/` headers naming the
/// display path, the hunk block, then the signed change listing.
pub open spec fn render_diff_spec(path: Seq<char>, hunks: Seq<char>, segs: Seq<DiffChange>) -> Seq<
    char,
> {
    "--- a/"@ + path + "\n+++ b/"@ + path + seq!['\n'] + hunks + render_changes(segs)
}

/// The diff between two texts: the rendered block and its segments.
pub(crate) fn diff_parts(old_text: &str, new_text: &str, path: &str) -> (r: (String, Vec<
    DiffChange,
>))
    ensures
        old_side(r.1@) == old_text@,
        new_side(r.1@) == new_text@,
        r.0@ == render_diff_spec(
            path@,
            unified_hunks_of(old_text@, new_text@),
            r.1@,
        ),
{
    let segs = diff_line_changes(old_text, new_text);
    let hunks = unified_hunks(old_text, new_text);
    let mut out = chars_of("--- a/");
    let p = chars_of(path);
    push_all(&mut out, &p);
    let mid = chars_of("\n+++ b/");
    push_all(&mut out, &mid);
    push_all(&mut out, &p);
    out.push('\n');
    let h = chars_of(hunks.as_str());
    push_all(&mut out, &h);
    proof {
        assert("--- a/"@ + path@ + "\n+++ b/"@ + path@ + seq!['\n'] + unified_hunks_of(
            old_text@,
            new_text@,
        ) =~= out@);
        assert(segs@.take(0) =~= Seq::<DiffChange>::empty());
    }
    let mut i: usize = 0;
    let ghost head = out@;
    while i < segs.len()
        invariant
            0 <= i <= segs.len(),
            out@ == head + render_changes(segs@.take(i as int)),
        decreases segs.len() - i,
    {
        let seg = &segs[i];
        match seg.kind {
            DiffKind::Equal => out.push(' '),
            DiffKind::Delete => out.push('-'),
            DiffKind::Insert => out.push('+'),
        }
        let t = chars_of(seg.text.as_str());
        push_all(&mut out, &t);
        if seg.missing_newline {
            out.push('\n');
            out.push('\n');
        }
        proof {
            assert(segs@.take(i + 1).drop_last() =~= segs@.take(i as int));
            assert(segs@.take(i + 1).last() == segs@[i as int]);
            assert(out@ =~= head + render_changes(segs@.take(i + 1)));
        }
        i = i + 1;
    }
    proof {
        assert(segs@.take(segs@.len() as int) =~= segs@);
    }
    (string_of(&out), segs)
}

/// The unified diff between two versions of a document, headed with
/// the display path.
pub fn unified_diff(old_text: &str, new_text: &str, path: &str) -> (r: String)
    ensures
        exists|segs: Seq<DiffChange>|
            {
                &&& old_side(segs) == old_text@
                &&& new_side(segs) == new_text@
                &&& r@ == render_diff_spec(path@, unified_hunks_of(old_text@, new_text@), segs)
            },
{
    let (d, segs) = diff_parts(old_text, new_text, path);
    proof {
        let sv = segs@;
        assert(old_side(sv) == old_text@ && new_side(sv) == new_text@ && d@ == render_diff_spec(
            path@,
            unified_hunks_of(old_text@, new_text@),
            sv,
        ));
    }
    d
}

/// Replay a diff against its pre-edit document: keep what is not
/// deleted.  Applied to the segments produced for a pair of texts,
/// this reconstructs the post-edit text.
pub fn apply_diff(segments: &Vec<DiffChange>) -> (r: String)
    ensures
        r@ == new_side(segments@),
{
    let mut out: Vec<char> = Vec::new();
    let mut i: usize = 0;
    proof {
        assert(segments@.take(0) =~= Seq::<DiffChange>::empty());
    }
    while i < segments.len()
        invariant
            0 <= i <= segments.len(),
            out@ == new_side(segments@.take(i as int)),
        decreases segments.len() - i,
    {
        let seg = &segments[i];
        let keep = match seg.kind {
            DiffKind::Delete => false,
            DiffKind::Equal => true,
            DiffKind::Insert => true,
        };
        if keep {
            let t = chars_of(seg.text.as_str());
            push_all(&mut out, &t);
        }
        proof {
            assert(segments@.take(i + 1).drop_last() =~= segments@.take(i as int));
            assert(segments@.take(i + 1).last() == segments@[i as int]);
            assert(out@ =~= new_side(segments@.take(i + 1)));
        }
        i = i + 1;
    }
    proof {
        assert(segments@.take(segments@.len() as int) =~= segments@);
    }
    string_of(&out)
}

} // verus!
