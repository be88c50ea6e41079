//! Path resolution and display relative to a working directory.

use vstd::prelude::*;

verus! {

use crate::text::{chars_of, string_of, push_all, sub_chars, starts_with, starts_with_exec};

/// The sequence without its trailing slashes.
pub open spec fn trim_trailing_slashes(s: Seq<char>) -> Seq<char>
    decreases s.len(),
{
    if s.len() > 0 && s.last() == '/' {
        trim_trailing_slashes(s.drop_last())
    } else {
        s
    }
}

pub(crate) fn trim_trailing_slashes_exec(v: &Vec<char>) -> (r: Vec<char>)
    ensures
        r@ == trim_trailing_slashes(v@),
{
    let mut end: usize = v.len();
    let mut stop = false;
    proof {
        assert(v@.take(v@.len() as int) =~= v@);
    }
    while end > 0 && !stop
        invariant
            0 <= end <= v.len(),
            trim_trailing_slashes(v@) == trim_trailing_slashes(v@.take(end as int)),
            stop ==> end > 0 && v@[end - 1] != '/',
        decreases end + (if stop {
            0int
        } else {
            1int
        }),
    {
        if v[end - 1] == '/' {
            proof {
                assert(v@.take(end as int).last() == v@[end - 1]);
                assert(v@.take(end as int).drop_last() =~= v@.take(end - 1));
            }
            end = end - 1;
        } else {
            stop = true;
        }
    }
    proof {
        if end == 0 {
            assert(v@.take(0) =~= Seq::<char>::empty());
        } else {
            assert(v@.take(end as int).last() == v@[end - 1]);
        }
        assert(trim_trailing_slashes(v@) == v@.take(end as int));
    }
    let r = sub_chars(v, 0, end);
    proof {
        assert(v@.subrange(0, end as int) =~= v@.take(end as int));
    }
    r
}

/// An absolute path unchanged; a relative path joined to the working
/// directory, whose trailing slashes are dropped first.
pub open spec fn resolve_path_spec(cwd: Seq<char>, path: Seq<char>) -> Seq<char> {
    if path.len() > 0 && path[0] == '/' {
        path
    } else {
        trim_trailing_slashes(cwd) + seq!['/'] + path
    }
}

/// Resolve a path relative to the working directory.  Absolute paths
/// are returned as they are; relative paths are joined with `cwd`.
pub fn resolve_path(cwd: &str, path: &str) -> (r: String)
    ensures
        r@ == resolve_path_spec(cwd@, path@),
{
    let p = chars_of(path);
    if p.len() > 0 && p[0] == '/' {
        return string_of(&p);
    }
    let c = chars_of(cwd);
    let mut out = trim_trailing_slashes_exec(&c);
    out.push('/');
    push_all(&mut out, &p);
    proof {
        assert(out@ =~= trim_trailing_slashes(cwd@) + seq!['/'] + path@);
    }
    string_of(&out)
}

/// The path with the working directory's prefix dropped; the working
/// directory's trailing slashes are ignored.
pub open spec fn display_path_spec(path: Seq<char>, cwd: Seq<char>) -> Seq<char> {
    let prefix = trim_trailing_slashes(cwd) + seq!['/'];
    if starts_with(path, prefix) {
        path.skip(prefix.len() as int)
    } else {
        path
    }
}

/// Make a path relative to the working directory for display.
pub fn display_path(path: &str, cwd: &str) -> (r: String)
    ensures
        r@ == display_path_spec(path@, cwd@),
{
    let c = chars_of(cwd);
    let mut prefix = trim_trailing_slashes_exec(&c);
    prefix.push('/');
    proof {
        assert(prefix@ =~= trim_trailing_slashes(cwd@) + seq!['/']);
    }
    let p = chars_of(path);
    if starts_with_exec(&p, &prefix) {
        let rest = sub_chars(&p, prefix.len(), p.len());
        proof {
            assert(p@.subrange(prefix@.len() as int, p@.len() as int) =~= p@.skip(
                prefix@.len() as int,
            ));
        }
        string_of(&rest)
    } else {
        string_of(&p)
    }
}

} // verus!
