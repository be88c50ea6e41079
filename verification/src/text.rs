//! The character-sequence model of text that the engines share.
//!
//! A document is a sequence of characters; its byte measure is the
//! length of its UTF-8 encoding, and its lines are the maximal runs
//! between newline characters, with a trailing newline producing no
//! empty final line (the behaviour of `str::lines`).

use vstd::prelude::*;

verus! {

use vstd::utf8::{encode_scalar, encode_utf8};
use vstd::string::StringSliceAdditionalSpecFns;

// ---------------------------------------------------------------------
// UTF-8 byte measure
// ---------------------------------------------------------------------

/// Width in bytes of one character's UTF-8 encoding.
pub open spec fn char_size(c: char) -> int {
    if (c as u32) < 0x80 {
        1
    } else if (c as u32) < 0x800 {
        2
    } else if (c as u32) < 0x10000 {
        3
    } else {
        4
    }
}

/// Byte length of the UTF-8 encoding of a character sequence.
pub open spec fn bytes_len(s: Seq<char>) -> int
    decreases s.len(),
{
    if s.len() == 0 {
        0
    } else {
        char_size(s[0]) + bytes_len(s.drop_first())
    }
}

pub proof fn lemma_char_size_encode(c: char)
    ensures
        encode_scalar(c as u32).len() == char_size(c),
{
}

/// The byte measure agrees with vstd's UTF-8 encoding, and so with
/// `str::len`.
pub proof fn lemma_bytes_len_encode(s: Seq<char>)
    ensures
        bytes_len(s) == encode_utf8(s).len(),
    decreases s.len(),
{
    if s.len() == 0 {
    } else {
        lemma_char_size_encode(s[0]);
        lemma_bytes_len_encode(s.drop_first());
    }
}

/// A sequence never has more characters than encoded bytes.
pub proof fn lemma_bytes_len_at_least_len(s: Seq<char>)
    ensures
        s.len() <= bytes_len(s),
    decreases s.len(),
{
    if s.len() == 0 {
    } else {
        lemma_bytes_len_at_least_len(s.drop_first());
    }
}

pub proof fn lemma_bytes_len_concat(a: Seq<char>, b: Seq<char>)
    ensures
        bytes_len(a + b) == bytes_len(a) + bytes_len(b),
    decreases a.len(),
{
    if a.len() == 0 {
        assert(a + b =~= b);
    } else {
        assert((a + b).drop_first() =~= a.drop_first() + b);
        lemma_bytes_len_concat(a.drop_first(), b);
    }
}

pub proof fn lemma_bytes_len_push(a: Seq<char>, c: char)
    ensures
        bytes_len(a.push(c)) == bytes_len(a) + char_size(c),
{
    assert(a.push(c) =~= a + seq![c]);
    lemma_bytes_len_concat(a, seq![c]);
    assert(seq![c].drop_first() =~= Seq::<char>::empty());
    assert(bytes_len(seq![c]) == char_size(c) + bytes_len(seq![c].drop_first()));
}

/// A prefix never measures more bytes than the whole.
pub proof fn lemma_bytes_len_take(s: Seq<char>, i: int)
    requires
        0 <= i <= s.len(),
    ensures
        0 <= bytes_len(s.take(i)) <= bytes_len(s),
{
    assert(s =~= s.take(i) + s.skip(i));
    lemma_bytes_len_concat(s.take(i), s.skip(i));
    lemma_bytes_len_at_least_len(s.take(i));
    lemma_bytes_len_at_least_len(s.skip(i));
}

pub proof fn lemma_bytes_len_nl()
    ensures
        bytes_len(seq!['\n']) == 1,
{
    assert(seq!['\n'].drop_first() =~= Seq::<char>::empty());
    assert(bytes_len(Seq::<char>::empty()) == 0);
    assert(bytes_len(seq!['\n']) == char_size('\n') + bytes_len(seq!['\n'].drop_first()));
}

/// Byte length of a string, as the byte measure of its characters.
pub fn str_bytes_len(s: &str) -> (n: usize)
    ensures
        n == bytes_len(s@),
{
    proof {
        lemma_bytes_len_encode(s@);
        assert(s.spec_bytes() == encode_utf8(s@));
    }
    let b = s.as_bytes();
    proof {
        vstd::slice::axiom_spec_len(b);
    }
    b.len()
}

/// Width in bytes of one character's UTF-8 encoding.
pub fn char_size_exec(c: char) -> (n: usize)
    ensures
        n == char_size(c),
{
    let u = c as u32;
    if u < 0x80 {
        1
    } else if u < 0x800 {
        2
    } else if u < 0x10000 {
        3
    } else {
        4
    }
}

/// Byte length of a character vector's UTF-8 encoding.
pub fn bytes_len_exec(v: &Vec<char>) -> (n: usize)
    requires
        bytes_len(v@) <= usize::MAX,
    ensures
        n == bytes_len(v@),
{
    let mut n: usize = 0;
    let mut i: usize = 0;
    while i < v.len()
        invariant
            0 <= i <= v.len(),
            bytes_len(v@) <= usize::MAX,
            n == bytes_len(v@.take(i as int)),
        decreases v.len() - i,
    {
        proof {
            assert(v@.take(i as int).push(v@[i as int]) =~= v@.take(i + 1));
            lemma_bytes_len_push(v@.take(i as int), v@[i as int]);
            lemma_bytes_len_take(v@, i + 1);
        }
        n = n + char_size_exec(v[i]);
        i = i + 1;
    }
    proof {
        assert(v@.take(v.len() as int) =~= v@);
    }
    n
}

// ---------------------------------------------------------------------
// Conversions between strings and character vectors
// ---------------------------------------------------------------------

/// The characters of a string, in order.
pub fn chars_of(s: &str) -> (r: Vec<char>)
    ensures
        r@ == s@,
{
    let n = s.unicode_len();
    let mut r: Vec<char> = Vec::new();
    let mut i: usize = 0;
    while i < n
        invariant
            0 <= i <= n,
            n == s@.len(),
            r@ == s@.take(i as int),
        decreases n - i,
    {
        let c = s.get_char(i);
        proof {
            assert(s@.take(i as int).push(s@[i as int]) =~= s@.take(i + 1));
        }
        r.push(c);
        i = i + 1;
    }
    proof {
        assert(s@.take(s@.len() as int) =~= s@);
    }
    r
}

/// Relies on `String::push`: appends the given character to the end of
/// the string.
#[verifier::external_body]
pub fn push_char(s: &mut String, c: char)
    ensures
        final(s)@ == old(s)@.push(c),
{
    s.push(c);
}

/// The string spelling out the given characters.
pub fn string_of(v: &Vec<char>) -> (r: String)
    ensures
        r@ == v@,
{
    let mut r = String::new();
    let mut i: usize = 0;
    while i < v.len()
        invariant
            0 <= i <= v.len(),
            r@ == v@.take(i as int),
        decreases v.len() - i,
    {
        proof {
            assert(v@.take(i as int).push(v@[i as int]) =~= v@.take(i + 1));
        }
        push_char(&mut r, v[i]);
        i = i + 1;
    }
    proof {
        assert(v@.take(v.len() as int) =~= v@);
    }
    r
}

/// Appends all of `src` to `dst`.
pub fn push_all(dst: &mut Vec<char>, src: &Vec<char>)
    ensures
        final(dst)@ == old(dst)@ + src@,
{
    let mut i: usize = 0;
    while i < src.len()
        invariant
            0 <= i <= src.len(),
            dst@ == old(dst)@ + src@.take(i as int),
        decreases src.len() - i,
    {
        proof {
            assert(old(dst)@ + src@.take(i + 1) =~= (old(dst)@ + src@.take(i as int)).push(
                src@[i as int],
            ));
        }
        dst.push(src[i]);
        i = i + 1;
    }
    proof {
        assert(src@.take(src.len() as int) =~= src@);
    }
}

// ---------------------------------------------------------------------
// Lines: splitting on newlines and joining with them
// ---------------------------------------------------------------------

/// True when the sequence contains no newline.
pub open spec fn no_nl(l: Seq<char>) -> bool {
    forall|j: int| 0 <= j < l.len() ==> l[j] != '\n'
}

/// True when every element contains no newline.
pub open spec fn all_no_nl(ls: Seq<Seq<char>>) -> bool {
    forall|i: int| 0 <= i < ls.len() ==> no_nl(#[trigger] ls[i])
}

/// Number of newline characters in the sequence.
pub open spec fn count_nl(s: Seq<char>) -> int
    decreases s.len(),
{
    if s.len() == 0 {
        0
    } else {
        count_nl(s.drop_last()) + (if s.last() == '\n' {
            1int
        } else {
            0int
        })
    }
}

/// The parts of `s` between newlines: one more part than there are
/// newlines, so a trailing newline yields an empty final part.
pub open spec fn split_all(s: Seq<char>) -> Seq<Seq<char>>
    decreases s.len(),
{
    if s.len() == 0 {
        seq![Seq::<char>::empty()]
    } else if s.last() == '\n' {
        split_all(s.drop_last()).push(Seq::<char>::empty())
    } else {
        let p = split_all(s.drop_last());
        p.update(p.len() - 1, p.last().push(s.last()))
    }
}

/// The lines of `s` as `str::lines` sees them: no line for the empty
/// text, and no empty final line after a trailing newline.
pub open spec fn spec_lines(s: Seq<char>) -> Seq<Seq<char>> {
    if s.len() == 0 {
        Seq::<Seq<char>>::empty()
    } else if s.last() == '\n' {
        split_all(s.drop_last())
    } else {
        split_all(s)
    }
}

/// The lines joined with single newlines between them.
pub open spec fn join_lines(ls: Seq<Seq<char>>) -> Seq<char>
    decreases ls.len(),
{
    if ls.len() == 0 {
        Seq::<char>::empty()
    } else if ls.len() == 1 {
        ls[0]
    } else {
        join_lines(ls.drop_last()) + seq!['\n'] + ls.last()
    }
}

/// Each part followed by a newline, concatenated.
pub open spec fn cat_term(ls: Seq<Seq<char>>) -> Seq<char>
    decreases ls.len(),
{
    if ls.len() == 0 {
        Seq::<char>::empty()
    } else {
        cat_term(ls.drop_last()) + ls.last() + seq!['\n']
    }
}

/// The views of a vector of character vectors.
pub open spec fn views_of(vs: Seq<Vec<char>>) -> Seq<Seq<char>> {
    vs.map_values(|v: Vec<char>| v@)
}

pub proof fn lemma_count_nl_nonneg(s: Seq<char>)
    ensures
        count_nl(s) >= 0,
    decreases s.len(),
{
    if s.len() > 0 {
        lemma_count_nl_nonneg(s.drop_last());
    }
}

pub proof fn lemma_count_nl_concat(a: Seq<char>, b: Seq<char>)
    ensures
        count_nl(a + b) == count_nl(a) + count_nl(b),
    decreases b.len(),
{
    if b.len() == 0 {
        assert(a + b =~= a);
    } else {
        assert((a + b).drop_last() =~= a + b.drop_last());
        assert((a + b).last() == b.last());
        lemma_count_nl_concat(a, b.drop_last());
    }
}

pub proof fn lemma_count_nl_no_nl(l: Seq<char>)
    requires
        no_nl(l),
    ensures
        count_nl(l) == 0,
    decreases l.len(),
{
    if l.len() > 0 {
        assert(no_nl(l.drop_last()));
        lemma_count_nl_no_nl(l.drop_last());
    }
}

pub proof fn lemma_split_all_len(s: Seq<char>)
    ensures
        split_all(s).len() == count_nl(s) + 1,
    decreases s.len(),
{
    if s.len() > 0 {
        lemma_split_all_len(s.drop_last());
        lemma_count_nl_nonneg(s.drop_last());
        if s.last() != '\n' {
            let p = split_all(s.drop_last());
            assert(split_all(s) == p.update(p.len() - 1, p.last().push(s.last())));
            assert(split_all(s).len() == p.len());
        }
    }
}

/// No part of a split contains a newline.
pub proof fn lemma_split_all_no_nl(s: Seq<char>)
    ensures
        all_no_nl(split_all(s)),
    decreases s.len(),
{
    if s.len() == 0 {
    } else if s.last() == '\n' {
        lemma_split_all_no_nl(s.drop_last());
    } else {
        lemma_split_all_no_nl(s.drop_last());
        lemma_split_all_len(s.drop_last());
        lemma_count_nl_nonneg(s.drop_last());
    }
}

pub proof fn lemma_spec_lines_no_nl(s: Seq<char>)
    ensures
        all_no_nl(spec_lines(s)),
{
    if s.len() == 0 {
    } else if s.last() == '\n' {
        lemma_split_all_no_nl(s.drop_last());
    } else {
        lemma_split_all_no_nl(s);
    }
}

/// Splitting and rejoining reproduces the text.
pub proof fn lemma_join_split(s: Seq<char>)
    ensures
        join_lines(split_all(s)) == s,
    decreases s.len(),
{
    lemma_split_all_len(s);
    lemma_count_nl_nonneg(s);
    if s.len() == 0 {
        assert(join_lines(split_all(s)) =~= s);
    } else if s.last() == '\n' {
        let p = split_all(s.drop_last());
        lemma_split_all_len(s.drop_last());
        lemma_count_nl_nonneg(s.drop_last());
        lemma_join_split(s.drop_last());
        assert(p.push(Seq::<char>::empty()).drop_last() =~= p);
        assert(join_lines(split_all(s)) =~= s);
    } else {
        let p = split_all(s.drop_last());
        let u = p.update(p.len() - 1, p.last().push(s.last()));
        lemma_split_all_len(s.drop_last());
        lemma_count_nl_nonneg(s.drop_last());
        lemma_join_split(s.drop_last());
        if p.len() == 1 {
            assert(join_lines(u) == u[0]);
            assert(join_lines(u) =~= s);
        } else {
            assert(u.drop_last() =~= p.drop_last());
            assert(u.last() == p.last().push(s.last()));
            assert(join_lines(p) == join_lines(p.drop_last()) + seq!['\n'] + p.last());
            assert(join_lines(u) == join_lines(p.drop_last()) + seq!['\n'] + u.last());
            assert(s.drop_last() == join_lines(p.drop_last()) + seq!['\n'] + p.last());
            assert(s =~= s.drop_last().push(s.last()));
            assert(join_lines(u) =~= s);
        }
    }
}

/// Splitting text assembled from newline-free parts recovers the parts.
pub proof fn lemma_split_cat(ls: Seq<Seq<char>>, u: Seq<char>)
    requires
        all_no_nl(ls),
        no_nl(u),
    ensures
        split_all(cat_term(ls) + u) == ls.push(u),
    decreases ls.len(), u.len(),
{
    if u.len() > 0 {
        let s = cat_term(ls) + u;
        assert(s.last() == u.last());
        assert(s.drop_last() =~= cat_term(ls) + u.drop_last());
        assert(no_nl(u.drop_last()));
        lemma_split_cat(ls, u.drop_last());
        let p = split_all(s.drop_last());
        assert(p == ls.push(u.drop_last()));
        assert(p.len() == ls.len() + 1);
        assert(p.last() == u.drop_last());
        assert(u.drop_last().push(u.last()) =~= u);
        assert(split_all(s) =~= ls.push(u));
    } else {
        assert(cat_term(ls) + u =~= cat_term(ls));
        if ls.len() == 0 {
            assert(split_all(cat_term(ls) + u) =~= ls.push(u));
        } else {
            let s = cat_term(ls);
            assert(s =~= cat_term(ls.drop_last()) + ls.last() + seq!['\n']);
            assert(s.len() > 0 && s.last() == '\n');
            assert(s.drop_last() =~= cat_term(ls.drop_last()) + ls.last());
            assert(all_no_nl(ls.drop_last()));
            assert(no_nl(ls.last()));
            lemma_split_cat(ls.drop_last(), ls.last());
            assert(split_all(s.drop_last()) == ls.drop_last().push(ls.last()));
            assert(ls.drop_last().push(ls.last()) =~= ls);
            assert(u =~= Seq::<char>::empty());
            assert(split_all(s) == split_all(s.drop_last()).push(Seq::<char>::empty()));
            assert(split_all(cat_term(ls) + u) =~= ls.push(u));
        }
    }
}

/// The lines of text assembled from newline-free parts.
pub proof fn lemma_lines_cat(ls: Seq<Seq<char>>, u: Seq<char>)
    requires
        all_no_nl(ls),
        no_nl(u),
    ensures
        spec_lines(cat_term(ls) + u) == if u.len() == 0 {
            ls
        } else {
            ls.push(u)
        },
{
    let s = cat_term(ls) + u;
    if u.len() > 0 {
        assert(s.last() == u.last());
        assert(s.last() != '\n');
        lemma_split_cat(ls, u);
    } else {
        assert(s =~= cat_term(ls));
        if ls.len() == 0 {
            assert(s.len() == 0);
            assert(spec_lines(s) =~= ls);
        } else {
            assert(s =~= cat_term(ls.drop_last()) + ls.last() + seq!['\n']);
            assert(s.len() > 0 && s.last() == '\n');
            assert(s.drop_last() =~= cat_term(ls.drop_last()) + ls.last());
            assert(all_no_nl(ls.drop_last()));
            lemma_split_cat(ls.drop_last(), ls.last());
            assert(ls.drop_last().push(ls.last()) =~= ls);
        }
    }
}

/// Unfolding a join one element forward.
pub proof fn lemma_join_take_step(ls: Seq<Seq<char>>, k: int)
    requires
        0 <= k < ls.len(),
    ensures
        join_lines(ls.take(k + 1)) == if k == 0 {
            ls[0]
        } else {
            join_lines(ls.take(k)) + seq!['\n'] + ls[k]
        },
{
    if k == 0 {
        assert(ls.take(1).len() == 1);
        assert(join_lines(ls.take(1)) == ls.take(1)[0]);
        assert(ls.take(1)[0] == ls[0]);
    } else {
        assert(ls.take(k + 1).drop_last() =~= ls.take(k));
        assert(ls.take(k + 1).last() == ls[k]);
    }
}

/// A longer prefix of lines joins to at least as many bytes.
pub proof fn lemma_join_take_bytes(ls: Seq<Seq<char>>, k: int)
    requires
        0 <= k <= ls.len(),
    ensures
        bytes_len(join_lines(ls.take(k))) <= bytes_len(join_lines(ls)),
    decreases ls.len() - k,
{
    if k == ls.len() {
        assert(ls.take(k) =~= ls);
    } else {
        lemma_join_take_step(ls, k);
        if k == 0 {
            assert(join_lines(ls.take(0)) =~= Seq::<char>::empty());
            lemma_bytes_len_take(join_lines(ls.take(1)), 0);
        } else {
            let a = join_lines(ls.take(k));
            let b = seq!['\n'] + ls[k];
            lemma_bytes_len_concat(a + seq!['\n'], ls[k]);
            lemma_bytes_len_concat(a, seq!['\n']);
            lemma_bytes_len_at_least_len(seq!['\n']);
            lemma_bytes_len_at_least_len(ls[k]);
            assert(a + seq!['\n'] + ls[k] == join_lines(ls.take(k + 1)));
            assert(bytes_len(a) <= bytes_len(join_lines(ls.take(k + 1))));
        }
        lemma_join_take_bytes(ls, k + 1);
    }
}

/// Unfolding a join one element from the front.
pub proof fn lemma_join_front(ls: Seq<Seq<char>>)
    requires
        ls.len() >= 2,
    ensures
        join_lines(ls) == ls[0] + seq!['\n'] + join_lines(ls.drop_first()),
    decreases ls.len(),
{
    if ls.len() == 2 {
        assert(ls.drop_last()[0] == ls[0]);
        assert(join_lines(ls.drop_last()) == ls[0]);
        assert(join_lines(ls.drop_first()) == ls.drop_first()[0]);
        assert(ls.drop_first()[0] == ls[1]);
        assert(ls.last() == ls[1]);
    } else {
        lemma_join_front(ls.drop_last());
        assert(ls.drop_last()[0] == ls[0]);
        assert(ls.drop_last().drop_first() =~= ls.drop_first().drop_last());
        assert(ls.drop_first().last() == ls.last());
        assert(ls[0] + seq!['\n'] + join_lines(ls.drop_first().drop_last()) + seq!['\n']
            + ls.last() =~= ls[0] + seq!['\n'] + (join_lines(ls.drop_first().drop_last())
            + seq!['\n'] + ls.last()));
    }
}

/// Dropping leading lines joins to no more bytes.
pub proof fn lemma_join_skip_bytes(ls: Seq<Seq<char>>, j: int)
    requires
        0 <= j <= ls.len(),
    ensures
        bytes_len(join_lines(ls.skip(j))) <= bytes_len(join_lines(ls)),
    decreases j,
{
    if j == 0 {
        assert(ls.skip(0) =~= ls);
    } else {
        lemma_join_skip_bytes(ls, j - 1);
        let p = ls.skip(j - 1);
        if p.len() >= 2 {
            lemma_join_front(p);
            assert(p.drop_first() =~= ls.skip(j));
            lemma_bytes_len_concat(p[0] + seq!['\n'], join_lines(ls.skip(j)));
            lemma_bytes_len_concat(p[0], seq!['\n']);
            lemma_bytes_len_at_least_len(p[0]);
            lemma_bytes_len_at_least_len(seq!['\n']);
            assert(p[0] + seq!['\n'] + join_lines(ls.skip(j)) == (p[0] + seq!['\n'])
                + join_lines(ls.skip(j)));
        } else {
            assert(ls.skip(j) =~= Seq::<Seq<char>>::empty());
            lemma_bytes_len_at_least_len(join_lines(p));
        }
    }
}

/// Rejoining the lines of `s` yields `s` or `s` without its trailing
/// newline; either way, no more bytes than `s`.
pub proof fn lemma_join_lines_bytes(s: Seq<char>)
    ensures
        bytes_len(join_lines(spec_lines(s))) <= bytes_len(s),
{
    if s.len() == 0 {
    } else if s.last() == '\n' {
        lemma_join_split(s.drop_last());
        assert(s.drop_last() =~= s.take(s.len() - 1));
        lemma_bytes_len_take(s, s.len() - 1);
    } else {
        lemma_join_split(s);
    }
}

/// A join written as terminated parts plus the last part.
pub proof fn lemma_join_as_cat(ls: Seq<Seq<char>>)
    requires
        ls.len() >= 1,
    ensures
        join_lines(ls) == cat_term(ls.drop_last()) + ls.last(),
    decreases ls.len(),
{
    if ls.len() == 1 {
        assert(cat_term(ls.drop_last()) =~= Seq::<char>::empty());
        assert(cat_term(ls.drop_last()) + ls.last() =~= ls[0]);
    } else {
        lemma_join_as_cat(ls.drop_last());
        let dl = ls.drop_last();
        assert(cat_term(dl) =~= cat_term(dl.drop_last()) + dl.last() + seq!['\n']);
        assert(join_lines(ls) == join_lines(dl) + seq!['\n'] + ls.last());
        assert(join_lines(dl) + seq!['\n'] + ls.last() =~= (cat_term(dl.drop_last()) + dl.last()
            + seq!['\n']) + ls.last());
    }
}

/// The lines of a join of newline-free parts: the parts themselves,
/// except that an empty final part is absorbed by its separator.
pub proof fn lemma_lines_join(ls: Seq<Seq<char>>)
    requires
        all_no_nl(ls),
        ls.len() >= 1,
    ensures
        spec_lines(join_lines(ls)) == if ls.last().len() == 0 {
            ls.drop_last()
        } else {
            ls
        },
        split_all(join_lines(ls)) == ls,
{
    lemma_join_as_cat(ls);
    assert(all_no_nl(ls.drop_last()));
    assert(no_nl(ls.last()));
    lemma_lines_cat(ls.drop_last(), ls.last());
    lemma_split_cat(ls.drop_last(), ls.last());
    assert(ls.drop_last().push(ls.last()) =~= ls);
}

/// Newline count of a join of newline-free lines.
pub proof fn lemma_count_nl_join(ls: Seq<Seq<char>>)
    requires
        all_no_nl(ls),
    ensures
        count_nl(join_lines(ls)) == if ls.len() == 0 {
            0int
        } else {
            ls.len() - 1
        },
    decreases ls.len(),
{
    if ls.len() == 0 {
    } else if ls.len() == 1 {
        lemma_count_nl_no_nl(ls[0]);
    } else {
        assert(all_no_nl(ls.drop_last()));
        lemma_count_nl_join(ls.drop_last());
        lemma_count_nl_concat(join_lines(ls.drop_last()) + seq!['\n'], ls.last());
        lemma_count_nl_concat(join_lines(ls.drop_last()), seq!['\n']);
        lemma_count_nl_no_nl(ls.last());
        assert(seq!['\n'].drop_last() =~= Seq::<char>::empty());
        assert(count_nl(Seq::<char>::empty()) == 0);
        assert(seq!['\n'].last() == '\n');
        assert(count_nl(seq!['\n']) == 1);
    }
}

/// Line count in terms of newline count.
pub proof fn lemma_spec_lines_len(s: Seq<char>)
    ensures
        spec_lines(s).len() == count_nl(s) + (if s.len() > 0 && s.last() != '\n' {
            1int
        } else {
            0int
        }),
{
    if s.len() == 0 {
    } else if s.last() == '\n' {
        lemma_split_all_len(s.drop_last());
        assert(count_nl(s) == count_nl(s.drop_last()) + 1);
    } else {
        lemma_split_all_len(s);
    }
}

/// A suffix has no more lines than the whole.
pub proof fn lemma_spec_lines_skip_le(s: Seq<char>, d: int)
    requires
        0 <= d <= s.len(),
    ensures
        spec_lines(s.skip(d)).len() <= spec_lines(s).len(),
{
    lemma_spec_lines_len(s);
    lemma_spec_lines_len(s.skip(d));
    assert(s =~= s.take(d) + s.skip(d));
    lemma_count_nl_concat(s.take(d), s.skip(d));
    lemma_count_nl_nonneg(s.take(d));
    lemma_count_nl_nonneg(s.skip(d));
    if s.skip(d).len() > 0 {
        assert(s.skip(d).last() == s.last());
    }
}

// ---------------------------------------------------------------------
// Executable line splitting and joining
// ---------------------------------------------------------------------

/// The lines of a character vector.
pub fn lines_of(v: &Vec<char>) -> (r: Vec<Vec<char>>)
    ensures
        views_of(r@) == spec_lines(v@),
        all_no_nl(views_of(r@)),
{
    let mut r: Vec<Vec<char>> = Vec::new();
    let mut cur: Vec<char> = Vec::new();
    let mut i: usize = 0;
    while i < v.len()
        invariant
            0 <= i <= v.len(),
            cat_term(views_of(r@)) + cur@ == v@.take(i as int),
            all_no_nl(views_of(r@)),
            no_nl(cur@),
        decreases v.len() - i,
    {
        let c = v[i];
        proof {
            assert(v@.take(i + 1) =~= v@.take(i as int).push(v@[i as int]));
        }
        if c == '\n' {
            let ghost prev = views_of(r@);
            let ghost line = cur@;
            r.push(cur);
            cur = Vec::new();
            proof {
                assert(views_of(r@) =~= prev.push(line));
                assert(views_of(r@).drop_last() =~= prev);
                assert(cat_term(views_of(r@)) =~= cat_term(prev) + line + seq!['\n']);
                assert(cat_term(views_of(r@)) + cur@ =~= v@.take(i + 1));
            }
        } else {
            cur.push(c);
            proof {
                assert(cat_term(views_of(r@)) + cur@ =~= v@.take(i + 1));
            }
        }
        i = i + 1;
    }
    proof {
        assert(v@.take(v.len() as int) =~= v@);
    }
    if cur.len() > 0 {
        let ghost prev = views_of(r@);
        let ghost line = cur@;
        r.push(cur);
        proof {
            assert(views_of(r@) =~= prev.push(line));
            lemma_lines_cat(prev, line);
        }
    } else {
        proof {
            assert(cat_term(views_of(r@)) + cur@ =~= cat_term(views_of(r@)));
            lemma_lines_cat(views_of(r@), cur@);
        }
    }
    r
}

/// The lines `a..b` joined with newlines.
pub fn join_range(ls: &Vec<Vec<char>>, a: usize, b: usize) -> (r: Vec<char>)
    requires
        a <= b <= ls.len(),
    ensures
        r@ == join_lines(views_of(ls@).subrange(a as int, b as int)),
{
    let mut r: Vec<char> = Vec::new();
    let mut j: usize = a;
    while j < b
        invariant
            a <= j <= b <= ls.len(),
            r@ == join_lines(views_of(ls@).subrange(a as int, j as int)),
        decreases b - j,
    {
        let ghost vs = views_of(ls@);
        if j > a {
            r.push('\n');
        }
        push_all(&mut r, &ls[j]);
        proof {
            if j == a {
                assert(vs.subrange(a as int, a + 1).len() == 1);
                assert(join_lines(vs.subrange(a as int, a + 1)) == vs.subrange(a as int, a + 1)[0]);
                assert(r@ =~= join_lines(vs.subrange(a as int, j + 1)));
            } else {
                assert(vs.subrange(a as int, j + 1).drop_last() =~= vs.subrange(a as int, j as int));
                assert(vs.subrange(a as int, j + 1).last() == vs[j as int]);
                assert(r@ =~= join_lines(vs.subrange(a as int, j + 1)));
            }
        }
        j = j + 1;
    }
    proof {
        if a == b {
            assert(views_of(ls@).subrange(a as int, b as int).len() == 0);
        }
    }
    r
}

// ---------------------------------------------------------------------
// Byte-boundary cuts
// ---------------------------------------------------------------------

/// The least number of leading characters whose encoding reaches
/// `excess` bytes: where a byte cut would land inside a character, the
/// whole character is counted.
pub open spec fn cut_chars(s: Seq<char>, excess: int) -> int
    decreases s.len(),
{
    if excess <= 0 || s.len() == 0 {
        0
    } else {
        1 + cut_chars(s.drop_first(), excess - char_size(s[0]))
    }
}

pub proof fn lemma_cut_chars_bounds(s: Seq<char>, excess: int)
    ensures
        0 <= cut_chars(s, excess) <= s.len(),
        cut_chars(s, excess) <= if excess >= 0 {
            excess
        } else {
            0int
        },
    decreases s.len(),
{
    if !(excess <= 0 || s.len() == 0) {
        lemma_cut_chars_bounds(s.drop_first(), excess - char_size(s[0]));
    }
}

/// The cut point for removing `excess` bytes from the front.
pub fn cut_chars_exec(v: &Vec<char>, excess: usize) -> (d: usize)
    ensures
        d == cut_chars(v@, excess as int),
{
    let mut d: usize = 0;
    let mut rest: usize = excess;
    proof {
        assert(v@.skip(0) =~= v@);
    }
    while d < v.len() && rest > 0
        invariant
            0 <= d <= v.len(),
            rest <= excess,
            cut_chars(v@, excess as int) == d + cut_chars(v@.skip(d as int), rest as int),
        decreases v.len() - d,
    {
        let ghost d0 = d as int;
        let ghost r0 = rest as int;
        let sz = char_size_exec(v[d]);
        proof {
            assert(v@.skip(d0).len() > 0);
            assert(v@.skip(d0)[0] == v@[d0]);
            assert(v@.skip(d0).drop_first() =~= v@.skip(d0 + 1));
            assert(cut_chars(v@.skip(d0), r0) == 1 + cut_chars(v@.skip(d0 + 1), r0 - char_size(
                v@[d0],
            )));
        }
        if sz >= rest {
            rest = 0;
        } else {
            rest = rest - sz;
        }
        d = d + 1;
        proof {
            if r0 - char_size(v@[d0]) <= 0 {
                assert(cut_chars(v@.skip(d as int), r0 - char_size(v@[d0])) == 0);
                assert(cut_chars(v@.skip(d as int), rest as int) == 0);
            } else {
                assert(rest as int == r0 - char_size(v@[d0]));
            }
        }
    }
    proof {
        if d == v.len() {
            assert(v@.skip(d as int).len() == 0);
        }
    }
    d
}

// ---------------------------------------------------------------------
// Substring occurrences and replacement
// ---------------------------------------------------------------------

/// Start positions of the non-overlapping occurrences of `pat` in
/// `doc` at or after `i`, scanning left to right and advancing past
/// each match.
pub open spec fn occ_from(doc: Seq<char>, pat: Seq<char>, i: int) -> Seq<int>
    decreases doc.len() - i,
    when 0 <= i && pat.len() > 0
{
    if i + pat.len() > doc.len() {
        Seq::<int>::empty()
    } else if doc.subrange(i, i + pat.len()) == pat {
        seq![i] + occ_from(doc, pat, i + pat.len())
    } else {
        occ_from(doc, pat, i + 1)
    }
}

/// Start positions of the non-overlapping occurrences of `pat` in
/// `doc`.  An empty pattern matches at every position, the ends
/// included, as `str::match_indices` counts it.
pub open spec fn occurrences(doc: Seq<char>, pat: Seq<char>) -> Seq<int> {
    if pat.len() == 0 {
        Seq::<int>::new(doc.len() + 1, |i: int| i)
    } else {
        occ_from(doc, pat, 0)
    }
}

/// `doc` with the `plen` characters at `i` replaced by `new_text`.
pub open spec fn replace_at(doc: Seq<char>, i: int, plen: int, new_text: Seq<char>) -> Seq<char> {
    doc.take(i) + new_text + doc.skip(i + plen)
}

/// `doc` with the first occurrence of `pat` (if any) replaced by
/// `new_text`, as `str::replacen` with count one does.
pub open spec fn replace_first(doc: Seq<char>, pat: Seq<char>, new_text: Seq<char>) -> Seq<char> {
    if occurrences(doc, pat).len() > 0 {
        replace_at(doc, occurrences(doc, pat)[0], pat.len() as int, new_text)
    } else {
        doc
    }
}

/// Whether `pat` matches `doc` at position `i`.
pub(crate) fn seq_match_at(doc: &Vec<char>, pat: &Vec<char>, i: usize) -> (r: bool)
    requires
        i + pat.len() <= doc.len(),
    ensures
        r == (doc@.subrange(i as int, i + pat@.len()) == pat@),
{
    let mut j: usize = 0;
    while j < pat.len()
        invariant
            0 <= j <= pat.len(),
            i + pat.len() <= doc.len(),
            forall|x: int| 0 <= x < j ==> doc@[i + x] == pat@[x],
        decreases pat.len() - j,
    {
        if doc[i + j] != pat[j] {
            proof {
                assert(doc@.subrange(i as int, i + pat@.len())[j as int] != pat@[j as int]);
            }
            return false;
        }
        j = j + 1;
    }
    proof {
        assert(doc@.subrange(i as int, i + pat@.len()) =~= pat@);
    }
    true
}

/// The number of non-overlapping occurrences of `pat` in `doc`, and
/// the position of the first.
pub fn scan_occurrences(doc: &Vec<char>, pat: &Vec<char>) -> (r: (usize, usize))
    requires
        pat.len() > 0,
    ensures
        r.0 == occurrences(doc@, pat@).len(),
        r.0 > 0 ==> r.1 == occurrences(doc@, pat@)[0] && r.1 + pat@.len() <= doc@.len(),
{
    let ghost occ = occurrences(doc@, pat@);
    let mut count: usize = 0;
    let mut first: usize = 0;
    let mut i: usize = 0;
    if pat.len() > doc.len() {
        return (0, 0);
    }
    let mut found: Ghost<Seq<int>> = Ghost(Seq::<int>::empty());
    proof {
        assert(occ =~= found@ + occ_from(doc@, pat@, 0));
    }
    while i <= doc.len() - pat.len()
        invariant
            pat.len() > 0,
            pat.len() <= doc.len(),
            0 <= i <= doc.len(),
            count <= i,
            occ == occurrences(doc@, pat@),
            occ == found@ + occ_from(doc@, pat@, i as int),
            count == found@.len(),
            count > 0 ==> first == found@[0] && first + pat@.len() <= doc@.len(),
        decreases doc.len() - i,
    {
        if seq_match_at(doc, pat, i) {
            proof {
                assert(occ_from(doc@, pat@, i as int) == seq![i as int] + occ_from(
                    doc@,
                    pat@,
                    i + pat@.len(),
                ));
                found@ = found@ + seq![i as int];
                assert(found@ + occ_from(doc@, pat@, i + pat@.len()) =~= occ);
            }
            if count == 0 {
                first = i;
            }
            count = count + 1;
            i = i + pat.len();
        } else {
            proof {
                assert(occ_from(doc@, pat@, i as int) == occ_from(doc@, pat@, i + 1));
            }
            i = i + 1;
        }
    }
    proof {
        assert(i + pat@.len() > doc@.len());
        assert(occ_from(doc@, pat@, i as int) =~= Seq::<int>::empty());
        assert(occ =~= found@);
    }
    (count, first)
}

/// Whether two character vectors hold the same characters.
pub fn eq_chars(a: &Vec<char>, b: &Vec<char>) -> (r: bool)
    ensures
        r == (a@ == b@),
{
    if a.len() != b.len() {
        return false;
    }
    let mut j: usize = 0;
    while j < a.len()
        invariant
            0 <= j <= a.len(),
            a@.len() == b@.len(),
            forall|x: int| 0 <= x < j ==> a@[x] == b@[x],
        decreases a.len() - j,
    {
        if a[j] != b[j] {
            return false;
        }
        j = j + 1;
    }
    proof {
        assert(a@ =~= b@);
    }
    true
}

/// `doc` with the `plen` characters at `i` replaced by `new_text`.
pub fn replace_at_exec(doc: &Vec<char>, i: usize, plen: usize, new_text: &Vec<char>) -> (r: Vec<
    char,
>)
    requires
        i + plen <= doc.len(),
    ensures
        r@ == replace_at(doc@, i as int, plen as int, new_text@),
{
    let mut r = sub_chars(doc, 0, i);
    proof {
        assert(doc@.subrange(0, i as int) =~= doc@.take(i as int));
    }
    push_all(&mut r, new_text);
    let rest = sub_chars(doc, i + plen, doc.len());
    push_all(&mut r, &rest);
    proof {
        assert(doc@.subrange(i + plen, doc@.len() as int) =~= doc@.skip(i + plen));
    }
    r
}

/// Whether `s` begins with `pre`.
pub open spec fn starts_with(s: Seq<char>, pre: Seq<char>) -> bool {
    pre.len() <= s.len() && s.take(pre.len() as int) == pre
}

/// Whether `s` ends with `suf`.
pub open spec fn ends_with(s: Seq<char>, suf: Seq<char>) -> bool {
    suf.len() <= s.len() && s.skip(s.len() - suf.len()) == suf
}

/// Whether `sub` occurs somewhere in `s`.
pub open spec fn contains_seq(s: Seq<char>, sub: Seq<char>) -> bool {
    occurrences(s, sub).len() > 0
}

/// Whether `s` begins with `pre`.
pub fn starts_with_exec(s: &Vec<char>, pre: &Vec<char>) -> (r: bool)
    ensures
        r == starts_with(s@, pre@),
{
    if pre.len() > s.len() {
        return false;
    }
    let head = sub_chars(s, 0, pre.len());
    proof {
        assert(s@.subrange(0, pre@.len() as int) =~= s@.take(pre@.len() as int));
    }
    eq_chars(&head, pre)
}

/// Whether `s` ends with `suf`.
pub fn ends_with_exec(s: &Vec<char>, suf: &Vec<char>) -> (r: bool)
    ensures
        r == ends_with(s@, suf@),
{
    if suf.len() > s.len() {
        return false;
    }
    let tail_part = sub_chars(s, s.len() - suf.len(), s.len());
    proof {
        assert(s@.subrange(s@.len() - suf@.len(), s@.len() as int) =~= s@.skip(
            s@.len() - suf@.len(),
        ));
    }
    eq_chars(&tail_part, suf)
}

/// Whether `sub` occurs somewhere in `s`.
pub fn contains_exec(s: &Vec<char>, sub: &Vec<char>) -> (r: bool)
    ensures
        r == contains_seq(s@, sub@),
{
    if sub.len() == 0 {
        return true;
    }
    let (count, _first) = scan_occurrences(s, sub);
    count > 0
}

// ---------------------------------------------------------------------
// Lexicographic order
// ---------------------------------------------------------------------

/// Strict lexicographic order on character sequences by code point,
/// which is also the byte-wise order of their UTF-8 encodings.
pub open spec fn lex_lt(a: Seq<char>, b: Seq<char>) -> bool
    decreases a.len(),
{
    if b.len() == 0 {
        false
    } else if a.len() == 0 {
        true
    } else if a[0] != b[0] {
        (a[0] as u32) < (b[0] as u32)
    } else {
        lex_lt(a.drop_first(), b.drop_first())
    }
}

/// Lexicographic order, equality allowed.
pub open spec fn lex_le(a: Seq<char>, b: Seq<char>) -> bool {
    lex_lt(a, b) || a == b
}

/// The views of a vector of strings.
pub open spec fn str_views(ss: Seq<String>) -> Seq<Seq<char>> {
    ss.map_values(|s: String| s@)
}

/// Three-way lexicographic comparison of two character vectors.
pub fn cmp_chars(a: &Vec<char>, b: &Vec<char>) -> (r: core::cmp::Ordering)
    ensures
        (r == core::cmp::Ordering::Equal) == (a@ == b@),
        (r == core::cmp::Ordering::Less) == lex_lt(a@, b@),
        (r == core::cmp::Ordering::Greater) == (!lex_lt(a@, b@) && a@ != b@),
{
    let mut i: usize = 0;
    proof {
        assert(a@.skip(0) =~= a@);
        assert(b@.skip(0) =~= b@);
    }
    while i < a.len() && i < b.len()
        invariant
            0 <= i <= a.len(),
            i <= b.len(),
            lex_lt(a@, b@) == lex_lt(a@.skip(i as int), b@.skip(i as int)),
            (a@ == b@) == (a@.len() == b@.len() && a@.skip(i as int) == b@.skip(i as int)),
        decreases a.len() - i,
    {
        proof {
            assert(a@.skip(i as int)[0] == a@[i as int]);
            assert(b@.skip(i as int)[0] == b@[i as int]);
            assert(a@.skip(i as int).drop_first() =~= a@.skip(i + 1));
            assert(b@.skip(i as int).drop_first() =~= b@.skip(i + 1));
        }
        let ca = a[i];
        let cb = b[i];
        if ca != cb {
            proof {
                assert(a@.skip(i as int) != b@.skip(i as int));
            }
            if (ca as u32) < (cb as u32) {
                return core::cmp::Ordering::Less;
            } else {
                return core::cmp::Ordering::Greater;
            }
        }
        proof {
            if a@.len() == b@.len() {
                if a@.skip(i as int) == b@.skip(i as int) {
                    assert(a@.skip(i + 1) =~= a@.skip(i as int).drop_first());
                }
                if a@.skip(i + 1) == b@.skip(i + 1) {
                    assert forall|x: int| 0 <= x < a@.skip(i as int).len() implies a@.skip(
                        i as int,
                    )[x] == b@.skip(i as int)[x] by {
                        if x == 0 {
                            assert(a@[i as int] == b@[i as int]);
                        } else {
                            assert(a@.skip(i as int)[x] == a@.skip(i + 1)[x - 1]);
                            assert(b@.skip(i as int)[x] == b@.skip(i + 1)[x - 1]);
                        }
                    }
                    assert(a@.skip(i as int) =~= b@.skip(i as int));
                }
            }
        }
        i = i + 1;
    }
    proof {
        if a@.len() == b@.len() {
            assert(a@.skip(i as int) =~= b@.skip(i as int));
        }
    }
    if a.len() == b.len() {
        core::cmp::Ordering::Equal
    } else if a.len() < b.len() {
        proof {
            assert(a@.skip(i as int).len() == 0);
            assert(b@.skip(i as int).len() > 0);
        }
        core::cmp::Ordering::Less
    } else {
        proof {
            assert(b@.skip(i as int).len() == 0);
        }
        core::cmp::Ordering::Greater
    }
}

// ---------------------------------------------------------------------
// Decimal rendering
// ---------------------------------------------------------------------

/// The digit character for a value below ten.
pub open spec fn dec_digit(d: int) -> char {
    ((48 + d) as u8) as char
}

/// The decimal spelling of a non-negative number, most significant
/// digit first.
pub open spec fn dec_rep(n: int) -> Seq<char>
    decreases n,
{
    if n < 10 {
        seq![dec_digit(n)]
    } else {
        dec_rep(n / 10).push(dec_digit(n % 10))
    }
}

/// The decimal digits of `n`.
pub fn fmt_usize(n: usize) -> (r: Vec<char>)
    ensures
        r@ == dec_rep(n as int),
{
    let mut tmp: Vec<char> = Vec::new();
    let mut m: usize = n;
    while m >= 10
        invariant
            dec_rep(n as int) == dec_rep(m as int) + tmp@.reverse(),
        decreases m,
    {
        let d = m % 10;
        let ghost t0 = tmp@;
        tmp.push((48 + d as u8) as char);
        m = m / 10;
        proof {
            assert(tmp@.reverse() =~= seq![dec_digit(d as int)] + t0.reverse());
            assert(dec_rep(m as int).push(dec_digit(d as int)) + t0.reverse() =~= dec_rep(
                m as int,
            ) + (seq![dec_digit(d as int)] + t0.reverse()));
        }
    }
    let mut r: Vec<char> = Vec::new();
    r.push((48 + m as u8) as char);
    proof {
        assert(r@ =~= seq![dec_digit(m as int)]);
        assert(dec_rep(m as int) == seq![dec_digit(m as int)]);
    }
    while tmp.len() > 0
        invariant
            dec_rep(n as int) == r@ + tmp@.reverse(),
        decreases tmp.len(),
    {
        let ghost t0 = tmp@;
        let c = tmp.pop().unwrap();
        r.push(c);
        proof {
            assert(t0.reverse() =~= seq![t0.last()] + tmp@.reverse());
            assert(r@ + tmp@.reverse() =~= dec_rep(n as int));
        }
    }
    proof {
        assert(tmp@.reverse() =~= Seq::<char>::empty());
        assert(r@ =~= dec_rep(n as int));
    }
    r
}

/// The characters of `v` from `a` (inclusive) to `b` (exclusive).
pub fn sub_chars(v: &Vec<char>, a: usize, b: usize) -> (r: Vec<char>)
    requires
        a <= b <= v.len(),
    ensures
        r@ == v@.subrange(a as int, b as int),
{
    let mut r: Vec<char> = Vec::new();
    let mut i: usize = a;
    while i < b
        invariant
            a <= i <= b <= v.len(),
            r@ == v@.subrange(a as int, i as int),
        decreases b - i,
    {
        proof {
            assert(v@.subrange(a as int, i as int).push(v@[i as int]) =~= v@.subrange(
                a as int,
                i + 1,
            ));
        }
        r.push(v[i]);
        i = i + 1;
    }
    r
}

} // verus!
