//! Stripping ANSI escape sequences and carriage returns from command
//! output.

use vstd::prelude::*;

verus! {

use crate::text::{chars_of, string_of};

/// An ASCII letter, which terminates a control sequence.
pub open spec fn is_ascii_alpha(c: char) -> bool {
    let u = c as u32;
    (0x41 <= u && u <= 0x5A) || (0x61 <= u && u <= 0x7A)
}

/// The text from position `i` on with escape sequences and carriage
/// returns removed.  Inside a `ESC [` control sequence (`in_csi`),
/// characters are consumed up to and including the first ASCII letter.
/// An escape not followed by `[` is dropped by itself.
pub open spec fn strip_from(s: Seq<char>, i: int, in_csi: bool) -> Seq<char>
    decreases s.len() - i,
    when 0 <= i
{
    if i >= s.len() {
        Seq::<char>::empty()
    } else if in_csi {
        strip_from(s, i + 1, !is_ascii_alpha(s[i]))
    } else if s[i] == '\u{1b}' && i + 1 < s.len() && s[i + 1] == '[' {
        strip_from(s, i + 2, true)
    } else if s[i] == '\u{1b}' {
        strip_from(s, i + 1, false)
    } else if s[i] == '\r' {
        strip_from(s, i + 1, false)
    } else {
        seq![s[i]] + strip_from(s, i + 1, false)
    }
}

/// The text with ANSI escape sequences and carriage returns removed.
pub open spec fn strip_ansi_spec(s: Seq<char>) -> Seq<char> {
    strip_from(s, 0, false)
}

/// Strip ANSI escape codes and carriage returns from output.
pub fn strip_ansi(input: &str) -> (r: String)
    ensures
        r@ == strip_ansi_spec(input@),
{
    let v = chars_of(input);
    let mut out: Vec<char> = Vec::new();
    let mut i: usize = 0;
    let mut in_csi = false;
    while i < v.len()
        invariant
            0 <= i <= v.len(),
            v@ == input@,
            strip_ansi_spec(input@) == out@ + strip_from(input@, i as int, in_csi),
        decreases v.len() - i,
    {
        let c = v[i];
        if in_csi {
            let u = c as u32;
            in_csi = !((0x41 <= u && u <= 0x5A) || (0x61 <= u && u <= 0x7A));
            i = i + 1;
        } else if c == '\u{1b}' {
            if i + 1 < v.len() && v[i + 1] == '[' {
                in_csi = true;
                i = i + 2;
            } else {
                i = i + 1;
            }
        } else if c == '\r' {
            i = i + 1;
        } else {
            let ghost o0 = out@;
            out.push(c);
            proof {
                assert(o0 + (seq![input@[i as int]] + strip_from(input@, i + 1, false)) =~= out@
                    + strip_from(input@, i + 1, false));
            }
            i = i + 1;
        }
    }
    proof {
        assert(strip_from(input@, i as int, in_csi) == Seq::<char>::empty());
        assert(out@ + Seq::<char>::empty() =~= out@);
    }
    string_of(&out)
}

} // verus!
