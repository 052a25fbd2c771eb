use vstd::prelude::*;

use crate::tokens::spec_ascii_control;
use vstd::string::StrSliceExecFns;
use vstd::string::StringExecFns;

verus! {

/// The characters a path segment may not contain; each is rewritten to an
/// underscore. The tag separator class is a strict superset of this set.
pub open spec fn spec_path_bad(c: char) -> bool {
    c == '/' || c == '<' || c == '>' || c == ':' || c == '"' || c == '\\' || c == '|' || c == '?'
        || c == '*' || spec_ascii_control(c)
}

/// One sanitized character.
pub open spec fn spec_path_char(c: char) -> char {
    if spec_path_bad(c) {
        '_'
    } else {
        c
    }
}

/// A string with its trailing spaces and dots removed.
pub open spec fn spec_rtrim(s: Seq<char>) -> Seq<char>
    decreases s.len(),
{
    if s.len() > 0 && (s.last() == ' ' || s.last() == '.') {
        spec_rtrim(s.drop_last())
    } else {
        s
    }
}

/// What sanitizing a path segment yields: every forbidden character
/// becomes an underscore, then trailing spaces and dots are dropped.
pub open spec fn spec_filter_path(s: Seq<char>) -> Seq<char> {
    spec_rtrim(s.map_values(|c: char| spec_path_char(c)))
}

/// Sanitizes one path segment for use as a file name.
#[verifier::loop_isolation(false)]
pub fn filter_path(source: &str) -> (r: String)
    ensures
        r@ == spec_filter_path(source@),
{
    let n = source.unicode_len();
    let ghost mapped = source@.map_values(|c: char| spec_path_char(c));
    let mut dest = String::new();
    let mut i: usize = 0;
    proof {
        assert(dest@ =~= mapped.take(0));
    }
    while i < n
        invariant
            n == source@.len(),
            i <= n,
            mapped == source@.map_values(|c: char| spec_path_char(c)),
            dest@ == mapped.take(i as int),
        decreases n - i,
    {
        let c = source.get_char(i);
        let u = c as u32;
        let keep: bool = !(c == '/' || c == '<' || c == '>' || c == ':' || c == '"' || c == '\\'
            || c == '|' || c == '?' || c == '*' || u <= 0x1F || u == 0x7F);
        if keep {
            dest.push(c);
        } else {
            dest.push('_');
        }
        proof {
            assert(mapped.take(i as int + 1) =~= mapped.take(i as int).push(
                spec_path_char(source@[i as int]),
            ));
        }
        i += 1;
    }
    proof {
        assert(mapped.take(n as int) =~= mapped);
    }
    let mut t: usize = n;
    while t > 0
        invariant
            t <= n,
            n == mapped.len(),
            dest@ == mapped,
            spec_rtrim(mapped) == spec_rtrim(mapped.take(t as int)),
        decreases t,
    {
        let c = dest.as_str().get_char(t - 1);
        if c == ' ' || c == '.' {
            proof {
                assert(mapped.take(t as int).last() == mapped[t - 1]);
                assert(mapped.take(t as int).drop_last() =~= mapped.take(t - 1));
            }
            t -= 1;
        } else {
            break ;
        }
    }
    proof {
        if t > 0 {
            assert(mapped.take(t as int).last() == mapped[t - 1]);
            assert(spec_rtrim(mapped.take(t as int)) == mapped.take(t as int));
        } else {
            assert(mapped.take(0) =~= Seq::<char>::empty());
        }
    }
    let out = String::from_str(dest.as_str().substring_char(0, t));
    proof {
        assert(out@ =~= mapped.take(t as int));
    }
    out
}

/// The decimal digit character for a value below ten.
pub open spec fn spec_digit_char(d: int) -> char {
    ((48 + d) as u32) as char
}

/// The decimal rendering of a number, most significant digit first.
pub open spec fn spec_dec(x: int) -> Seq<char>
    decreases x,
{
    if x < 10 {
        seq![spec_digit_char(if x >= 0 {
            x
        } else {
            0
        })]
    } else {
        spec_dec(x / 10).push(spec_digit_char(x % 10))
    }
}

/// Appends the decimal rendering of `x`.
fn push_u32_dec(out: &mut String, x: u32)
    ensures
        final(out)@ == old(out)@ + spec_dec(x as int),
    decreases x,
{
    if x >= 10 {
        push_u32_dec(out, x / 10);
    }
    let d = x % 10;
    let c = match char::from_u32(48 + d) {
        Some(c) => c,
        None => ' ',  // unreachable: 48 + d is always a valid scalar
    };
    out.push(c);
    proof {
        if x < 10 {
            assert(old(out)@ + spec_dec(x as int) =~= old(out)@.push(c));
        }
    }
}

/// What formatting a runtime yields: whole hours, then the minutes padded
/// to two digits.
pub open spec fn spec_format_runtime(runtime: int) -> Seq<char> {
    let h = runtime / 60;
    let m = runtime % 60;
    spec_dec(h) + seq!['h', ' '] + (if m < 10 {
        seq!['0']
    } else {
        Seq::empty()
    }) + spec_dec(m) + seq!['m']
}

/// Renders a runtime in minutes as hours and minutes.
pub fn format_runtime(runtime: i32) -> (r: String)
    requires
        runtime >= 0,
    ensures
        r@ == spec_format_runtime(runtime as int),
{
    let h = (runtime / 60) as u32;
    let m = (runtime % 60) as u32;
    let mut out = String::new();
    proof {
        assert(out@ =~= Seq::<char>::empty());
    }
    push_u32_dec(&mut out, h);
    out.push('h');
    out.push(' ');
    if m < 10 {
        out.push('0');
    }
    push_u32_dec(&mut out, m);
    out.push('m');
    proof {
        assert(out@ =~= spec_format_runtime(runtime as int));
    }
    out
}

} // verus!
