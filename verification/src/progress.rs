use vstd::prelude::*;
use vstd::string::StringExecFns;

use crate::text::{decimal_spec, decimal_string};

verus! {

/// Integer division rounding toward zero, as Rust's `/` on integers.
pub open spec fn trunc_div(a: int, b: int) -> int {
    if (a < 0) == (b < 0) {
        (if a < 0 { -a } else { a }) / (if b < 0 { -b } else { b })
    } else {
        -((if a < 0 { -a } else { a }) / (if b < 0 { -b } else { b }))
    }
}

/// Rust's `/` on `i64` (rounding toward zero), computed on magnitudes.
pub fn div_toward_zero(a: i64, b: i64) -> (r: i64)
    requires
        b != 0,
        !(a == i64::MIN && b == -1),
    ensures
        r == trunc_div(a as int, b as int),
{
    let ua: i128 = if a < 0 { -(a as i128) } else { a as i128 };
    let ub: i128 = if b < 0 { -(b as i128) } else { b as i128 };
    let q = ua / ub;
    proof {
        vstd::arithmetic::div_mod::lemma_div_is_ordered_by_denominator(ua as int, 1, ub as int);
        assert(ua / 1 == ua);
        if ua == 0x8000_0000_0000_0000 && ub == 1 {
            assert(a == i64::MIN);
        } else if ua == 0x8000_0000_0000_0000 {
            vstd::arithmetic::div_mod::lemma_div_is_ordered_by_denominator(ua as int, 2, ub as int);
        }
    }
    if (a < 0) == (b < 0) {
        q as i64
    } else {
        (-q) as i64
    }
}

/// `n` copies of `c` (none when `n` is not positive).
pub open spec fn repeat_char(c: char, n: int) -> Seq<char> {
    Seq::new(if n < 0 { 0 } else { n as nat }, |i: int| c)
}

/// Whole percent of `curr` out of `total`, rounded toward zero.
pub open spec fn percent(curr: int, total: int) -> int {
    trunc_div(curr * 100, total)
}

/// The progress bar for a percentage `p`: a carriage return, `p` bars, `100 - p`
/// spaces, the percentage and `%`, and a newline once it reaches 100.
pub open spec fn progress_bar(p: int) -> Seq<char> {
    seq!['\r'] + repeat_char('|', p) + repeat_char(' ', 100 - p) + decimal_spec(p) + seq!['%']
        + if p == 100 { seq!['\n'] } else { Seq::<char>::empty() }
}

/// `percent` of `curr` and of `curr - 1` can be computed in `i64`.
pub open spec fn progress_ready(curr: i64, total: i64) -> bool {
    &&& total != 0
    &&& i64::MIN <= (curr - 1) * 100
    &&& curr * 100 <= i64::MAX
    &&& 100 - percent(curr as int, total as int) <= i64::MAX
}

/// Appends `n` copies of the one-character `piece`.
fn append_repeat(s: &mut String, piece: &str, n: i64)
    requires
        piece@.len() == 1,
    ensures
        final(s)@ == old(s)@ + repeat_char(piece@[0], n as int),
{
    let ghost c = piece@[0];
    let mut i: i64 = 0;
    proof {
        assert(old(s)@ + repeat_char(c, 0) =~= old(s)@);
    }
    while i < n
        invariant
            0 <= i,
            i <= n || i == 0,
            piece@ == seq![c],
            s@ == old(s)@ + repeat_char(c, i as int),
        decreases n - i,
    {
        s.append(piece);
        proof {
            assert(old(s)@ + repeat_char(c, i + 1) =~= old(s)@ + repeat_char(c, i as int) + seq![c]);
        }
        i += 1;
    }
    proof {
        if n < 0 {
            assert(repeat_char(c, n as int) =~= repeat_char(c, 0));
        }
    }
}

/// The text of a progress bar at step `curr` of `total`, when the whole
/// percentage changed since step `curr - 1`; `None` otherwise.
pub fn progress_text(curr: i64, total: i64) -> (r: Option<String>)
    requires
        progress_ready(curr, total),
    ensures
        percent(curr as int, total as int) != percent(curr - 1, total as int) ==> (r matches Some(t)
            && t@ == progress_bar(percent(curr as int, total as int))),
        percent(curr as int, total as int) == percent(curr - 1, total as int) ==> r is None,
{
    let curr_percent = div_toward_zero(curr * 100, total);
    let last_percent = div_toward_zero((curr - 1) * 100, total);
    if curr_percent == last_percent {
        return None;
    }
    proof {
        reveal_strlit("\r");
        reveal_strlit("|");
        reveal_strlit(" ");
        reveal_strlit("%");
        reveal_strlit("\n");
    }
    let mut result = String::new();
    result.append("\r");
    append_repeat(&mut result, "|", curr_percent);
    append_repeat(&mut result, " ", 100 - curr_percent);
    let digits = decimal_string(curr_percent);
    result.append(digits.as_str());
    result.append("%");
    if curr_percent == 100 {
        result.append("\n");
    }
    proof {
        let p = curr_percent as int;
        assert(result@ =~= progress_bar(p));
    }
    Some(result)
}

} // verus!
