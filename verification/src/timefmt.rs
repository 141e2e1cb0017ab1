//! Human-readable rendering of a duration as `Xh Ymin Z.ZZs`.
//!
//! Durations are carried as whole centiseconds (hundredths of a second),
//! so the two decimal places of the seconds part are exact; the I/O layer
//! rounds its clock readings to centiseconds before calling in.

use vstd::prelude::*;
use crate::strutil::string_from_chars;

verus! {

/// The decimal digits of `n`, most significant first.
pub open spec fn spec_digits_str(n: nat) -> Seq<char>
    decreases n,
{
    if n < 10 {
        seq![(('0' as nat + n) as char)]
    } else {
        spec_digits_str(n / 10).push((('0' as nat + n % 10) as char))
    }
}

/// The seconds part `Z.ZZ` of a duration of `c` centiseconds: whole
/// seconds, a dot, and exactly two digits of hundredths.
pub open spec fn spec_seconds_str(c: nat) -> Seq<char> {
    spec_digits_str(c / 100) + seq!['.'] + (if c % 100 < 10 {
        seq!['0']
    } else {
        Seq::<char>::empty()
    }) + spec_digits_str(c % 100) + seq!['s']
}

/// The full rendering of `t` centiseconds: `<0.00s` for a duration that
/// is not positive, else seconds, minutes and seconds, or hours, minutes
/// and seconds, each unit shown only once it is reached.
pub open spec fn spec_convert_time(t: int) -> Seq<char>
    decreases (if t <= 0 { 0int } else { t }),
{
    if t <= 0 {
        seq!['<', '0', '.', '0', '0', 's']
    } else if t < 6000 {
        spec_seconds_str(t as nat)
    } else if t < 360000 {
        spec_digits_str((t / 6000) as nat) + seq!['m', 'i', 'n', ' '] + spec_convert_time(t % 6000)
    } else {
        spec_digits_str((t / 360000) as nat) + seq!['h', ' '] + spec_convert_time(t % 360000)
    }
}

/// Append the decimal digits of `n` to `out`.
fn push_digits(n: u64, out: &mut Vec<char>)
    ensures
        final(out)@ == old(out)@ + spec_digits_str(n as nat),
    decreases n,
{
    if n < 10 {
        out.push(((n as u8) + 48) as char);
        proof {
            assert(out@ =~= old(out)@ + spec_digits_str(n as nat));
        }
    } else {
        push_digits(n / 10, out);
        out.push((((n % 10) as u8) + 48) as char);
        proof {
            assert(out@ =~= old(out)@ + spec_digits_str(n as nat));
        }
    }
}

/// Append the seconds part of `c` centiseconds to `out`.
fn push_seconds(c: u64, out: &mut Vec<char>)
    ensures
        final(out)@ == old(out)@ + spec_seconds_str(c as nat),
{
    push_digits(c / 100, out);
    out.push('.');
    if c % 100 < 10 {
        out.push('0');
    }
    push_digits(c % 100, out);
    out.push('s');
    proof {
        assert(out@ =~= old(out)@ + spec_seconds_str(c as nat));
    }
}

/// Append the full rendering of `t` centiseconds to `out`.
fn push_time(t: i64, out: &mut Vec<char>)
    ensures
        final(out)@ == old(out)@ + spec_convert_time(t as int),
    decreases (if t <= 0 { 0int } else { t as int }),
{
    if t <= 0 {
        out.push('<');
        out.push('0');
        out.push('.');
        out.push('0');
        out.push('0');
        out.push('s');
        proof {
            assert(out@ =~= old(out)@ + spec_convert_time(t as int));
        }
    } else if t < 6000 {
        push_seconds(t as u64, out);
    } else if t < 360000 {
        push_digits((t / 6000) as u64, out);
        out.push('m');
        out.push('i');
        out.push('n');
        out.push(' ');
        let ghost mid = out@;
        proof {
            assert(mid =~= old(out)@ + spec_digits_str((t / 6000) as nat) + seq![
                'm',
                'i',
                'n',
                ' ',
            ]);
        }
        push_time(t % 6000, out);
        proof {
            assert(out@ =~= old(out)@ + spec_convert_time(t as int));
        }
    } else {
        push_digits((t / 360000) as u64, out);
        out.push('h');
        out.push(' ');
        let ghost mid = out@;
        proof {
            assert(mid =~= old(out)@ + spec_digits_str((t / 360000) as nat) + seq!['h', ' ']);
        }
        push_time(t % 360000, out);
        proof {
            assert(out@ =~= old(out)@ + spec_convert_time(t as int));
        }
    }
}

/// Render a duration of `t` centiseconds in the `Xh Ymin Z.ZZs` shape;
/// durations that are not positive render as `<0.00s`.
pub fn convert_time(t: i64) -> (r: String)
    ensures
        r@ == spec_convert_time(t as int),
{
    let mut out: Vec<char> = Vec::new();
    push_time(t, &mut out);
    string_from_chars(&out)
}

} // verus!
