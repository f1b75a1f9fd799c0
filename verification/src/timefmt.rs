//! Rendering playback positions for display: whole minutes and seconds,
//! each zero-padded to two digits, joined by a colon.

use vstd::prelude::*;

use vstd::string::StringExecFns;

verus! {

/// The character of one decimal digit.
pub open spec fn spec_digit_char(d: nat) -> char {
    if d == 0 {
        '0'
    } else if d == 1 {
        '1'
    } else if d == 2 {
        '2'
    } else if d == 3 {
        '3'
    } else if d == 4 {
        '4'
    } else if d == 5 {
        '5'
    } else if d == 6 {
        '6'
    } else if d == 7 {
        '7'
    } else if d == 8 {
        '8'
    } else {
        '9'
    }
}

/// The decimal digits of `n`, most significant first, with no leading zeros
/// (a single zero for zero).
pub open spec fn spec_digits(n: nat) -> Seq<char>
    decreases n,
{
    if n < 10 {
        seq![spec_digit_char(n)]
    } else {
        spec_digits(n / 10).push(spec_digit_char(n % 10))
    }
}

/// Digits padded with one leading zero to at least two places.
pub open spec fn spec_pad2(s: Seq<char>) -> Seq<char> {
    if s.len() >= 2 {
        s
    } else {
        seq!['0'] + s
    }
}

/// A playback position in microseconds, rendered as zero-padded whole
/// minutes and seconds joined by a colon.
pub open spec fn spec_format_duration(micros: nat) -> Seq<char> {
    let total_secs = micros / 1_000_000;
    spec_pad2(spec_digits(total_secs / 60)) + seq![':'] + spec_pad2(spec_digits(total_secs % 60))
}

/// One decimal digit as a string slice.
fn digit_str(d: u64) -> (r: &'static str)
    requires
        d < 10,
    ensures
        r@ == seq![spec_digit_char(d as nat)],
{
    proof {
        reveal_strlit("0");
        reveal_strlit("1");
        reveal_strlit("2");
        reveal_strlit("3");
        reveal_strlit("4");
        reveal_strlit("5");
        reveal_strlit("6");
        reveal_strlit("7");
        reveal_strlit("8");
        reveal_strlit("9");
    }
    let r = if d == 0 {
        "0"
    } else if d == 1 {
        "1"
    } else if d == 2 {
        "2"
    } else if d == 3 {
        "3"
    } else if d == 4 {
        "4"
    } else if d == 5 {
        "5"
    } else if d == 6 {
        "6"
    } else if d == 7 {
        "7"
    } else if d == 8 {
        "8"
    } else {
        "9"
    };
    proof {
        assert(r@ =~= seq![spec_digit_char(d as nat)]);
    }
    r
}

/// Append the decimal digits of `n`.
fn append_digits(s: &mut String, n: u64)
    ensures
        final(s)@ == old(s)@ + spec_digits(n as nat),
    decreases n,
{
    if n >= 10 {
        append_digits(s, n / 10);
        s.append(digit_str(n % 10));
        proof {
            assert(old(s)@ + spec_digits((n / 10) as nat) + seq![spec_digit_char((n % 10) as nat)]
                =~= old(s)@ + spec_digits(n as nat));
        }
    } else {
        s.append(digit_str(n));
        proof {
            assert(old(s)@ + seq![spec_digit_char(n as nat)] =~= old(s)@ + spec_digits(n as nat));
        }
    }
}

proof fn lemma_digits_len(n: nat)
    ensures
        spec_digits(n).len() >= 1,
        n < 10 <==> spec_digits(n).len() == 1,
    decreases n,
{
    if n >= 10 {
        lemma_digits_len(n / 10);
    }
}

/// Append digits zero-padded to at least two places.
fn append_pad2(s: &mut String, n: u64)
    ensures
        final(s)@ == old(s)@ + spec_pad2(spec_digits(n as nat)),
{
    proof {
        lemma_digits_len(n as nat);
        reveal_strlit("0");
    }
    if n < 10 {
        s.append("0");
        append_digits(s, n);
        proof {
            assert(old(s)@ + "0"@ + spec_digits(n as nat) =~= old(s)@ + spec_pad2(
                spec_digits(n as nat),
            ));
        }
    } else {
        append_digits(s, n);
    }
}

/// Render a playback position, given in microseconds, as `minutes:seconds`,
/// each zero-padded to two digits.
pub fn format_duration(micros: u64) -> (r: String)
    ensures
        r@ == spec_format_duration(micros as nat),
{
    let total_secs = micros / 1_000_000;
    let minutes = total_secs / 60;
    let seconds = total_secs % 60;
    let mut r = String::new();
    append_pad2(&mut r, minutes);
    proof {
        reveal_strlit(":");
    }
    r.append(":");
    append_pad2(&mut r, seconds);
    proof {
        assert(Seq::<char>::empty() + spec_pad2(spec_digits(minutes as nat)) + ":"@ + spec_pad2(
            spec_digits(seconds as nat),
        ) =~= spec_format_duration(micros as nat));
    }
    r
}

} // verus!
