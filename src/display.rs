use vstd::arithmetic::div_mod::{lemma_div_denominator, lemma_fundamental_div_mod};
use vstd::prelude::*;
use vstd::string::*;

verus! {

/// Why a duration could not be written out.
#[derive(Debug, Clone, Copy, PartialEq, Eq, Structural)]
pub enum FormatError {
    /// The duration was negative.
    Negative,
}

/// The character of a decimal digit.
pub open spec fn digit_char(d: int) -> char {
    seq!['0', '1', '2', '3', '4', '5', '6', '7', '8', '9'][d]
}

/// A natural number in plain decimal notation, without leading zeros.
pub open spec fn decimal(n: nat) -> Seq<char>
    decreases n,
{
    if n < 10 {
        seq![digit_char(n as int)]
    } else {
        decimal(n / 10).push(digit_char((n % 10) as int))
    }
}

/// Whole hours, the minutes left over, and the seconds left over, in `ms`.
pub open spec fn readable_parts(ms: int) -> (int, int, int) {
    (ms / 1000 / 3600, (ms / 1000 / 60) % 60, (ms / 1000) % 60)
}

/// The text `"{h}h {min}min {s}s"` for a non-negative duration in milliseconds.
pub open spec fn readable_text(ms: nat) -> Seq<char> {
    let (h, min, s) = readable_parts(ms as int);
    decimal(h as nat) + "h "@ + decimal(min as nat) + "min "@ + decimal(s as nat) + "s"@
}

/// The one-character text of a decimal digit.
fn digit_string(d: u64) -> (r: String)
    requires
        d < 10,
    ensures
        r@ == seq![digit_char(d as int)],
{
    proof {
        reveal_strlit("0");
        reveal_strlit("1");
        reveal_strlit("2");
        reveal_strlit("3");
        reveal_strlit("4");
        reveal_strlit("5");
        reveal_strlit("6");
        reveal_strlit("7");
        reveal_strlit("8");
        reveal_strlit("9");
    }
    let r = if d == 0 {
        String::from_str("0")
    } else if d == 1 {
        String::from_str("1")
    } else if d == 2 {
        String::from_str("2")
    } else if d == 3 {
        String::from_str("3")
    } else if d == 4 {
        String::from_str("4")
    } else if d == 5 {
        String::from_str("5")
    } else if d == 6 {
        String::from_str("6")
    } else if d == 7 {
        String::from_str("7")
    } else if d == 8 {
        String::from_str("8")
    } else {
        String::from_str("9")
    };
    assert(r@ =~= seq![digit_char(d as int)]);
    r
}

/// A number in plain decimal digits.
fn decimal_string(n: u64) -> (r: String)
    ensures
        r@ == decimal(n as nat),
    decreases n,
{
    let last = digit_string(n % 10);
    if n < 10 {
        last
    } else {
        let mut out = decimal_string(n / 10);
        out.append(last.as_str());
        assert(out@ =~= decimal((n / 10) as nat).push(digit_char((n % 10) as int)));
        out
    }
}

/// Writes a duration in milliseconds as `"{h}h {min}min {s}s"`, with whole
/// hours, the minutes and the seconds left over; a negative duration is refused.
pub fn millis_to_readable(ms: i64) -> (r: Result<String, FormatError>)
    ensures
        ms < 0 <==> r is Err,
        r is Ok ==> r->Ok_0@ == readable_text(ms as nat),
{
    if ms < 0 {
        return Err(FormatError::Negative);
    }
    let secs: u64 = (ms as u64) / 1000;
    let h: u64 = secs / 3600;
    let min: u64 = (secs / 60) % 60;
    let s: u64 = secs % 60;
    let mut out = decimal_string(h);
    out.append("h ");
    let m_text = decimal_string(min);
    out.append(m_text.as_str());
    out.append("min ");
    let s_text = decimal_string(s);
    out.append(s_text.as_str());
    out.append("s");
    Ok(out)
}

/// The hours, minutes and seconds that `millis_to_readable` writes for a
/// non-negative `ms` account for all of `ms` but less than one second:
/// `3600000*h + 60000*min + 1000*s <= ms < 3600000*h + 60000*min + 1000*s + 1000`.
pub proof fn lemma_readable_decomposition(ms: int)
    requires
        ms >= 0,
    ensures
        ({
            let (h, min, s) = readable_parts(ms);
            &&& 0 <= min < 60
            &&& 0 <= s < 60
            &&& 0 <= h
            &&& 3600000 * h + 60000 * min + 1000 * s <= ms
            &&& ms < 3600000 * h + 60000 * min + 1000 * s + 1000
        }),
{
    let t = ms / 1000;
    let m = t / 60;
    lemma_fundamental_div_mod(ms, 1000);
    lemma_fundamental_div_mod(t, 60);
    lemma_fundamental_div_mod(m, 60);
    lemma_div_denominator(t, 60, 60);
    let (h, min, s) = readable_parts(ms);
    assert(h == m / 60);
    assert(t == 3600 * h + 60 * min + s) by (nonlinear_arith)
        requires
            t == 60 * m + s,
            m == 60 * h + min,
    ;
}

} // verus!
