//! Numbers and durations as text.

use vstd::prelude::*;
use vstd::string::{StrSliceExecFns, StringExecFns};

verus! {

/// `String::push` appends the given character to the end of the string.
pub assume_specification[ String::push ](s: &mut String, c: char)
    ensures
        final(s)@ == old(s)@.push(c),
;

/// The character for a digit below 10.
pub open spec fn digit_char(digit: nat) -> char {
    ((48 + digit) as u8) as char
}

/// `n` in decimal, without leading zeros.
pub open spec fn decimal(n: nat) -> Seq<char>
    decreases n,
{
    if n < 10 {
        seq![digit_char(n)]
    } else {
        decimal(n / 10).push(digit_char(n % 10))
    }
}

/// `n` in decimal, with zeros in front where that has fewer than `width`
/// digits.
pub open spec fn padded(n: nat, width: nat) -> Seq<char> {
    let digits = decimal(n);
    if digits.len() >= width {
        digits
    } else {
        Seq::new((width - digits.len()) as nat, |i: int| '0') + digits
    }
}

/// `digits` with a comma before every group of three, counted from the
/// right.
pub open spec fn with_commas(digits: Seq<char>) -> Seq<char>
    decreases digits.len(),
{
    if digits.len() <= 3 {
        digits
    } else {
        with_commas(digits.take(digits.len() - 3)).push(',') + digits.skip(digits.len() - 3)
    }
}

/// `n` in decimal with thousands separators, as in `1,234,567`.
pub open spec fn number_text(n: nat) -> Seq<char> {
    with_commas(decimal(n))
}

/// A duration of `secs` seconds and `millis` milliseconds: by the hour from
/// an hour on, by the minute from a minute on, in seconds below that.
pub open spec fn elapsed_text(secs: u64, millis: u32) -> Seq<char> {
    if secs >= 3600 {
        decimal((secs / 3600) as nat).push(':') + padded(((secs % 3600) / 60) as nat, 2).push(':')
            + padded((secs % 60) as nat, 2).push('.') + padded(millis as nat, 3)
            + " (h:mm:ss.mmm)"@
    } else if secs >= 60 {
        decimal((secs / 60) as nat).push(':') + padded((secs % 60) as nat, 2).push('.') + padded(
            millis as nat,
            3,
        ) + " (m:ss.mmm)"@
    } else {
        decimal(secs as nat).push('.') + padded(millis as nat, 3) + " seconds"@
    }
}

proof fn lemma_decimal_len(n: nat)
    ensures
        decimal(n).len() >= 1,
        n < 10 ==> decimal(n).len() == 1,
        10 <= n < 100 ==> decimal(n).len() == 2,
        100 <= n < 1000 ==> decimal(n).len() == 3,
        n >= 1000 ==> decimal(n).len() > 3,
    decreases n,
{
    if n >= 10 {
        lemma_decimal_len(n / 10);
    }
}

proof fn lemma_decimal_thousands(n: nat)
    requires
        n >= 1000,
    ensures
        decimal(n) == decimal(n / 1000) + padded(n % 1000, 3),
        padded(n % 1000, 3).len() == 3,
{
    let low = n % 1000;
    let d0 = digit_char(n % 10);
    let d1 = digit_char((n / 10) % 10);
    let d2 = digit_char((n / 100) % 10);
    assert(decimal(n) == decimal(n / 10).push(d0));
    assert(decimal(n / 10) == decimal(n / 10 / 10).push(d1));
    assert(decimal(n / 100) == decimal(n / 100 / 10).push(d2));
    assert(n / 10 / 10 == n / 100 && n / 100 / 10 == n / 1000);
    assert(decimal(n) =~= decimal(n / 1000) + seq![d2, d1, d0]);
    lemma_decimal_len(low);
    assert(low % 10 == n % 10 && (low / 10) % 10 == (n / 10) % 10 && low / 100 == (n / 100) % 10);
    if low < 10 {
        assert(padded(low, 3) =~= seq![d2, d1, d0]);
    } else if low < 100 {
        assert(decimal(low) == decimal(low / 10).push(d0));
        assert(padded(low, 3) =~= seq![d2, d1, d0]);
    } else {
        assert(decimal(low) == decimal(low / 10).push(d0));
        assert(decimal(low / 10) == decimal(low / 10 / 10).push(d1));
        assert(low / 10 / 10 == low / 100);
        assert(padded(low, 3) =~= seq![d2, d1, d0]);
    }
}

fn digit(value: u64) -> (c: char)
    requires
        value < 10,
    ensures
        c == digit_char(value as nat),
{
    (48 + value as u8) as char
}

/// Appends `n` in decimal.
pub fn push_decimal(out: &mut String, n: u64)
    ensures
        final(out)@ == old(out)@ + decimal(n as nat),
    decreases n,
{
    if n >= 10 {
        push_decimal(out, n / 10);
    }
    out.push(digit(n % 10));
    assert(out@ =~= old(out)@ + decimal(n as nat));
}

/// `n` in decimal.
pub fn to_decimal(n: u64) -> (text: String)
    ensures
        text@ == decimal(n as nat),
{
    let mut text = String::new();
    push_decimal(&mut text, n);
    assert(text@ =~= decimal(n as nat));
    text
}

/// Appends `n` in decimal, filled up with zeros in front to `width` digits.
pub fn push_padded(out: &mut String, n: u64, width: usize)
    ensures
        final(out)@ == old(out)@ + padded(n as nat, width as nat),
{
    let digits = to_decimal(n);
    let have = digits.as_str().unicode_len();
    let mut filled: usize = have;
    while filled < width
        invariant
            have == digits@.len(),
            have <= filled,
            have < width ==> filled <= width,
            have >= width ==> filled == have,
            out@ == old(out)@ + Seq::new((filled - have) as nat, |i: int| '0'),
        decreases width - filled,
    {
        out.push('0');
        filled += 1;
        assert(out@ =~= old(out)@ + Seq::new((filled - have) as nat, |i: int| '0'));
    }
    out.append(digits.as_str());
    assert(out@ =~= old(out)@ + padded(n as nat, width as nat));
}

fn push_number(out: &mut String, n: u64)
    ensures
        final(out)@ == old(out)@ + number_text(n as nat),
    decreases n,
{
    proof {
        lemma_decimal_len(n as nat);
    }
    if n < 1000 {
        push_decimal(out, n);
    } else {
        push_number(out, n / 1000);
        out.push(',');
        push_padded(out, n % 1000, 3);
        proof {
            lemma_decimal_thousands(n as nat);
            let digits = decimal(n as nat);
            let high = decimal((n / 1000) as nat);
            let low = padded((n % 1000) as nat, 3);
            assert(digits.take(digits.len() - 3) =~= high);
            assert(digits.skip(digits.len() - 3) =~= low);
            assert(out@ =~= old(out)@ + number_text(n as nat));
        }
    }
}

/// `n` with thousands separators.
pub fn format_number(n: usize) -> (text: String)
    ensures
        text@ == number_text(n as nat),
{
    let mut text = String::new();
    push_number(&mut text, n as u64);
    assert(text@ =~= number_text(n as nat));
    text
}

/// A duration for people to read. `elapsed_secs` are its whole seconds,
/// `elapsed_subsec_millis` the milliseconds beyond them.
pub fn format_human_elapsed(elapsed_secs: u64, elapsed_subsec_millis: u32) -> (text: String)
    ensures
        text@ == elapsed_text(elapsed_secs, elapsed_subsec_millis),
{
    let mut text = String::new();
    if elapsed_secs >= 3600 {
        push_decimal(&mut text, elapsed_secs / 3600);
        text.push(':');
        push_padded(&mut text, (elapsed_secs % 3600) / 60, 2);
        text.push(':');
        push_padded(&mut text, elapsed_secs % 60, 2);
        text.push('.');
        push_padded(&mut text, elapsed_subsec_millis as u64, 3);
        text.append(" (h:mm:ss.mmm)");
    } else if elapsed_secs >= 60 {
        push_decimal(&mut text, elapsed_secs / 60);
        text.push(':');
        push_padded(&mut text, elapsed_secs % 60, 2);
        text.push('.');
        push_padded(&mut text, elapsed_subsec_millis as u64, 3);
        text.append(" (m:ss.mmm)");
    } else {
        push_decimal(&mut text, elapsed_secs);
        text.push('.');
        push_padded(&mut text, elapsed_subsec_millis as u64, 3);
        text.append(" seconds");
    }
    assert(text@ =~= elapsed_text(elapsed_secs, elapsed_subsec_millis));
    text
}

} // verus!
