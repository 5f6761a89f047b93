//! Human-scaled size formatting: the largest binary unit (B/KiB/MiB/GiB) in
//! which the value is at least 1, printed with two decimal places, and `0 B`
//! for zero.

use vstd::prelude::*;

verus! {

/// The decimal digit `d` (at most 9) as a character.
pub open spec fn digit_char(d: nat) -> char {
    if d == 0 {
        '0'
    } else if d == 1 {
        '1'
    } else if d == 2 {
        '2'
    } else if d == 3 {
        '3'
    } else if d == 4 {
        '4'
    } else if d == 5 {
        '5'
    } else if d == 6 {
        '6'
    } else if d == 7 {
        '7'
    } else if d == 8 {
        '8'
    } else {
        '9'
    }
}

/// The decimal digits of `n`, most significant first, without leading zeros
/// (`0` itself is the single digit `0`).
pub open spec fn dec_digits(n: nat) -> Seq<char>
    decreases n,
{
    if n < 10 {
        seq![digit_char(n)]
    } else {
        dec_digits(n / 10).push(digit_char(n % 10))
    }
}

/// The number of bytes in the largest binary unit not above `size` (1 for
/// sizes under 1 KiB, so that every nonzero size has a unit).
pub open spec fn unit_base(size: nat) -> nat {
    if size >= 0x40000000 {
        0x40000000
    } else if size >= 0x100000 {
        0x100000
    } else if size >= 1024 {
        1024
    } else {
        1
    }
}

/// The suffix of the unit chosen for `size`.
pub open spec fn unit_suffix(size: nat) -> Seq<char> {
    if size >= 0x40000000 {
        seq!['G', 'i', 'B']
    } else if size >= 0x100000 {
        seq!['M', 'i', 'B']
    } else if size >= 1024 {
        seq!['K', 'i', 'B']
    } else {
        seq!['B']
    }
}

/// What [`format_size`] returns: `0 B` for zero; otherwise the size scaled to
/// its unit, with two decimal places rounded to the nearest hundredth (a half
/// rounds up), a space, and the unit's suffix.
pub open spec fn format_size_spec(size: nat) -> Seq<char> {
    if size == 0 {
        seq!['0', ' ', 'B']
    } else {
        let base = unit_base(size);
        let whole0 = size / base;
        let h = ((size % base) * 100 + base / 2) / base;
        let whole = if h == 100 {
            whole0 + 1
        } else {
            whole0
        };
        let frac: nat = if h == 100 {
            0
        } else {
            h
        };
        dec_digits(whole) + seq!['.', digit_char(frac / 10), digit_char(frac % 10), ' ']
            + unit_suffix(size)
    }
}

/// Relies on String::push: appends exactly the one character at the end.
#[verifier::external_body]
pub(crate) fn push_char(s: &mut String, c: char)
    ensures
        final(s)@ == old(s)@.push(c),
{
    s.push(c);
}

/// The decimal digit `d` (at most 9) as a character.
fn digit_to_char(d: u64) -> (c: char)
    requires
        d < 10,
    ensures
        c == digit_char(d as nat),
{
    if d == 0 {
        '0'
    } else if d == 1 {
        '1'
    } else if d == 2 {
        '2'
    } else if d == 3 {
        '3'
    } else if d == 4 {
        '4'
    } else if d == 5 {
        '5'
    } else if d == 6 {
        '6'
    } else if d == 7 {
        '7'
    } else if d == 8 {
        '8'
    } else {
        '9'
    }
}

/// Appends the decimal digits of `n` to `out`.
pub(crate) fn push_decimal(out: &mut String, n: u64)
    ensures
        final(out)@ == old(out)@ + dec_digits(n as nat),
{
    let mut buf: Vec<u64> = Vec::new();
    let mut m: u64 = n;
    proof {
        assert(Seq::new(buf.len() as nat, |i: int| digit_char(buf[buf.len() - 1 - i] as nat))
            =~= Seq::<char>::empty());
        assert(dec_digits(n as nat) =~= dec_digits(n as nat) + Seq::<char>::empty());
    }
    while m >= 10
        invariant
            dec_digits(n as nat) == dec_digits(m as nat) + Seq::new(
                buf.len() as nat,
                |i: int| digit_char(buf[buf.len() - 1 - i] as nat),
            ),
            forall|i: int| 0 <= i < buf.len() ==> #[trigger] buf[i] < 10,
        decreases m,
    {
        let ghost rev_before = Seq::new(
            buf.len() as nat,
            |i: int| digit_char(buf[buf.len() - 1 - i] as nat),
        );
        buf.push(m % 10);
        m = m / 10;
        proof {
            let rev_after = Seq::new(
                buf.len() as nat,
                |i: int| digit_char(buf[buf.len() - 1 - i] as nat),
            );
            assert(rev_after =~= seq![digit_char((buf[buf.len() - 1] as nat))] + rev_before);
            assert(dec_digits(n as nat) =~= dec_digits(m as nat) + rev_after);
        }
    }
    let ghost rev_before = Seq::new(
        buf.len() as nat,
        |i: int| digit_char(buf[buf.len() - 1 - i] as nat),
    );
    buf.push(m);
    proof {
        let rev_after = Seq::new(
            buf.len() as nat,
            |i: int| digit_char(buf[buf.len() - 1 - i] as nat),
        );
        assert(rev_after =~= seq![digit_char((buf[buf.len() - 1] as nat))] + rev_before);
        assert(dec_digits(n as nat) =~= rev_after);
    }
    let ghost target = dec_digits(n as nat);
    let mut k: usize = buf.len();
    proof {
        assert(out@ =~= old(out)@ + target.take(0));
    }
    while k > 0
        invariant
            k <= buf.len(),
            forall|i: int| 0 <= i < buf.len() ==> #[trigger] buf[i] < 10,
            target == Seq::new(
                buf.len() as nat,
                |i: int| digit_char(buf[buf.len() - 1 - i] as nat),
            ),
            out@ == old(out)@ + target.take(buf.len() - k),
        decreases k,
    {
        k = k - 1;
        push_char(out, digit_to_char(buf[k]));
        proof {
            assert(target[buf.len() - k - 1] == digit_char(buf[k as int] as nat));
            assert(target.take(buf.len() - k) =~= target.take(buf.len() - (k + 1)).push(
                target[buf.len() - k - 1],
            ));
        }
    }
    proof {
        assert(target.take(buf.len() as int) =~= target);
    }
}

/// Formats a byte count in the largest binary unit where it is at least 1,
/// with two decimal places; zero formats as `0 B`.
pub fn format_size(size: u64) -> (out: String)
    ensures
        out@ == format_size_spec(size as nat),
{
    if size == 0 {
        let out = "0 B".to_owned();
        proof {
            reveal_strlit("0 B");
            assert(out@ =~= format_size_spec(size as nat));
        }
        return out;
    }
    let base: u64 = if size >= 0x40000000 {
        0x40000000
    } else if size >= 0x100000 {
        0x100000
    } else if size >= 1024 {
        1024
    } else {
        1
    };
    let whole0: u64 = size / base;
    let rem: u64 = size % base;
    let h: u64 = (rem * 100 + base / 2) / base;
    let (whole, frac): (u64, u64) = if h == 100 {
        (whole0 + 1, 0)
    } else {
        (whole0, h)
    };
    let mut out = String::new();
    push_decimal(&mut out, whole);
    push_char(&mut out, '.');
    push_char(&mut out, digit_to_char(frac / 10));
    push_char(&mut out, digit_to_char(frac % 10));
    push_char(&mut out, ' ');
    if size >= 0x40000000 {
        push_char(&mut out, 'G');
        push_char(&mut out, 'i');
        push_char(&mut out, 'B');
    } else if size >= 0x100000 {
        push_char(&mut out, 'M');
        push_char(&mut out, 'i');
        push_char(&mut out, 'B');
    } else if size >= 1024 {
        push_char(&mut out, 'K');
        push_char(&mut out, 'i');
        push_char(&mut out, 'B');
    } else {
        push_char(&mut out, 'B');
    }
    proof {
        assert(out@ =~= format_size_spec(size as nat));
    }
    out
}

} // verus!
