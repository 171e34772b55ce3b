//! Text helpers shared by the command layer: string equality, decimal
//! rendering and the unsigned integer parser used for expiry arguments.

use vstd::prelude::*;
use vstd::utf8::{decode_utf8, encode_utf8};
use vstd::string::{StringExecFns, StringSliceAdditionalSpecFns};
use crate::resp::decimal;

verus! {

broadcast use vstd::utf8::group_utf8_lib;

/// Compares two string slices by their contents.
pub fn str_eq(a: &str, b: &str) -> (res: bool)
    ensures
        res == (a@ == b@),
{
    let ab = a.as_bytes();
    let bb = b.as_bytes();
    let n = ab.len();
    if n != bb.len() {
        proof {
            if a@ == b@ {
                assert(ab@ == bb@);
            }
        }
        return false;
    }
    let mut i: usize = 0;
    while i < n
        invariant
            ab@ == encode_utf8(a@),
            bb@ == encode_utf8(b@),
            n == ab@.len(),
            n == bb@.len(),
            i <= n,
            forall|k: int| 0 <= k < i ==> ab@[k] == bb@[k],
        decreases n - i,
    {
        if ab[i] != bb[i] {
            proof {
                if a@ == b@ {
                    assert(ab@ == bb@);
                }
            }
            return false;
        }
        i = i + 1;
    }
    proof {
        assert(ab@ =~= bb@);
        assert(decode_utf8(encode_utf8(a@)) == a@);
        assert(decode_utf8(encode_utf8(b@)) == b@);
    }
    true
}

} // verus!

verus! {

/// Why an unsigned integer could not be read from a string; the cases
/// `u64`'s `FromStr` distinguishes.
#[derive(Debug, Clone, Copy, PartialEq, Eq, Structural)]
pub enum IntErrorKind {
    /// The string is empty.
    Empty,
    /// A byte is not a decimal digit (a lone sign counts as one).
    InvalidDigit,
    /// The number exceeds `u64::MAX`.
    PosOverflow,
}

/// Reads decimal digits `d` onto `acc`, failing at the first non-digit or
/// at the first digit that takes the value past `u64::MAX`.
pub open spec fn u64_digits(d: Seq<u8>, acc: nat) -> Result<u64, IntErrorKind>
    decreases d.len(),
{
    if d.len() == 0 {
        Ok(acc as u64)
    } else if !(48 <= d[0] <= 57) {
        Err(IntErrorKind::InvalidDigit)
    } else if acc * 10 + (d[0] - 48) > u64::MAX {
        Err(IntErrorKind::PosOverflow)
    } else {
        u64_digits(d.drop_first(), (acc * 10 + (d[0] - 48)) as nat)
    }
}

/// `u64`'s reading of a string's bytes: empty is an error, a single `+`
/// or `-` is an invalid digit, one leading `+` is skipped, and the rest
/// must be decimal digits denoting at most `u64::MAX`.
pub open spec fn u64_from_bytes(s: Seq<u8>) -> Result<u64, IntErrorKind> {
    if s.len() == 0 {
        Err(IntErrorKind::Empty)
    } else if s.len() == 1 && (s[0] == 43 || s[0] == 45) {
        Err(IntErrorKind::InvalidDigit)
    } else if s[0] == 43 {
        u64_digits(s.drop_first(), 0)
    } else {
        u64_digits(s, 0)
    }
}

/// Reads an unsigned 64-bit integer, as `str::parse::<u64>` does.
pub fn parse_u64(s: &str) -> (res: Result<u64, IntErrorKind>)
    ensures
        res == u64_from_bytes(s.spec_bytes()),
{
    let b = s.as_bytes();
    let n = b.len();
    if n == 0 {
        return Err(IntErrorKind::Empty);
    }
    if n == 1 && (b[0] == 43u8 || b[0] == 45u8) {
        return Err(IntErrorKind::InvalidDigit);
    }
    let mut i: usize = if b[0] == 43u8 { 1 } else { 0 };
    proof {
        if i == 1 {
            assert(b@.subrange(1, n as int) =~= b@.drop_first());
        } else {
            assert(b@.subrange(0, n as int) =~= b@);
        }
    }
    let mut acc: u64 = 0;
    while i < n
        invariant
            n == b@.len(),
            i <= n,
            b@ == s.spec_bytes(),
            u64_digits(b@.subrange(i as int, n as int), acc as nat) == u64_from_bytes(
                s.spec_bytes(),
            ),
        decreases n - i,
    {
        let c = b[i];
        let ghost rest = b@.subrange(i as int, n as int);
        assert(rest[0] == c);
        if c < 48u8 || c > 57u8 {
            return Err(IntErrorKind::InvalidDigit);
        }
        let d = (c - 48u8) as u64;
        let m = match acc.checked_mul(10) {
            Some(m) => m,
            None => {
                return Err(IntErrorKind::PosOverflow);
            },
        };
        acc = match m.checked_add(d) {
            Some(a) => a,
            None => {
                return Err(IntErrorKind::PosOverflow);
            },
        };
        assert(rest.drop_first() =~= b@.subrange(i + 1, n as int));
        i = i + 1;
    }
    Ok(acc)
}

/// The text `u64`'s parse error displays for each kind.
pub open spec fn int_error_message(kind: IntErrorKind) -> Seq<char> {
    match kind {
        IntErrorKind::Empty => "cannot parse integer from empty string"@,
        IntErrorKind::InvalidDigit => "invalid digit found in string"@,
        IntErrorKind::PosOverflow => "number too large to fit in target type"@,
    }
}

/// The text of an integer parse error.
pub fn int_error_text(kind: IntErrorKind) -> (res: &'static str)
    ensures
        res@ == int_error_message(kind),
{
    match kind {
        IntErrorKind::Empty => "cannot parse integer from empty string",
        IntErrorKind::InvalidDigit => "invalid digit found in string",
        IntErrorKind::PosOverflow => "number too large to fit in target type",
    }
}

} // verus!

verus! {

/// The decimal digits of `n` as text.
pub open spec fn decimal_text(n: nat) -> Seq<char> {
    decimal(n).map_values(|b: u8| b as char)
}

/// The one-digit text for `d`.
fn digit_text(d: u64) -> (res: &'static str)
    requires
        d < 10,
    ensures
        res@ == seq![((d + 48) as u8) as char],
{
    proof {
        reveal_strlit("0");
        reveal_strlit("1");
        reveal_strlit("2");
        reveal_strlit("3");
        reveal_strlit("4");
        reveal_strlit("5");
        reveal_strlit("6");
        reveal_strlit("7");
        reveal_strlit("8");
        reveal_strlit("9");
    }
    if d == 0 {
        "0"
    } else if d == 1 {
        "1"
    } else if d == 2 {
        "2"
    } else if d == 3 {
        "3"
    } else if d == 4 {
        "4"
    } else if d == 5 {
        "5"
    } else if d == 6 {
        "6"
    } else if d == 7 {
        "7"
    } else if d == 8 {
        "8"
    } else {
        "9"
    }
}

/// Appends the decimal digits of `n`.
pub fn push_decimal_text(out: &mut String, n: u64)
    ensures
        final(out)@ == old(out)@ + decimal_text(n as nat),
    decreases n,
{
    if n >= 10 {
        push_decimal_text(out, n / 10);
    }
    out.append(digit_text(n % 10));
    proof {
        assert(final(out)@ =~= old(out)@ + decimal_text(n as nat));
    }
}

} // verus!

verus! {

proof fn lemma_u64_digits_snoc(d: Seq<u8>, x: u8, acc: nat)
    requires
        acc <= u64::MAX,
    ensures
        u64_digits(d.push(x), acc) == match u64_digits(d, acc) {
            Ok(v) => if !(48 <= x <= 57) {
                Err(IntErrorKind::InvalidDigit)
            } else if v * 10 + (x - 48) > u64::MAX {
                Err(IntErrorKind::PosOverflow)
            } else {
                Ok((v * 10 + (x - 48)) as u64)
            },
            Err(e) => Err(e),
        },
    decreases d.len(),
{
    if d.len() == 0 {
        let s = d.push(x);
        assert(s.drop_first() =~= Seq::<u8>::empty());
        assert(s[0] == x);
        assert(u64_digits(d, acc) == Ok::<u64, IntErrorKind>(acc as u64));
        if 48 <= x <= 57 && acc * 10 + (x - 48) <= u64::MAX {
            let a2 = (acc * 10 + (x - 48)) as nat;
            assert(u64_digits(s, acc) == u64_digits(s.drop_first(), a2));
            assert(u64_digits(s.drop_first(), a2) == Ok::<u64, IntErrorKind>(a2 as u64));
        }
    } else {
        assert(d.push(x)[0] == d[0]);
        assert(d.push(x).drop_first() =~= d.drop_first().push(x));
        if 48 <= d[0] <= 57 && acc * 10 + (d[0] - 48) <= u64::MAX {
            let a2 = (acc * 10 + (d[0] - 48)) as nat;
            lemma_u64_digits_snoc(d.drop_first(), x, a2);
            assert(u64_digits(d, acc) == u64_digits(d.drop_first(), a2));
            assert(u64_digits(d.push(x), acc) == u64_digits(d.drop_first().push(x), a2));
        }
    }
}

proof fn lemma_u64_digits_decimal(n: u64)
    ensures
        u64_digits(decimal(n as nat), 0) == Ok::<u64, IntErrorKind>(n),
    decreases n,
{
    let d = decimal(n as nat);
    if n < 10 {
        assert(d =~= Seq::<u8>::empty().push((n + 48) as u8));
        lemma_u64_digits_snoc(Seq::<u8>::empty(), (n + 48) as u8, 0);
    } else {
        let q = (n / 10) as u64;
        lemma_u64_digits_decimal(q);
        lemma_u64_digits_snoc(decimal(q as nat), (n % 10 + 48) as u8, 0);
        assert(q * 10 + n % 10 == n) by (nonlinear_arith)
            requires
                q == n / 10,
        ;
    }
}

/// Reading back the decimal text of any `u64` gives that number: the
/// digits this crate prints in replies are exactly what its integer
/// reader accepts.
pub proof fn law_decimal_reads_back(n: u64)
    ensures
        u64_from_bytes(decimal(n as nat)) == Ok::<u64, IntErrorKind>(n),
{
    crate::resp::lemma_decimal(n as nat);
    lemma_u64_digits_decimal(n);
    let d = decimal(n as nat);
    assert(48 <= d[0] <= 57);
}

} // verus!

verus! {

/// The UTF-8 bytes of a number's decimal text are its decimal digits.
pub proof fn lemma_decimal_text_bytes(n: nat)
    ensures
        encode_utf8(decimal_text(n)) == decimal(n),
{
    let d = decimal(n);
    let t = decimal_text(n);
    crate::resp::lemma_decimal(n);
    assert(vstd::utf8::is_ascii_chars(t)) by {
        assert forall|i: int| 0 <= i < t.len() implies '\0' <= #[trigger] t[i] <= '\u{7f}' by {
            assert(t[i] == d[i] as char);
            assert(48 <= d[i] <= 57);
        }
    }
    vstd::utf8::is_ascii_chars_encode_utf8(t);
    assert forall|i: int| 0 <= i < d.len() implies encode_utf8(t)[i] == d[i] by {
        assert(t[i] == d[i] as char);
        assert(t[i] as u8 == encode_utf8(t)[i]);
    }
    assert(encode_utf8(t) =~= d);
}

} // verus!
