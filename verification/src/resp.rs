//! The RESP wire forms this crate reads and writes: decimal numbers, bulk
//! strings (`$<length>\r\n<bytes>\r\n`) and arrays of bulk strings
//! (`*<count>\r\n` followed by the elements).

use vstd::prelude::*;
use vstd::string::StringSliceAdditionalSpecFns;

verus! {

/// `\r`, the first byte of every line ending.
pub const CR: u8 = 13;
/// `\n`, the second byte of every line ending.
pub const LF: u8 = 10;
/// `'0'`, the first decimal digit.
pub const ZERO: u8 = 48;
/// `*`, which starts an array.
pub const STAR: u8 = 42;
/// `$`, which starts a bulk string.
pub const DOLLAR: u8 = 36;

/// The ASCII decimal digits of `n`, most significant first, without
/// leading zeros (`0` is the single digit `"0"`).
pub open spec fn decimal(n: nat) -> Seq<u8>
    decreases n,
{
    if n < 10 {
        seq![(n + 48) as u8]
    } else {
        decimal(n / 10).push((n % 10 + 48) as u8)
    }
}

/// The number that a run of ASCII decimal digits denotes.
pub open spec fn digits_value(d: Seq<u8>) -> nat
    decreases d.len(),
{
    if d.len() == 0 {
        0
    } else {
        digits_value(d.drop_last()) * 10 + (d.last() - 48) as nat
    }
}

/// Every byte is an ASCII decimal digit.
pub open spec fn all_digits(d: Seq<u8>) -> bool {
    forall|k: int| 0 <= k < d.len() ==> 48 <= #[trigger] d[k] <= 57
}

/// A bulk string: `$`, the byte length in decimal, `\r\n`, the bytes, `\r\n`.
pub open spec fn bulk_string(arg: Seq<u8>) -> Seq<u8> {
    seq![DOLLAR] + decimal(arg.len()) + seq![CR, LF] + arg + seq![CR, LF]
}

/// Bulk strings for each argument, one after the other.
pub open spec fn bulk_strings(args: Seq<Seq<u8>>) -> Seq<u8>
    decreases args.len(),
{
    if args.len() == 0 {
        seq![]
    } else {
        bulk_string(args[0]) + bulk_strings(args.drop_first())
    }
}

/// An array of bulk strings: `*`, the count in decimal, `\r\n`, then the
/// elements.
pub open spec fn array_frame(args: Seq<Seq<u8>>) -> Seq<u8> {
    seq![STAR] + decimal(args.len()) + seq![CR, LF] + bulk_strings(args)
}

/// `decimal(n)` is a non-empty run of digits that denotes `n`.
pub proof fn lemma_decimal(n: nat)
    ensures
        decimal(n).len() >= 1,
        all_digits(decimal(n)),
        digits_value(decimal(n)) == n,
    decreases n,
{
    let d = decimal(n);
    if n >= 10 {
        lemma_decimal(n / 10);
        assert(d.drop_last() =~= decimal(n / 10));
        assert(d.last() == (n % 10 + 48) as u8);
        assert((n / 10) * 10 + n % 10 == n) by (nonlinear_arith);
        assert(digits_value(d) == digits_value(d.drop_last()) * 10 + (d.last() - 48) as nat);
        assert(digits_value(d.drop_last()) == n / 10);
        assert((d.last() - 48) as nat == n % 10);
    } else {
        assert(d.drop_last() =~= Seq::<u8>::empty());
        assert(digits_value(d.drop_last()) == 0);
        assert(digits_value(d) == digits_value(d.drop_last()) * 10 + (d.last() - 48) as nat);
    }
}

/// Appends the decimal digits of `n`.
pub fn push_decimal(out: &mut Vec<u8>, n: usize)
    ensures
        final(out)@ == old(out)@ + decimal(n as nat),
    decreases n,
{
    if n >= 10 {
        push_decimal(out, n / 10);
    }
    let d: u8 = (n % 10) as u8;
    out.push(d + 48);
    assert(final(out)@ =~= old(out)@ + decimal(n as nat));
}

/// The bulk-string reply carrying `s`.
pub fn bulk_string_bytes(s: &str) -> (res: Vec<u8>)
    ensures
        res@ == bulk_string(s.spec_bytes()),
{
    let bytes = s.as_bytes();
    let mut out: Vec<u8> = Vec::new();
    out.push(DOLLAR);
    push_decimal(&mut out, bytes.len());
    out.push(CR);
    out.push(LF);
    let n = bytes.len();
    let ghost head = out@;
    let mut i: usize = 0;
    while i < n
        invariant
            n == bytes@.len(),
            i <= n,
            out@ == head + bytes@.subrange(0, i as int),
        decreases n - i,
    {
        out.push(bytes[i]);
        assert(bytes@.subrange(0, i + 1) =~= bytes@.subrange(0, i as int).push(bytes@[i as int]));
        i = i + 1;
    }
    out.push(CR);
    out.push(LF);
    assert(bytes@.subrange(0, n as int) =~= bytes@);
    assert(out@ =~= bulk_string(s.spec_bytes()));
    out
}

} // verus!
