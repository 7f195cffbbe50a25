//! Hexadecimal digits: their values when read, and lower-case digits when written.
use vstd::prelude::*;

verus! {

/// Value of a hexadecimal digit in either case, as `char::to_digit(16)` gives it.
pub open spec fn hex_digit_value(c: char) -> Option<nat> {
    if '0' <= c && c <= '9' {
        Some((c as nat - '0' as nat) as nat)
    } else if 'a' <= c && c <= 'f' {
        Some((c as nat - 'a' as nat + 10) as nat)
    } else if 'A' <= c && c <= 'F' {
        Some((c as nat - 'A' as nat + 10) as nat)
    } else {
        None
    }
}

pub fn digit_value(c: char) -> (r: Option<u8>)
    ensures
        r matches Some(v) ==> hex_digit_value(c) == Some(v as nat) && v < 16,
        r is None ==> hex_digit_value(c) is None,
{
    if '0' <= c && c <= '9' {
        Some((c as u32 - '0' as u32) as u8)
    } else if 'a' <= c && c <= 'f' {
        Some((c as u32 - 'a' as u32 + 10) as u8)
    } else if 'A' <= c && c <= 'F' {
        Some((c as u32 - 'A' as u32 + 10) as u8)
    } else {
        None
    }
}

/// The lower-case ASCII digit for a value below 16.
pub open spec fn lower_digit(v: nat) -> u8 {
    if v < 10 {
        (v + 0x30) as u8
    } else {
        (v - 10 + 0x61) as u8
    }
}

pub fn lower_digit_exec(v: u64) -> (d: u8)
    requires
        v < 16,
    ensures
        d == lower_digit(v as nat),
{
    if v < 10 {
        (v + 0x30) as u8
    } else {
        (v - 10 + 0x61) as u8
    }
}

/// `n` in lower-case hexadecimal, padded with zeros to at least `width` digits,
/// as `format!("{:0width$x}", n)` writes it.
pub open spec fn hex_padded(n: nat, width: nat) -> Seq<u8>
    decreases n, width,
{
    if n < 16 && width <= 1 {
        seq![lower_digit(n)]
    } else {
        hex_padded(n / 16, if width > 0 { (width - 1) as nat } else { 0 }) + seq![lower_digit(n % 16)]
    }
}

/// Appends `hex_padded(n, width)` to `out`.
pub fn push_hex(out: &mut Vec<u8>, n: u64, width: usize)
    ensures
        final(out)@ == old(out)@ + hex_padded(n as nat, width as nat),
    decreases n, width,
{
    if n < 16 && width <= 1 {
        out.push(lower_digit_exec(n));
    } else {
        push_hex(out, n / 16, if width > 0 { width - 1 } else { 0 });
        out.push(lower_digit_exec(n % 16));
        assert(final(out)@ =~= old(out)@ + hex_padded(n as nat, width as nat));
    }
}

/// The two lower-case digits of an octet, as `format!("{:02x}", b)` writes them.
pub open spec fn hex_octet(b: u8) -> Seq<u8> {
    seq![lower_digit(b as nat / 16), lower_digit(b as nat % 16)]
}

} // verus!
