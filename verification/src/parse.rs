//! The dump format, read: a line's parts, the octets of its data, and offsets.
use vstd::prelude::*;
use vstd::string::*;
use crate::hex::{digit_value, hex_digit_value};
use crate::text::{ascii_ws, find_char, index_of, is_ascii_ws, str_chars, trim, trim_bounds};

verus! {

/// The parts of one line of the dump format: `offset: data | comment`.
#[derive(Debug, PartialEq, Eq)]
pub struct DumpLine<'src> {
    pub offset: &'src str,
    pub data: &'src str,
    pub comment: &'src str,
}

/// Index of the first `|` in a line, or its length.
pub open spec fn comment_start(line: Seq<char>) -> nat {
    index_of(line, '|')
}

/// What precedes the comment separator.
pub open spec fn before_comment(line: Seq<char>) -> Seq<char> {
    line.subrange(0, comment_start(line) as int)
}

/// What follows the first `|`, untrimmed; empty when there is no `|`.
pub open spec fn line_comment(line: Seq<char>) -> Seq<char> {
    if comment_start(line) < line.len() {
        line.subrange(comment_start(line) + 1int, line.len() as int)
    } else {
        Seq::empty()
    }
}

/// The trimmed text before the first `:` of the part before the comment; empty
/// when that part has no `:`.
pub open spec fn line_offset(line: Seq<char>) -> Seq<char> {
    let rest = before_comment(line);
    let q = index_of(rest, ':');
    if q < rest.len() {
        trim(rest.subrange(0, q as int))
    } else {
        Seq::empty()
    }
}

/// The trimmed text after the first `:` of the part before the comment, or the
/// whole of that part, trimmed, when it has no `:`.
pub open spec fn line_data(line: Seq<char>) -> Seq<char> {
    let rest = before_comment(line);
    let q = index_of(rest, ':');
    if q < rest.len() {
        trim(rest.subrange(q + 1int, rest.len() as int))
    } else {
        trim(rest)
    }
}

/// Bounds, within a line's characters, of its offset, data and comment.
pub struct LineParts {
    pub offset: (usize, usize),
    pub data: (usize, usize),
    pub comment: (usize, usize),
}

pub open spec fn span_of(cs: Seq<char>, span: (usize, usize)) -> Seq<char> {
    cs.subrange(span.0 as int, span.1 as int)
}

pub open spec fn valid_span(cs: Seq<char>, span: (usize, usize)) -> bool {
    span.0 <= span.1 <= cs.len()
}

/// Finds the parts of the line `cs`.
pub fn recognize_chars(cs: &Vec<char>) -> (p: LineParts)
    ensures
        valid_span(cs@, p.offset),
        valid_span(cs@, p.data),
        valid_span(cs@, p.comment),
        span_of(cs@, p.offset) == line_offset(cs@),
        span_of(cs@, p.data) == line_data(cs@),
        span_of(cs@, p.comment) == line_comment(cs@),
{
    let n = cs.len();
    let bar = find_char(cs, 0, n, '|');
    assert(cs@.subrange(0, n as int) =~= cs@);
    let comment = if bar < n {
        (bar + 1, n)
    } else {
        (n, n)
    };
    assert(cs@.subrange(n as int, n as int) =~= Seq::<char>::empty());
    let ghost rest = cs@.subrange(0, bar as int);
    let colon = find_char(cs, 0, bar, ':');
    if colon < bar {
        let offset = trim_bounds(cs, 0, colon);
        let data = trim_bounds(cs, colon + 1, bar);
        assert(rest.subrange(0, colon as int) =~= cs@.subrange(0, colon as int));
        assert(rest.subrange(colon + 1, rest.len() as int) =~= cs@.subrange(
            colon + 1,
            bar as int,
        ));
        LineParts { offset, data, comment }
    } else {
        let data = trim_bounds(cs, 0, bar);
        LineParts { offset: (0, 0), data, comment }
    }
}

/// Recognizes the parts of a single line of the dump format, without checking them.
pub fn recognize_line(line: &str) -> (r: DumpLine<'_>)
    ensures
        r.offset@ == line_offset(line@),
        r.data@ == line_data(line@),
        r.comment@ == line_comment(line@),
{
    let cs = str_chars(line);
    let p = recognize_chars(&cs);
    DumpLine {
        offset: line.substring_char(p.offset.0, p.offset.1),
        data: line.substring_char(p.data.0, p.data.1),
        comment: line.substring_char(p.comment.0, p.comment.1),
    }
}

} // verus!

verus! {

/// Number of bytes that `c` takes in UTF-8.
pub open spec fn utf8_width(c: char) -> nat {
    let u = c as u32;
    if u < 0x80 {
        1
    } else if u < 0x800 {
        2
    } else if u < 0x10000 {
        3
    } else {
        4
    }
}

pub fn char_width(c: char) -> (w: usize)
    ensures
        w == utf8_width(c),
{
    let u = c as u32;
    if u < 0x80 {
        1
    } else if u < 0x800 {
        2
    } else if u < 0x10000 {
        3
    } else {
        4
    }
}

/// Number of bytes that `s` takes in UTF-8.
pub open spec fn utf8_len(s: Seq<char>) -> nat
    decreases s.len(),
{
    if s.len() == 0 {
        0
    } else {
        utf8_len(s.drop_last()) + utf8_width(s.last())
    }
}

/// The octet that a two-byte text denotes under `u8::from_str_radix(_, 16)`: two
/// hexadecimal digits, or `+` and one digit.
pub open spec fn octet_value(hi: char, lo: char) -> Option<u8> {
    if hi == '+' {
        match hex_digit_value(lo) {
            Some(v) => Some(v as u8),
            None => None,
        }
    } else {
        match (hex_digit_value(hi), hex_digit_value(lo)) {
            (Some(a), Some(b)) => Some((a * 16 + b) as u8),
            _ => None,
        }
    }
}

pub fn octet(hi: char, lo: char) -> (r: Option<u8>)
    ensures
        r == octet_value(hi, lo),
{
    if hi == '+' {
        match digit_value(lo) {
            Some(v) => Some(v),
            None => None,
        }
    } else {
        match (digit_value(hi), digit_value(lo)) {
            (Some(a), Some(b)) => Some(a * 16 + b),
            _ => None,
        }
    }
}

/// Why the data of a line could not be read.
#[derive(Clone, Copy, Debug, PartialEq, Eq)]
pub enum DataError {
    /// A group of the data has an odd number of bytes.
    IncompleteOctet,
    /// The characters in `start..end` of the data are not an octet.
    InvalidOctet(usize, usize),
}

/// Length of the group at the start of `s`: the index of the first ASCII
/// whitespace, or the length of `s`.
pub open spec fn group_len(s: Seq<char>) -> nat
    decreases s.len(),
{
    if s.len() == 0 || is_ascii_ws(s[0]) {
        0
    } else {
        1 + group_len(s.drop_first())
    }
}

pub proof fn lemma_group_len(s: Seq<char>, e: int)
    requires
        0 <= e <= s.len(),
        forall|j: int| 0 <= j < e ==> !is_ascii_ws(#[trigger] s[j]),
        e == s.len() || is_ascii_ws(s[e]),
    ensures
        group_len(s) == e,
    decreases e,
{
    if e > 0 {
        lemma_group_len(s.drop_first(), e - 1);
    }
}

pub proof fn lemma_group_len_bounds(s: Seq<char>)
    ensures
        group_len(s) <= s.len(),
        s.len() > 0 && !is_ascii_ws(s[0]) ==> group_len(s) > 0,
    decreases s.len(),
{
    if s.len() > 0 && !is_ascii_ws(s[0]) {
        lemma_group_len_bounds(s.drop_first());
    }
}

/// Octets of the group `g`, read two bytes at a time as `for_parsed_data` reads
/// them; `base` is the position of `g` in the data, for errors. Reading stops
/// silently where the next two bytes do not end on a character boundary.
pub open spec fn group_octets(g: Seq<char>, base: int) -> (Seq<u8>, Option<DataError>)
    decreases g.len(),
{
    if g.len() == 0 {
        (Seq::empty(), None)
    } else if utf8_width(g[0]) == 1 && g.len() >= 2 && utf8_width(g[1]) == 1 {
        match octet_value(g[0], g[1]) {
            Some(b) => {
                let r = group_octets(g.skip(2), base + 2);
                (seq![b] + r.0, r.1)
            },
            None => (Seq::empty(), Some(DataError::InvalidOctet(base as usize, (base + 2) as usize))),
        }
    } else if utf8_width(g[0]) == 2 {
        (Seq::empty(), Some(DataError::InvalidOctet(base as usize, (base + 1) as usize)))
    } else {
        (Seq::empty(), None)
    }
}

/// The octets of the data `s`, split at ASCII whitespace into groups, and the error
/// that stops the reading, if any; `base` is the position of `s` in the whole data.
pub open spec fn data_octets_at(s: Seq<char>, base: int) -> (Seq<u8>, Option<DataError>)
    decreases s.len(),
{
    if s.len() == 0 {
        (Seq::empty(), None)
    } else if is_ascii_ws(s[0]) {
        data_octets_at(s.drop_first(), base + 1)
    } else {
        let e = group_len(s);
        proof {
            lemma_group_len_bounds(s);
        }
        if utf8_len(s.take(e as int)) % 2 == 1 {
            (Seq::empty(), Some(DataError::IncompleteOctet))
        } else {
            let g = group_octets(s.take(e as int), base);
            if g.1 is Some {
                g
            } else {
                let r = data_octets_at(s.skip(e as int), base + e);
                (g.0 + r.0, r.1)
            }
        }
    }
}

/// The octets that the data `s` denotes, up to the first error.
pub open spec fn data_octets(s: Seq<char>) -> Seq<u8> {
    data_octets_at(s, 0).0
}

/// The error that stops the reading of the data `s`, if any.
pub open spec fn data_error(s: Seq<char>) -> Option<DataError> {
    data_octets_at(s, 0).1
}

pub open spec fn data_result(s: Seq<char>) -> Result<(), DataError> {
    match data_error(s) {
        Some(e) => Err(e),
        None => Ok(()),
    }
}

/// Reads the data `cs`, appending its octets to `out` up to the first error.
pub fn parse_data_chars(cs: &Vec<char>, out: &mut Vec<u8>) -> (r: Result<(), DataError>)
    ensures
        final(out)@ == old(out)@ + data_octets(cs@),
        r == data_result(cs@),
{
    let ghost s = cs@;
    let n = cs.len();
    let mut i: usize = 0;
    assert(s.skip(0) =~= s);
    while i < n
        invariant
            n == cs.len(),
            s == cs@,
            i <= n,
            out@ + data_octets_at(s.skip(i as int), i as int).0 == old(out)@ + data_octets(s),
            data_octets_at(s.skip(i as int), i as int).1 == data_error(s),
        decreases n - i,
    {
        assert(s.skip(i as int).drop_first() =~= s.skip(i + 1));
        if ascii_ws(cs[i]) {
            i += 1;
        } else {
            let mut e = i;
            let mut odd = false;
            while e < n && !ascii_ws(cs[e])
                invariant
                    n == cs.len(),
                    s == cs@,
                    i <= e <= n,
                    forall|j: int| i <= j < e ==> !is_ascii_ws(#[trigger] s[j]),
                    odd == (utf8_len(s.subrange(i as int, e as int)) % 2 == 1),
                decreases n - e,
            {
                assert(s.subrange(i as int, e + 1).drop_last() =~= s.subrange(i as int, e as int));
                if char_width(cs[e]) % 2 == 1 {
                    odd = !odd;
                }
                e += 1;
            }
            let ghost rest = s.skip(i as int);
            proof {
                lemma_group_len(rest, e - i);
                assert(rest.take(e - i) =~= s.subrange(i as int, e as int));
                assert(rest.skip(e - i) =~= s.skip(e as int));
            }
            if odd {
                return Err(DataError::IncompleteOctet);
            }
            let ghost out_g = out@;
            let ghost whole_g = group_octets(s.subrange(i as int, e as int), i as int);
            let mut k = i;
            while k < e
                invariant
                    n == cs.len(),
                    s == cs@,
                    i <= k <= e <= n,
                    i < n,
                    rest == s.skip(i as int),
                    !is_ascii_ws(s[i as int]),
                    group_len(rest) == e - i,
                    rest.take(e - i) == s.subrange(i as int, e as int),
                    utf8_len(s.subrange(i as int, e as int)) % 2 == 0,
                    whole_g == group_octets(s.subrange(i as int, e as int), i as int),
                    out_g + data_octets_at(rest, i as int).0 == old(out)@ + data_octets(s),
                    data_octets_at(rest, i as int).1 == data_error(s),
                    out@ + group_octets(s.subrange(k as int, e as int), k as int).0 == out_g
                        + whole_g.0,
                    group_octets(s.subrange(k as int, e as int), k as int).1 == whole_g.1,
                ensures
                    i <= k <= e,
                    out@ + group_octets(s.subrange(k as int, e as int), k as int).0 == out_g
                        + whole_g.0,
                    group_octets(s.subrange(k as int, e as int), k as int).1 == whole_g.1,
                    group_octets(s.subrange(k as int, e as int), k as int).0.len() == 0,
                    group_octets(s.subrange(k as int, e as int), k as int).1 is None,
                decreases e - k,
            {
                let ghost g = s.subrange(k as int, e as int);
                let w = char_width(cs[k]);
                if w == 1 && k + 1 < e && char_width(cs[k + 1]) == 1 {
                    assert(g.skip(2) =~= s.subrange(k + 2, e as int));
                    match octet(cs[k], cs[k + 1]) {
                        Some(b) => {
                            let ghost r = group_octets(s.subrange(k + 2, e as int), k + 2);
                            assert(out@.push(b) + r.0 =~= out@ + (seq![b] + r.0));
                            out.push(b);
                            k += 2;
                        },
                        None => {
                            return Err(DataError::InvalidOctet(k, k + 2));
                        },
                    }
                } else if w == 2 {
                    return Err(DataError::InvalidOctet(k, k + 1));
                } else {
                    break ;
                }
            }
            assert(out@ + data_octets_at(s.skip(e as int), e as int).0 =~= out_g + data_octets_at(
                rest,
                i as int,
            ).0);
            i = e;
        }
    }
    Ok(())
}

} // verus!

verus! {

/// Reads the data of a line and appends the octets it denotes to `out`, stopping at
/// the first error. The data is split at ASCII whitespace into groups; a group of an
/// odd number of bytes is an error before any of its octets is read; each octet is
/// two hexadecimal digits (or `+` and one digit).
pub fn for_parsed_data(data: &str, out: &mut Vec<u8>) -> (r: Result<(), DataError>)
    ensures
        final(out)@ == old(out)@ + data_octets(data@),
        r == data_result(data@),
{
    let cs = str_chars(data);
    parse_data_chars(&cs, out)
}

/// An offset in a line of the dump format: absolute, or relative to the last
/// absolute one.
#[derive(Clone, Copy, Debug, PartialEq, Eq)]
pub enum Offset {
    Absolute(u64),
    Relative(i64),
}

/// Why an offset could not be read; the kinds of `std::num::IntErrorKind` that
/// hexadecimal parsing can give.
#[derive(Clone, Copy, Debug, PartialEq, Eq)]
pub enum OffsetError {
    Empty,
    InvalidDigit,
    PosOverflow,
    NegOverflow,
}

/// The value of the hexadecimal digits `s[i..]` after the value `acc` of those
/// before them, read left to right as `from_str_radix` reads them: a character that
/// is not a digit is an error, and so is a value above `max`, whichever comes first.
pub open spec fn digits_value(
    s: Seq<char>,
    i: int,
    acc: int,
    max: int,
    over: OffsetError,
) -> Result<int, OffsetError>
    decreases s.len() - i,
{
    if i < 0 || i >= s.len() {
        Ok(acc)
    } else {
        match hex_digit_value(s[i]) {
            None => Err(OffsetError::InvalidDigit),
            Some(d) => if acc * 16 + d > max {
                Err(over)
            } else {
                digits_value(s, i + 1, acc * 16 + d, max, over)
            },
        }
    }
}

pub open spec fn i64_magnitude_max() -> int {
    0x8000_0000_0000_0000
}

/// The offset that `s` denotes: with a leading sign, a relative offset that
/// `i64::from_str_radix(s, 16)` reads; without, an absolute one that
/// `u64::from_str_radix(s, 16)` reads.
pub open spec fn offset_value(s: Seq<char>) -> Result<Offset, OffsetError> {
    if s.len() == 0 {
        Err(OffsetError::Empty)
    } else if s[0] == '+' || s[0] == '-' {
        if s.len() == 1 {
            Err(OffsetError::InvalidDigit)
        } else if s[0] == '+' {
            match digits_value(s, 1, 0, i64::MAX as int, OffsetError::PosOverflow) {
                Ok(v) => Ok(Offset::Relative(v as i64)),
                Err(e) => Err(e),
            }
        } else {
            match digits_value(s, 1, 0, i64_magnitude_max(), OffsetError::NegOverflow) {
                Ok(v) => Ok(Offset::Relative((-v) as i64)),
                Err(e) => Err(e),
            }
        }
    } else {
        match digits_value(s, 0, 0, u64::MAX as int, OffsetError::PosOverflow) {
            Ok(v) => Ok(Offset::Absolute(v as u64)),
            Err(e) => Err(e),
        }
    }
}

/// Reads the hexadecimal digits `cs[start..]` as a magnitude of at most `max`.
fn parse_digits(cs: &Vec<char>, start: usize, max: u64, over: OffsetError) -> (r: Result<
    u64,
    OffsetError,
>)
    requires
        start <= cs.len(),
    ensures
        r matches Ok(v) ==> v <= max,
        r matches Ok(v) ==> digits_value(cs@, start as int, 0, max as int, over) == Ok::<
            int,
            OffsetError,
        >(v as int),
        r matches Err(e) ==> digits_value(cs@, start as int, 0, max as int, over) == Err::<
            int,
            OffsetError,
        >(e),
{
    let n = cs.len();
    let mut acc: u64 = 0;
    let mut i = start;
    while i < n
        invariant
            n == cs.len(),
            start <= i <= n,
            acc <= max,
            digits_value(cs@, start as int, 0, max as int, over) == digits_value(
                cs@,
                i as int,
                acc as int,
                max as int,
                over,
            ),
        decreases n - i,
    {
        match digit_value(cs[i]) {
            None => {
                return Err(OffsetError::InvalidDigit);
            },
            Some(d) => {
                if d as u64 > max {
                    return Err(over);
                }
                if acc > (max - d as u64) / 16 {
                    assert(acc * 16 + d > max) by (nonlinear_arith)
                        requires
                            acc > (max - d) / 16,
                            d <= max,
                    ;
                    return Err(over);
                }
                assert(acc * 16 + d <= max) by (nonlinear_arith)
                    requires
                        acc <= (max - d) / 16,
                        d <= max,
                ;
                acc = acc * 16 + d as u64;
                i += 1;
            },
        }
    }
    Ok(acc)
}

/// Reads an offset from the characters `cs`.
pub fn parse_offset_chars(cs: &Vec<char>) -> (r: Result<Offset, OffsetError>)
    ensures
        r == offset_value(cs@),
{
    let n = cs.len();
    if n == 0 {
        return Err(OffsetError::Empty);
    }
    let c0 = cs[0];
    if c0 == '+' || c0 == '-' {
        if n == 1 {
            return Err(OffsetError::InvalidDigit);
        }
        if c0 == '+' {
            match parse_digits(cs, 1, 0x7fff_ffff_ffff_ffff, OffsetError::PosOverflow) {
                Ok(v) => Ok(Offset::Relative(v as i64)),
                Err(e) => Err(e),
            }
        } else {
            match parse_digits(cs, 1, 0x8000_0000_0000_0000, OffsetError::NegOverflow) {
                Ok(v) => {
                    let r: i64 = if v == 0x8000_0000_0000_0000 {
                        i64::MIN
                    } else {
                        -(v as i64)
                    };
                    Ok(Offset::Relative(r))
                },
                Err(e) => Err(e),
            }
        }
    } else {
        match parse_digits(cs, 0, u64::MAX, OffsetError::PosOverflow) {
            Ok(v) => Ok(Offset::Absolute(v)),
            Err(e) => Err(e),
        }
    }
}

impl Offset {
    /// Reads an offset: hexadecimal digits, with a leading `+` or `-` for a relative one.
    pub fn parse(s: &str) -> (r: Result<Offset, OffsetError>)
        ensures
            r == offset_value(s@),
    {
        let cs = str_chars(s);
        parse_offset_chars(&cs)
    }
}

impl core::str::FromStr for Offset {
    type Err = OffsetError;

    fn from_str(s: &str) -> (r: Result<Self, Self::Err>)
        ensures
            r == offset_value(s@),
    {
        Offset::parse(s)
    }
}

/// Why an offset could not be made absolute.
#[derive(Clone, Copy, Debug, PartialEq, Eq)]
pub enum AbsoluteError {
    /// A relative offset came before any absolute one.
    NoBasis(i64),
    /// The basis plus the relative offset is not a `u64`.
    Overflow(u64, i64),
}

/// `basis + delta`, when it is a `u64`.
pub open spec fn add_signed(basis: u64, delta: i64) -> Option<u64> {
    if 0 <= basis + delta <= u64::MAX {
        Some((basis + delta) as u64)
    } else {
        None
    }
}

pub fn checked_add_signed(basis: u64, delta: i64) -> (r: Option<u64>)
    ensures
        r == add_signed(basis, delta),
{
    let sum: i128 = basis as i128 + delta as i128;
    if 0 <= sum && sum <= u64::MAX as i128 {
        Some(sum as u64)
    } else {
        None
    }
}

/// The absolute position that an offset denotes, given the last absolute one.
pub open spec fn absolute_value(offset: Offset, basis: Option<u64>) -> Result<u64, AbsoluteError> {
    match offset {
        Offset::Absolute(n) => Ok(n),
        Offset::Relative(n) => match basis {
            None => Err(AbsoluteError::NoBasis(n)),
            Some(m) => match add_signed(m, n) {
                Some(v) => Ok(v),
                None => Err(AbsoluteError::Overflow(m, n)),
            },
        },
    }
}

impl Offset {
    /// The absolute position: an absolute offset as it is, a relative one added to
    /// `basis`.
    pub fn to_absolute(self, basis: Option<u64>) -> (r: Result<u64, AbsoluteError>)
        ensures
            r == absolute_value(self, basis),
    {
        match (self, basis) {
            (Offset::Absolute(n), _) => Ok(n),
            (Offset::Relative(n), None) => Err(AbsoluteError::NoBasis(n)),
            (Offset::Relative(n), Some(m)) => match checked_add_signed(m, n) {
                Some(v) => Ok(v),
                None => Err(AbsoluteError::Overflow(m, n)),
            },
        }
    }
}

} // verus!
