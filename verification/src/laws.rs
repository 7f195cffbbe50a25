//! Properties of the dump format that hold of every input.
use vstd::prelude::*;
use crate::hex::{hex_digit_value, hex_octet, hex_padded, lower_digit};
use crate::dump::{
    line_text,
    dump_rows, dump_text, hex_row, hex_run, join_lines, lemma_dump_text_rows, line_head, max_nat,
    min_nat, row_text, spaces, text_column,
};
use crate::load::load_lines;
use crate::patch::{patch_lines, patch_step, write_at, PatchError};
use crate::parse::{
    data_error, data_octets,
    before_comment, digits_value, i64_magnitude_max, line_comment, line_data,
    data_octets_at, group_len, group_octets, lemma_group_len, line_offset, octet_value,
    offset_value, utf8_len, utf8_width, DataError, Offset, OffsetError,
};
use crate::text::{
    all_white_space, index_of, is_ascii_ws, is_white_space, lemma_index_of,
    lemma_trim_end_ws_suffix, lemma_trim_start_ws_prefix, text_lines, trim, trim_end, trim_start,
};

verus! {

/// `s` neither begins nor ends with whitespace.
pub open spec fn unpadded(s: Seq<char>) -> bool {
    s.len() == 0 || (!is_white_space(s[0]) && !is_white_space(s.last()))
}

/// A line of the form `offset:data|comment` is recognized as exactly those three
/// parts when the offset holds no `:` or `|`, the data holds no `|`, and neither of
/// them begins or ends with whitespace.
pub proof fn law_recognize_parts(o: Seq<char>, d: Seq<char>, c: Seq<char>)
    requires
        forall|i: int| 0 <= i < o.len() ==> o[i] != ':' && o[i] != '|',
        forall|i: int| 0 <= i < d.len() ==> d[i] != '|',
        unpadded(o),
        unpadded(d),
    ensures
        line_offset(o + seq![':'] + d + seq!['|'] + c) == o,
        line_data(o + seq![':'] + d + seq!['|'] + c) == d,
        line_comment(o + seq![':'] + d + seq!['|'] + c) == c,
{
    let line = o + seq![':'] + d + seq!['|'] + c;
    let bar: int = o.len() + 1int + d.len();
    assert forall|j: int| 0 <= j < bar implies line[j] != '|' by {
        if j < o.len() {
            assert(line[j] == o[j]);
        } else if j > o.len() {
            assert(line[j] == d[j - o.len() - 1]);
        }
    }
    lemma_index_of(line, '|', bar);
    let rest = before_comment(line);
    assert(rest =~= o + seq![':'] + d);
    assert forall|j: int| 0 <= j < o.len() implies rest[j] != ':' by {
        assert(rest[j] == o[j]);
    }
    lemma_index_of(rest, ':', o.len() as int);
    assert(rest.subrange(0, o.len() as int) =~= o);
    assert(rest.subrange(o.len() + 1int, rest.len() as int) =~= d);
    assert(line.subrange(bar + 1, line.len() as int) =~= c);
}

/// A line that begins with `|` is all comment.
pub proof fn law_recognize_comment_only(c: Seq<char>)
    ensures
        line_offset(seq!['|'] + c) == Seq::<char>::empty(),
        line_data(seq!['|'] + c) == Seq::<char>::empty(),
        line_comment(seq!['|'] + c) == c,
{
    let line = seq!['|'] + c;
    lemma_index_of(line, '|', 0);
    assert(before_comment(line) =~= Seq::<char>::empty());
    assert(line.subrange(1, line.len() as int) =~= c);
}

pub open spec fn pow16(k: nat) -> nat
    decreases k,
{
    if k == 0 {
        1
    } else {
        16 * pow16((k - 1) as nat)
    }
}

proof fn lemma_pow16_mono(a: nat, b: nat)
    requires
        a <= b,
    ensures
        1 <= pow16(a) <= pow16(b),
    decreases b,
{
    if a < b {
        lemma_pow16_mono(a, (b - 1) as nat);
    } else if a > 0 {
        lemma_pow16_mono((a - 1) as nat, (a - 1) as nat);
    }
}

/// Every character of `s` from `i` on is a hexadecimal digit.
pub open spec fn hex_from(s: Seq<char>, i: int) -> bool {
    forall|j: int| i <= j < s.len() ==> (#[trigger] hex_digit_value(s[j])) is Some
}

proof fn lemma_digits_fit(s: Seq<char>, i: int, acc: int, max: int, over: OffsetError)
    requires
        0 <= i <= s.len(),
        0 <= acc,
        hex_from(s, i),
        (acc + 1) * pow16((s.len() - i) as nat) - 1 <= max,
    ensures
        digits_value(s, i, acc, max, over) is Ok,
    decreases s.len() - i,
{
    if i < s.len() {
        let k = (s.len() - i) as nat;
        let p = pow16((k - 1) as nat);
        lemma_pow16_mono(0, (k - 1) as nat);
        let d = hex_digit_value(s[i]).unwrap();
        assert(d <= 15);
        assert(pow16(k) == 16 * p);
        assert(acc * 16 + d <= max && (acc * 16 + d + 1) * p - 1 <= max) by (nonlinear_arith)
            requires
                (acc + 1) * (16 * p) - 1 <= max,
                d <= 15,
                p >= 1,
                acc >= 0,
        ;
        lemma_digits_fit(s, i + 1, acc * 16 + d, max, over);
    }
}

/// Up to sixteen hexadecimal digits always read as an absolute offset.
pub proof fn law_offset_unsigned(s: Seq<char>)
    requires
        1 <= s.len() <= 16,
        hex_from(s, 0),
    ensures
        offset_value(s) matches Ok(Offset::Absolute(_)),
{
    lemma_pow16_mono(s.len(), 16);
    assert(pow16(16) == 0x1_0000_0000_0000_0000) by {
        reveal_with_fuel(pow16, 17);
    }
    assert(hex_digit_value(s[0]) is Some);
    lemma_digits_fit(s, 0, 0, u64::MAX as int, OffsetError::PosOverflow);
}

/// A sign followed by up to fifteen hexadecimal digits always reads as a relative
/// offset.
pub proof fn law_offset_signed(s: Seq<char>)
    requires
        2 <= s.len() <= 16,
        s[0] == '+' || s[0] == '-',
        hex_from(s, 1),
    ensures
        offset_value(s) matches Ok(Offset::Relative(_)),
{
    lemma_pow16_mono((s.len() - 1) as nat, 15);
    assert(pow16(15) == 0x1000_0000_0000_0000) by {
        reveal_with_fuel(pow16, 16);
    }
    lemma_digits_fit(s, 1, 0, i64::MAX as int, OffsetError::PosOverflow);
    lemma_digits_fit(s, 1, 0, i64_magnitude_max(), OffsetError::NegOverflow);
}

} // verus!

verus! {

/// The characters of ASCII text.
pub open spec fn ascii_chars(b: Seq<u8>) -> Seq<char> {
    b.map_values(|x: u8| x as char)
}

pub open spec fn is_lower_hex_byte(x: u8) -> bool {
    (0x30 <= x <= 0x39) || (0x61 <= x <= 0x66)
}

proof fn lemma_lower_digit(v: nat)
    requires
        v < 16,
    ensures
        is_lower_hex_byte(lower_digit(v)),
        hex_digit_value(lower_digit(v) as char) == Some(v),
{
}

proof fn lemma_hex_byte_char(x: u8)
    requires
        is_lower_hex_byte(x),
    ensures
        !is_white_space(x as char),
        !is_ascii_ws(x as char),
        x as char != '|',
        x as char != ':',
        x as char != '\n',
        x as char != '\r',
        utf8_width(x as char) == 1,
        hex_digit_value(x as char) is Some,
{
}

proof fn lemma_hex_padded_digits(n: nat, width: nat)
    ensures
        forall|i: int|
            0 <= i < hex_padded(n, width).len() ==> is_lower_hex_byte(
                #[trigger] hex_padded(n, width)[i],
            ),
    decreases n, width,
{
    if n < 16 && width <= 1 {
        lemma_lower_digit(n);
    } else {
        let w1: nat = if width > 0 { (width - 1) as nat } else { 0 };
        let prev = hex_padded(n / 16, w1);
        lemma_hex_padded_digits(n / 16, w1);
        lemma_lower_digit(n % 16);
        assert(hex_padded(n, width) == prev + seq![lower_digit(n % 16)]);
        assert forall|i: int| 0 <= i < hex_padded(n, width).len() implies is_lower_hex_byte(
            #[trigger] hex_padded(n, width)[i],
        ) by {
            if i < prev.len() {
                assert(hex_padded(n, width)[i] == prev[i]);
            }
        }
    }
}

proof fn lemma_hex_run_digits(b: Seq<u8>)
    ensures
        hex_run(b).len() == 2 * b.len(),
        forall|i: int| 0 <= i < hex_run(b).len() ==> is_lower_hex_byte(#[trigger] hex_run(b)[i]),
    decreases b.len(),
{
    if b.len() > 0 {
        lemma_hex_run_digits(b.drop_first());
        lemma_lower_digit(b[0] as nat / 16);
        lemma_lower_digit(b[0] as nat % 16);
    }
}

proof fn lemma_hex_row_chars(b: Seq<u8>, g: nat)
    ensures
        forall|i: int|
            0 <= i < hex_row(b, g).len() ==> is_lower_hex_byte(#[trigger] hex_row(b, g)[i])
                || hex_row(b, g)[i] == 0x20,
        b.len() > 0 ==> hex_row(b, g).len() > 0 && is_lower_hex_byte(hex_row(b, g)[0])
            && is_lower_hex_byte(hex_row(b, g).last()),
    decreases b.len(),
{
    if g == 0 || b.len() <= g {
        lemma_hex_run_digits(b);
    } else {
        lemma_hex_run_digits(b.take(g as int));
        lemma_hex_row_chars(b.skip(g as int), g);
    }
}

} // verus!

verus! {

proof fn lemma_ascii_chars_add(a: Seq<u8>, b: Seq<u8>)
    ensures
        ascii_chars(a + b) == ascii_chars(a) + ascii_chars(b),
{
    assert(ascii_chars(a + b) =~= ascii_chars(a) + ascii_chars(b));
}

/// A dump row holds only printable ASCII.
proof fn lemma_row_printable(head: Seq<u8>, w: nat, b: Seq<u8>)
    requires
        forall|i: int| 0 <= i < head.len() ==> 0x20 <= #[trigger] head[i] <= 0x7e,
        b.len() > 0,
    ensures
        forall|i: int|
            0 <= i < row_text(head, w, b).len() ==> 0x20 <= #[trigger] row_text(head, w, b)[i]
                <= 0x7e,
        row_text(head, w, b).len() > 0,
{
    let r = row_text(head, w, b);
    let pad = spaces((w - head.len()) as nat);
    let tc = text_column(b);
    assert forall|i: int| 0 <= i < r.len() implies 0x20 <= #[trigger] r[i] <= 0x7e by {
        if i < head.len() {
            assert(r[i] == head[i]);
        } else if i < head.len() + pad.len() {
            assert(r[i] == pad[i - head.len()]);
        } else if i < head.len() + pad.len() + 3 {
        } else {
            assert(r[i] == tc[i - head.len() - pad.len() - 3]);
        }
    }
}

/// What loading reads from a row of a dump: its octets in hexadecimal as the data,
/// and the separator one column after the padded head.
proof fn lemma_row_parts(offset: nat, g: nat, b: Seq<u8>, w: nat)
    requires
        b.len() > 0,
        w >= line_head(offset, g, b).len(),
    ensures
        line_data(ascii_chars(row_text(line_head(offset, g, b), w, b))) == ascii_chars(
            hex_row(b, g),
        ),
        index_of(ascii_chars(row_text(line_head(offset, g, b), w, b)), '|') == w + 1,
        forall|i: int|
            0 <= i < ascii_chars(row_text(line_head(offset, g, b), w, b)).len() ==> #[trigger]
            ascii_chars(row_text(line_head(offset, g, b), w, b))[i] != '\n',
        ascii_chars(row_text(line_head(offset, g, b), w, b)).len() > 0,
        ascii_chars(row_text(line_head(offset, g, b), w, b)).last() != '\r',
        line_offset(ascii_chars(row_text(line_head(offset, g, b), w, b))) == ascii_chars(
            hex_padded(offset, 8),
        ),
{
    let hp = hex_padded(offset, 8);
    let hr = hex_row(b, g);
    let head = line_head(offset, g, b);
    let pad = spaces((w - head.len()) as nat);
    let r = row_text(head, w, b);
    let line = ascii_chars(r);
    lemma_hex_padded_digits(offset, 8);
    lemma_hex_row_chars(b, g);
    assert(head == hp + seq![0x3au8, 0x20u8] + hr);
    let bar: int = head.len() + pad.len() + 1int;
    // Where the separator is.
    assert forall|j: int| 0 <= j < bar implies r[j] != 0x7cu8 by {
        if j < hp.len() {
            assert(r[j] == hp[j]);
        } else if j < hp.len() + 2 {
        } else if j < head.len() {
            assert(r[j] == hr[j - hp.len() - 2]);
        } else if j < head.len() + pad.len() {
            assert(r[j] == pad[j - head.len()]);
        }
    }
    assert(r[bar] == 0x7cu8);
    assert forall|j: int| 0 <= j < bar implies line[j] != '|' by {
        assert(line[j] == r[j] as char);
    }
    lemma_index_of(line, '|', bar);
    // The part before the separator.
    let before = hp + seq![0x3au8, 0x20u8] + hr + pad + seq![0x20u8];
    assert(before_comment(line) =~= ascii_chars(before));
    let bc = before_comment(line);
    assert forall|j: int| 0 <= j < hp.len() implies bc[j] != ':' by {
        assert(bc[j] == hp[j] as char);
        lemma_hex_byte_char(hp[j]);
    }
    assert(bc[hp.len() as int] == ':');
    lemma_index_of(bc, ':', hp.len() as int);
    assert(bc.subrange(0, hp.len() as int) =~= ascii_chars(hp));
    lemma_hex_byte_char(hp[0]);
    lemma_hex_byte_char(hp.last());
    assert(unpadded(ascii_chars(hp)));
    // The data: the hexadecimal between blanks.
    let blank = seq![' '];
    let spc = ascii_chars(pad);
    let hrc = ascii_chars(hr);
    assert(bc.subrange(hp.len() + 1int, bc.len() as int) =~= blank + (hrc + (spc + blank)));
    assert(all_white_space(blank));
    assert(all_white_space(spc + blank)) by {
        assert forall|i: int| 0 <= i < (spc + blank).len() implies is_white_space(
            #[trigger] (spc + blank)[i],
        ) by {
            if i < spc.len() {
                assert(spc[i] == pad[i] as char);
            }
        }
    }
    lemma_trim_start_ws_prefix(blank, hrc + (spc + blank));
    lemma_hex_byte_char(hr[0]);
    assert((hrc + (spc + blank))[0] == hr[0] as char);
    assert(trim_start(hrc + (spc + blank)) == hrc + (spc + blank));
    lemma_trim_end_ws_suffix(hrc, spc + blank);
    lemma_hex_byte_char(hr.last());
    assert(hrc.last() == hr.last() as char);
    assert(trim_end(hrc) == hrc);
    // Only printable characters.
    assert forall|i: int| 0 <= i < head.len() implies 0x20 <= #[trigger] head[i] <= 0x7e by {
        if i < hp.len() {
            assert(head[i] == hp[i]);
        } else if i >= hp.len() + 2 {
            assert(head[i] == hr[i - hp.len() - 2]);
        }
    }
    lemma_row_printable(head, w, b);
    assert forall|i: int| 0 <= i < line.len() implies #[trigger] line[i] != '\n' by {
        assert(line[i] == r[i] as char);
    }
    assert(line.last() == r.last() as char);
}

} // verus!

verus! {

proof fn lemma_utf8_len_narrow(s: Seq<char>)
    requires
        forall|i: int| 0 <= i < s.len() ==> utf8_width(#[trigger] s[i]) == 1,
    ensures
        utf8_len(s) == s.len(),
    decreases s.len(),
{
    if s.len() > 0 {
        lemma_utf8_len_narrow(s.drop_last());
    }
}

/// The characters of `hex_run(b)`: lower-case hexadecimal digits, twice as many as
/// the octets.
proof fn lemma_hex_run_chars(b: Seq<u8>)
    ensures
        ascii_chars(hex_run(b)).len() == 2 * b.len(),
        forall|i: int|
            0 <= i < ascii_chars(hex_run(b)).len() ==> {
                let c = #[trigger] ascii_chars(hex_run(b))[i];
                &&& !is_ascii_ws(c)
                &&& utf8_width(c) == 1
            },
{
    lemma_hex_run_digits(b);
    let s = ascii_chars(hex_run(b));
    assert forall|i: int| 0 <= i < s.len() implies !is_ascii_ws(#[trigger] s[i]) && utf8_width(s[i])
        == 1 by {
        lemma_hex_byte_char(hex_run(b)[i]);
    }
}

/// A run of hexadecimal octets reads back as those octets.
proof fn lemma_group_octets_run(b: Seq<u8>, base: int)
    ensures
        group_octets(ascii_chars(hex_run(b)), base) == (b, Option::<DataError>::None),
    decreases b.len(),
{
    let s = ascii_chars(hex_run(b));
    if b.len() == 0 {
        assert(s =~= Seq::<char>::empty());
        assert(b =~= Seq::<u8>::empty());
    } else {
        let x = b[0];
        lemma_lower_digit(x as nat / 16);
        lemma_lower_digit(x as nat % 16);
        assert(hex_run(b) == hex_octet(x) + hex_run(b.drop_first()));
        lemma_ascii_chars_add(hex_octet(x), hex_run(b.drop_first()));
        assert(s[0] == lower_digit(x as nat / 16) as char);
        assert(s[1] == lower_digit(x as nat % 16) as char);
        lemma_hex_byte_char(lower_digit(x as nat / 16));
        lemma_hex_byte_char(lower_digit(x as nat % 16));
        lemma_hex_run_digits(b.drop_first());
        assert(s.skip(2) =~= ascii_chars(hex_run(b.drop_first())));
        lemma_group_octets_run(b.drop_first(), base + 2);
        assert(octet_value(s[0], s[1]) == Some(x));
        assert(seq![x] + b.drop_first() =~= b);
    }
}

/// The hexadecimal of a row reads back as the row's octets.
proof fn lemma_data_octets_row(b: Seq<u8>, g: nat, base: int)
    ensures
        data_octets_at(ascii_chars(hex_row(b, g)), base) == (b, Option::<DataError>::None),
    decreases b.len(),
{
    let s = ascii_chars(hex_row(b, g));
    if b.len() == 0 {
        assert(s =~= Seq::<char>::empty());
        assert(b =~= Seq::<u8>::empty());
    } else if g == 0 || b.len() <= g {
        assert(hex_row(b, g) == hex_run(b));
        lemma_hex_run_chars(b);
        assert(!is_ascii_ws(s[0]));
        lemma_group_len(s, s.len() as int);
        assert(s.take(s.len() as int) =~= s);
        lemma_utf8_len_narrow(s);
        lemma_group_octets_run(b, base);
        assert(s.skip(s.len() as int) =~= Seq::<char>::empty());
        assert(b + Seq::<u8>::empty() =~= b);
        assert(utf8_len(s.take(s.len() as int)) % 2 == 0);
        // The single group is the whole text, and nothing follows it.
        assert(group_octets(s.take(group_len(s) as int), base) == (
            b,
            Option::<DataError>::None,
        ));
        assert(data_octets_at(s.skip(group_len(s) as int), base + group_len(s)) == (
            Seq::<u8>::empty(),
            Option::<DataError>::None,
        ));
    } else {
        let first = b.take(g as int);
        let rest = b.skip(g as int);
        let r0 = ascii_chars(hex_run(first));
        let s2 = ascii_chars(hex_row(rest, g));
        lemma_ascii_chars_add(hex_run(first) + seq![0x20u8], hex_row(rest, g));
        lemma_ascii_chars_add(hex_run(first), seq![0x20u8]);
        assert(s == r0 + seq![' '] + s2);
        lemma_hex_run_chars(first);
        assert(s[r0.len() as int] == ' ');
        lemma_group_len(s, r0.len() as int);
        assert(s.take(r0.len() as int) =~= r0);
        lemma_utf8_len_narrow(r0);
        lemma_group_octets_run(first, base);
        let tail = s.skip(r0.len() as int);
        assert(tail =~= seq![' '] + s2);
        assert(tail.drop_first() =~= s2);
        lemma_data_octets_row(rest, g, base + r0.len() + 1);
        assert(data_octets_at(tail, base + r0.len()) == data_octets_at(s2, base + r0.len() + 1));
        assert(first + rest =~= b);
        assert(!is_ascii_ws(s[0]));
        assert(utf8_len(s.take(group_len(s) as int)) % 2 == 0);
    }
}

} // verus!

verus! {

/// The characters of each of `rows`.
pub open spec fn ascii_lines(rows: Seq<Seq<u8>>) -> Seq<Seq<char>> {
    rows.map_values(|r: Seq<u8>| ascii_chars(r))
}

proof fn lemma_ascii_join(rows: Seq<Seq<u8>>)
    ensures
        ascii_chars(join_lines(rows, 0x0au8)) == join_lines(ascii_lines(rows), '\n'),
    decreases rows.len(),
{
    if rows.len() > 0 {
        lemma_ascii_join(rows.drop_first());
        assert(ascii_lines(rows).drop_first() =~= ascii_lines(rows.drop_first()));
        lemma_ascii_chars_add(rows[0] + seq![0x0au8], join_lines(rows.drop_first(), 0x0au8));
        lemma_ascii_chars_add(rows[0], seq![0x0au8]);
        assert(ascii_chars(seq![0x0au8]) =~= seq!['\n']);
    } else {
        assert(ascii_chars(join_lines(rows, 0x0au8)) =~= Seq::<char>::empty());
    }
}

/// Lines joined with line feeds split back into those lines, when none of them
/// holds a line feed or ends with a carriage return.
pub proof fn lemma_text_lines_join(ls: Seq<Seq<char>>)
    requires
        forall|k: int, i: int|
            0 <= k < ls.len() && 0 <= i < ls[k].len() ==> #[trigger] ls[k][i] != '\n',
        forall|k: int|
            0 <= k < ls.len() ==> (#[trigger] ls[k]).len() == 0 || ls[k].last() != '\r',
    ensures
        text_lines(join_lines(ls, '\n')) == ls,
    decreases ls.len(),
{
    if ls.len() == 0 {
        assert(join_lines(ls, '\n') =~= Seq::<char>::empty());
        assert(ls =~= Seq::<Seq<char>>::empty());
    } else {
        let l0 = ls[0];
        let rest = join_lines(ls.drop_first(), '\n');
        let s = join_lines(ls, '\n');
        assert(s == l0 + seq!['\n'] + rest);
        assert forall|i: int| 0 <= i < l0.len() implies s[i] != '\n' by {
            assert(s[i] == l0[i]);
            assert(ls[0][i] != '\n');
        }
        lemma_index_of(s, '\n', l0.len() as int);
        assert(s.subrange(0, l0.len() as int) =~= l0);
        assert(s.subrange(l0.len() + 1int, s.len() as int) =~= rest);
        lemma_text_lines_join(ls.drop_first());
        assert(seq![l0] + ls.drop_first() =~= ls);
    }
}

/// What holds of the rows of every dump: no line feeds, no final carriage return,
/// separators at or right of `width` and never moving left, and data that loads
/// back as the dumped octets.
proof fn lemma_dump_rows_facts(input: Seq<u8>, columns: nat, group: nat, offset: nat, width: nat)
    requires
        columns > 0,
    ensures
        forall|k: int, i: int|
            0 <= k < ascii_lines(dump_rows(input, columns, group, offset, width)).len() && 0 <= i
                < ascii_lines(dump_rows(input, columns, group, offset, width))[k].len()
                ==> #[trigger] ascii_lines(dump_rows(input, columns, group, offset, width))[k][i]
                != '\n',
        forall|k: int|
            0 <= k < ascii_lines(dump_rows(input, columns, group, offset, width)).len() ==> {
                let l = #[trigger] ascii_lines(dump_rows(input, columns, group, offset, width))[k];
                &&& l.len() > 0
                &&& l.last() != '\r'
                &&& index_of(l, '|') >= width + 1
            },
        forall|k: int, j: int|
            0 <= k <= j < ascii_lines(dump_rows(input, columns, group, offset, width)).len()
                ==> index_of(
                #[trigger] ascii_lines(dump_rows(input, columns, group, offset, width))[k],
                '|',
            ) <= index_of(
                #[trigger] ascii_lines(dump_rows(input, columns, group, offset, width))[j],
                '|',
            ),
        load_lines(ascii_lines(dump_rows(input, columns, group, offset, width))) == (
            input,
            Option::<DataError>::None,
        ),
    decreases input.len(),
{
    let rows = dump_rows(input, columns, group, offset, width);
    let ls = ascii_lines(rows);
    if input.len() == 0 {
        assert(ls =~= Seq::<Seq<char>>::empty());
        assert(input =~= Seq::<u8>::empty());
    } else {
        let k = min_nat(columns, input.len());
        let row = input.take(k as int);
        let head = line_head(offset, group, row);
        let w = max_nat(width, head.len());
        let rest_input = input.skip(k as int);
        let rest_rows = dump_rows(rest_input, columns, group, offset + k, w);
        lemma_dump_rows_facts(rest_input, columns, group, offset + k, w);
        lemma_row_parts(offset, group, row, w);
        let l0 = ascii_chars(row_text(head, w, row));
        assert(rows == seq![row_text(head, w, row)] + rest_rows);
        assert(ls[0] == l0);
        assert(ls.drop_first() =~= ascii_lines(rest_rows));
        assert forall|j: int| 0 <= j < ls.len() implies #[trigger] ls[j] == if j == 0 {
            l0
        } else {
            ascii_lines(rest_rows)[j - 1]
        } by {}
        lemma_data_octets_row(row, group, 0);
        assert(row + rest_input =~= input);
    }
}

/// Loading a dump gives back the dumped octets, whatever the number of octets per
/// line, the grouping and the starting offset.
pub proof fn law_load_dump(input: Seq<u8>, columns: nat, group: nat, offset: nat)
    requires
        columns > 0,
    ensures
        load_lines(text_lines(ascii_chars(dump_text(input, columns, group, offset, 0)))) == (
            input,
            Option::<DataError>::None,
        ),
{
    let rows = dump_rows(input, columns, group, offset, 0);
    lemma_dump_text_rows(input, columns, group, offset, 0);
    lemma_ascii_join(rows);
    lemma_dump_rows_facts(input, columns, group, offset, 0);
    lemma_text_lines_join(ascii_lines(rows));
}

/// In the lines of a dump, the ` | ` separator never moves left from one line to a
/// later one.
pub proof fn law_dump_alignment(input: Seq<u8>, columns: nat, group: nat, offset: nat)
    requires
        columns > 0,
    ensures
        forall|i: int, j: int|
            0 <= i <= j < text_lines(ascii_chars(dump_text(input, columns, group, offset, 0))).len()
                ==> index_of(
                #[trigger] text_lines(ascii_chars(dump_text(input, columns, group, offset, 0)))[i],
                '|',
            ) <= index_of(
                #[trigger] text_lines(ascii_chars(dump_text(input, columns, group, offset, 0)))[j],
                '|',
            ),
{
    let rows = dump_rows(input, columns, group, offset, 0);
    lemma_dump_text_rows(input, columns, group, offset, 0);
    lemma_ascii_join(rows);
    lemma_dump_rows_facts(input, columns, group, offset, 0);
    lemma_text_lines_join(ascii_lines(rows));
}

} // verus!

verus! {

/// The value of a string of hexadecimal digits.
pub open spec fn hex_number(s: Seq<char>) -> nat
    decreases s.len(),
{
    if s.len() == 0 {
        0
    } else {
        hex_number(s.drop_last()) * 16 + match hex_digit_value(s.last()) {
            Some(d) => d,
            None => 0,
        }
    }
}

proof fn lemma_hex_number_padded(n: nat, width: nat)
    ensures
        hex_number(ascii_chars(hex_padded(n, width))) == n,
        hex_from(ascii_chars(hex_padded(n, width)), 0),
        ascii_chars(hex_padded(n, width)).len() > 0,
    decreases n, width,
{
    let s = ascii_chars(hex_padded(n, width));
    lemma_hex_padded_digits(n, width);
    assert(hex_number(Seq::<char>::empty()) == 0);
    if n < 16 && width <= 1 {
        lemma_lower_digit(n);
        assert(s.drop_last() =~= Seq::<char>::empty());
        assert(s.last() == lower_digit(n) as char);
        assert(hex_number(s) == hex_number(s.drop_last()) * 16 + n);
    } else {
        let w1: nat = if width > 0 { (width - 1) as nat } else { 0 };
        lemma_hex_number_padded(n / 16, w1);
        lemma_lower_digit(n % 16);
        lemma_ascii_chars_add(hex_padded(n / 16, w1), seq![lower_digit(n % 16)]);
        assert(s.drop_last() =~= ascii_chars(hex_padded(n / 16, w1)));
        assert(s.last() == lower_digit(n % 16) as char);
        assert(hex_number(s) == hex_number(s.drop_last()) * 16 + n % 16);
    }
    assert forall|j: int| 0 <= j < s.len() implies (#[trigger] hex_digit_value(s[j])) is Some by {
        lemma_hex_byte_char(hex_padded(n, width)[j]);
    }
}

proof fn lemma_hex_number_split(a: Seq<char>, b: Seq<char>)
    ensures
        hex_number(a + b) == hex_number(a) * pow16(b.len()) + hex_number(b),
    decreases b.len(),
{
    if b.len() == 0 {
        assert(a + b =~= a);
        assert(pow16(0) == 1);
        assert(hex_number(b) == 0);
    } else {
        assert((a + b).drop_last() =~= a + b.drop_last());
        lemma_hex_number_split(a, b.drop_last());
        let p = pow16((b.len() - 1) as nat);
        let ha = hex_number(a);
        let hb = hex_number(b.drop_last());
        let d = match hex_digit_value(b.last()) {
            Some(d) => d,
            None => 0,
        };
        assert((a + b).last() == b.last());
        assert(hex_number(a + b) == hex_number((a + b).drop_last()) * 16 + d);
        assert(hex_number(b) == hb * 16 + d);
        assert(pow16(b.len()) == 16 * p);
        assert((ha * p + hb) * 16 + d == ha * (16 * p) + (hb * 16 + d)) by (nonlinear_arith);
    }
}

/// Reading all-digit text from `i`, after the value `acc`, gives the value of the
/// whole when it is at most `max`.
proof fn lemma_digits_value_exact(s: Seq<char>, i: int, acc: nat, max: int, over: OffsetError)
    requires
        0 <= i <= s.len(),
        hex_from(s, i),
        acc * pow16((s.len() - i) as nat) + hex_number(s.subrange(i, s.len() as int)) <= max,
    ensures
        digits_value(s, i, acc as int, max, over) == Ok::<int, OffsetError>(
            (acc * pow16((s.len() - i) as nat) + hex_number(s.subrange(i, s.len() as int))) as int,
        ),
    decreases s.len() - i,
{
    let k = (s.len() - i) as nat;
    if i == s.len() {
        assert(s.subrange(i, s.len() as int) =~= Seq::<char>::empty());
        assert(pow16(0) == 1);
        assert(hex_number(Seq::<char>::empty()) == 0);
        assert(pow16((s.len() - i) as nat) == 1);
        assert(acc * pow16((s.len() - i) as nat) == acc) by (nonlinear_arith)
            requires
                pow16((s.len() - i) as nat) == 1,
        ;
    } else {
        let rest = s.subrange(i + 1, s.len() as int);
        let d = hex_digit_value(s[i]).unwrap();
        assert(s.subrange(i, s.len() as int) =~= seq![s[i]] + rest);
        lemma_hex_number_split(seq![s[i]], rest);
        assert(seq![s[i]].drop_last() =~= Seq::<char>::empty());
        assert(hex_number(Seq::<char>::empty()) == 0);
        assert(hex_number(seq![s[i]]) == d);
        assert(pow16(k) == 16 * pow16((k - 1) as nat));
        let p = pow16((k - 1) as nat);
        lemma_pow16_mono(0, (k - 1) as nat);
        let hr = hex_number(rest);
        assert(acc * (16 * p) + (d * p + hr) == (acc * 16 + d) * p + hr) by (nonlinear_arith);
        assert(acc * 16 + d <= (acc * 16 + d) * p) by (nonlinear_arith)
            requires
                p >= 1,
        ;
        assert(rest.len() == k - 1);
        assert(hex_number(s.subrange(i, s.len() as int)) == d * p + hr);
        assert(s.subrange(i + 1, s.len() as int) == rest);
        lemma_digits_value_exact(s, i + 1, acc * 16 + d, max, over);
        assert(acc * 16 + d <= max);
        assert(digits_value(s, i, acc as int, max, over) == digits_value(
            s,
            i + 1,
            (acc * 16 + d) as int,
            max,
            over,
        ));
        assert(pow16((s.len() - (i + 1)) as nat) == p);
        let v1 = (acc * 16 + d) * p + hr;
        assert(digits_value(s, i + 1, (acc * 16 + d) as int, max, over) == Ok::<int, OffsetError>(
            v1 as int,
        ));
        assert(acc * pow16(k) + hex_number(s.subrange(i, s.len() as int)) == v1);
    }
}

/// The offset that a dump writes reads back as the same absolute offset.
proof fn lemma_offset_of_head(n: nat)
    requires
        n <= u64::MAX,
    ensures
        offset_value(ascii_chars(hex_padded(n, 8))) == Ok::<Offset, OffsetError>(
            Offset::Absolute(n as u64),
        ),
{
    let s = ascii_chars(hex_padded(n, 8));
    lemma_hex_number_padded(n, 8);
    lemma_hex_padded_digits(n, 8);
    lemma_hex_byte_char(hex_padded(n, 8)[0]);
    assert(s.subrange(0, s.len() as int) =~= s);
    lemma_digits_value_exact(s, 0, 0, u64::MAX as int, OffsetError::PosOverflow);
}

} // verus!

verus! {

/// Two writes, the second where the first ended, are one write of both.
pub proof fn lemma_write_at_concat(t: Seq<u8>, p: nat, a: Seq<u8>, b: Seq<u8>)
    ensures
        write_at(write_at(t, p, a), p + a.len(), b) == write_at(t, p, a + b),
{
    if a.len() == 0 {
        assert(a + b =~= b);
    } else if b.len() == 0 {
        assert(a + b =~= a);
    } else {
        assert(write_at(write_at(t, p, a), p + a.len(), b) =~= write_at(t, p, a + b));
    }
}

/// What a patch does with one row of a dump: seek to the row's offset plus the
/// global offset and write the row's octets.
proof fn lemma_patch_step_row(
    last: Option<u64>,
    global: i64,
    offset: nat,
    g: nat,
    b: Seq<u8>,
    w: nat,
)
    requires
        b.len() > 0,
        w >= line_head(offset, g, b).len(),
        offset <= u64::MAX,
        0 <= offset + global <= u64::MAX,
    ensures
        patch_step(last, global, ascii_chars(row_text(line_head(offset, g, b), w, b))) == (
            Some(offset as u64),
            Some((offset + global) as u64),
            b,
            Option::<PatchError>::None,
        ),
{
    let l = ascii_chars(row_text(line_head(offset, g, b), w, b));
    lemma_row_parts(offset, g, b, w);
    lemma_offset_of_head(offset);
    lemma_hex_number_padded(offset, 8);
    lemma_data_octets_row(b, g, 0);
}

proof fn lemma_patch_rows(
    input: Seq<u8>,
    columns: nat,
    group: nat,
    offset: nat,
    width: nat,
    global: i64,
    last: Option<u64>,
    pos: nat,
    target: Seq<u8>,
)
    requires
        columns > 0,
        offset + input.len() <= u64::MAX,
        0 <= offset + global,
        offset + global + input.len() <= usize::MAX,
    ensures
        patch_lines(
            ascii_lines(dump_rows(input, columns, group, offset, width)),
            global,
            last,
            pos,
            target,
        ) == (write_at(target, (offset + global) as nat, input), Option::<PatchError>::None),
    decreases input.len(),
{
    let rows = dump_rows(input, columns, group, offset, width);
    let ls = ascii_lines(rows);
    if input.len() == 0 {
        assert(ls =~= Seq::<Seq<char>>::empty());
    } else {
        let k = min_nat(columns, input.len());
        let row = input.take(k as int);
        let head = line_head(offset, group, row);
        let w = max_nat(width, head.len());
        let rest_input = input.skip(k as int);
        let rest_rows = dump_rows(rest_input, columns, group, offset + k, w);
        assert(rows == seq![row_text(head, w, row)] + rest_rows);
        assert(ls[0] == ascii_chars(row_text(head, w, row)));
        assert(ls.drop_first() =~= ascii_lines(rest_rows));
        lemma_patch_step_row(last, global, offset, group, row, w);
        let p = (offset + global) as nat;
        let t1 = write_at(target, p, row);
        lemma_patch_rows(
            rest_input,
            columns,
            group,
            offset + k,
            w,
            global,
            Some(offset as u64),
            p + k,
            t1,
        );
        lemma_write_at_concat(target, p, row, rest_input);
        assert(row + rest_input =~= input);
    }
}

/// Patching a target with a dump writes the dumped octets at the dumped offset plus
/// the global offset, zeros filling any gap past the target's end.
pub proof fn law_patch_dump(
    input: Seq<u8>,
    columns: nat,
    group: nat,
    offset: nat,
    global: i64,
    target: Seq<u8>,
)
    requires
        columns > 0,
        offset + input.len() <= u64::MAX,
        0 <= offset + global,
        offset + global + input.len() <= usize::MAX,
    ensures
        patch_lines(
            text_lines(ascii_chars(dump_text(input, columns, group, offset, 0))),
            global,
            None,
            0,
            target,
        ) == (write_at(target, (offset + global) as nat, input), Option::<PatchError>::None),
{
    let rows = dump_rows(input, columns, group, offset, 0);
    lemma_dump_text_rows(input, columns, group, offset, 0);
    lemma_ascii_join(rows);
    lemma_dump_rows_facts(input, columns, group, offset, 0);
    lemma_text_lines_join(ascii_lines(rows));
    lemma_patch_rows(input, columns, group, offset, 0, global, None, 0, target);
}

} // verus!

verus! {

/// Every line that the printer writes is its head, spaces up to `width`, ` | `,
/// then one character per octet (the octet itself when it is an ASCII graphic
/// character or a space, `.` otherwise), then a line feed.
pub proof fn law_dump_line_layout(head: Seq<u8>, width: nat, bytes: Seq<u8>)
    requires
        width >= head.len(),
    ensures
        line_text(head, width, bytes).len() == width + 3 + bytes.len() + 1,
        line_text(head, width, bytes).subrange(0, head.len() as int) == head,
        forall|i: int|
            head.len() <= i < width ==> #[trigger] line_text(head, width, bytes)[i] == 0x20u8,
        line_text(head, width, bytes)[width as int] == 0x20u8,
        line_text(head, width, bytes)[width + 1int] == 0x7cu8,
        line_text(head, width, bytes)[width + 2int] == 0x20u8,
        forall|i: int|
            0 <= i < bytes.len() ==> #[trigger] line_text(head, width, bytes)[width + 3 + i] == if 0x20
                <= bytes[i] <= 0x7e {
                bytes[i]
            } else {
                0x2eu8
            },
        line_text(head, width, bytes)[width + 3int + bytes.len()] == 0x0au8,
{
    let l = line_text(head, width, bytes);
    let pad = spaces((width - head.len()) as nat);
    let tc = text_column(bytes);
    assert(l == head + pad + seq![0x20u8, 0x7cu8, 0x20u8] + tc + seq![0x0au8]);
    assert(l.subrange(0, head.len() as int) =~= head);
    assert forall|i: int| head.len() <= i < width implies #[trigger] l[i] == 0x20u8 by {
        assert(l[i] == pad[i - head.len()]);
    }
    assert forall|i: int| 0 <= i < bytes.len() implies #[trigger] l[width + 3 + i] == if 0x20
        <= bytes[i] <= 0x7e {
        bytes[i]
    } else {
        0x2eu8
    } by {
        assert(l[width + 3 + i] == tc[i]);
    }
}

/// An ASCII hexadecimal digit, of either case.
pub open spec fn is_hex_char(c: char) -> bool {
    ('0' <= c && c <= '9') || ('a' <= c && c <= 'f') || ('A' <= c && c <= 'F')
}

/// The value of a hexadecimal digit, from its character code.
pub open spec fn digit_of(c: char) -> int {
    if c <= '9' {
        c as int - 48
    } else if c <= 'F' {
        c as int - 55
    } else {
        c as int - 87
    }
}

/// The upper-case form of an ASCII letter; any other character as it is.
pub open spec fn ascii_upper(c: char) -> char {
    if 'a' <= c && c <= 'z' {
        (c as u32 - 32) as char
    } else {
        c
    }
}

/// Two hexadecimal digits, of either case, are the octet `16 * high + low`; read
/// as data, they give exactly that octet.
pub proof fn law_octet_digits(h: char, l: char)
    requires
        is_hex_char(h),
        is_hex_char(l),
    ensures
        octet_value(h, l) == Some((16 * digit_of(h) + digit_of(l)) as u8),
        data_octets_at(seq![h, l], 0) == (
            seq![(16 * digit_of(h) + digit_of(l)) as u8],
            Option::<DataError>::None,
        ),
{
    let s = seq![h, l];
    lemma_group_len(s, 2);
    assert(s.take(2) =~= s);
    lemma_utf8_len_narrow(s);
    assert(s.skip(2) =~= Seq::<char>::empty());
    assert(group_octets(Seq::<char>::empty(), 2) == (Seq::<u8>::empty(), Option::<DataError>::None));
    let b = (16 * digit_of(h) + digit_of(l)) as u8;
    assert(seq![b] + Seq::<u8>::empty() =~= seq![b]);
    assert(!is_ascii_ws(s[0]));
    assert(utf8_width(s[0]) == 1 && utf8_width(s[1]) == 1);
    assert(group_octets(s, 0) == (seq![b], Option::<DataError>::None));
    assert(data_octets_at(Seq::<char>::empty(), 2) == (
        Seq::<u8>::empty(),
        Option::<DataError>::None,
    ));
}

/// Reading an octet does not depend on the case of its letters.
pub proof fn law_octet_case_insensitive(h: char, l: char)
    ensures
        octet_value(ascii_upper(h), ascii_upper(l)) == octet_value(h, l),
{
}

} // verus!

verus! {

/// The characters with the Unicode property White_Space: tab, line feed, line
/// tabulation, form feed, carriage return, space, next line, no-break space, ogham
/// space mark, the spaces from en quad to hair space, line separator, paragraph
/// separator, narrow no-break space, medium mathematical space and ideographic
/// space.
pub open spec fn unicode_white_space(c: char) -> bool {
    c == '\t' || c == '\n' || c == '\u{0B}' || c == '\u{0C}' || c == '\r' || c == ' ' || c
        == '\u{85}' || c == '\u{A0}' || c == '\u{1680}' || ('\u{2000}' <= c && c <= '\u{200A}')
        || c == '\u{2028}' || c == '\u{2029}' || c == '\u{202F}' || c == '\u{205F}' || c
        == '\u{3000}'
}

proof fn lemma_white_space_chars(c: char)
    ensures
        unicode_white_space(c) == is_white_space(c),
{
}

proof fn lemma_trim_ends(s: Seq<char>)
    ensures
        trim(s).len() > 0 ==> !is_white_space(trim(s)[0]) && !is_white_space(trim(s).last()),
{
    lemma_trim_start_first(s);
    lemma_trim_end_keeps_first(trim_start(s));
}

proof fn lemma_trim_start_first(s: Seq<char>)
    ensures
        trim_start(s).len() > 0 ==> !is_white_space(trim_start(s)[0]),
    decreases s.len(),
{
    if s.len() > 0 && is_white_space(s[0]) {
        lemma_trim_start_first(s.drop_first());
    }
}

proof fn lemma_trim_end_keeps_first(s: Seq<char>)
    ensures
        trim_end(s).len() > 0 ==> !is_white_space(trim_end(s).last()) && trim_end(s)[0] == s[0],
    decreases s.len(),
{
    if s.len() > 0 && is_white_space(s.last()) {
        lemma_trim_end_keeps_first(s.drop_last());
    }
}

/// The offset and the data of any line neither begin nor end with a White_Space
/// character.
pub proof fn law_parts_unpadded(line: Seq<char>)
    ensures
        line_offset(line).len() > 0 ==> !unicode_white_space(line_offset(line)[0])
            && !unicode_white_space(line_offset(line).last()),
        line_data(line).len() > 0 ==> !unicode_white_space(line_data(line)[0])
            && !unicode_white_space(line_data(line).last()),
{
    let rest = before_comment(line);
    let q = index_of(rest, ':');
    crate::text::lemma_index_of_bounds(rest, ':');
    if q < rest.len() {
        lemma_trim_ends(rest.subrange(0, q as int));
        lemma_trim_ends(rest.subrange(q + 1int, rest.len() as int));
    } else {
        lemma_trim_ends(rest);
    }
    lemma_white_space_chars(line_offset(line)[0]);
    lemma_white_space_chars(line_offset(line).last());
    lemma_white_space_chars(line_data(line)[0]);
    lemma_white_space_chars(line_data(line).last());
}

/// `x` between runs of White_Space trims to `x`, when `x` itself neither begins nor
/// ends with White_Space.
proof fn lemma_trim_between(u: Seq<char>, x: Seq<char>, v: Seq<char>)
    requires
        forall|i: int| 0 <= i < u.len() ==> unicode_white_space(#[trigger] u[i]),
        forall|i: int| 0 <= i < v.len() ==> unicode_white_space(#[trigger] v[i]),
        x.len() > 0 ==> !unicode_white_space(x[0]) && !unicode_white_space(x.last()),
    ensures
        trim(u + x + v) == x,
{
    assert forall|i: int| 0 <= i < u.len() implies is_white_space(#[trigger] u[i]) by {
        lemma_white_space_chars(u[i]);
    }
    assert forall|i: int| 0 <= i < v.len() implies is_white_space(#[trigger] v[i]) by {
        lemma_white_space_chars(v[i]);
    }
    assert(u + x + v =~= u + (x + v));
    lemma_trim_start_ws_prefix(u, x + v);
    if x.len() > 0 {
        lemma_white_space_chars(x[0]);
        lemma_white_space_chars(x.last());
        assert((x + v)[0] == x[0]);
        lemma_trim_end_ws_suffix(x, v);
    } else {
        assert(x + v =~= v + Seq::<char>::empty());
        lemma_trim_start_ws_prefix(v, Seq::<char>::empty());
        assert(x =~= Seq::<char>::empty());
    }
}

/// White_Space around an offset and around data is dropped, and nothing else: in
/// `u1 offset v1 : u2 data v2`, with the `u`s and `v`s made of White_Space, the
/// offset and the data are recognized as they are.
pub proof fn law_parts_trimmed(
    u1: Seq<char>,
    o: Seq<char>,
    v1: Seq<char>,
    u2: Seq<char>,
    d: Seq<char>,
    v2: Seq<char>,
)
    requires
        forall|i: int| 0 <= i < u1.len() ==> unicode_white_space(#[trigger] u1[i]),
        forall|i: int| 0 <= i < v1.len() ==> unicode_white_space(#[trigger] v1[i]),
        forall|i: int| 0 <= i < u2.len() ==> unicode_white_space(#[trigger] u2[i]),
        forall|i: int| 0 <= i < v2.len() ==> unicode_white_space(#[trigger] v2[i]),
        o.len() > 0 ==> !unicode_white_space(o[0]) && !unicode_white_space(o.last()),
        d.len() > 0 ==> !unicode_white_space(d[0]) && !unicode_white_space(d.last()),
        forall|i: int| 0 <= i < o.len() ==> o[i] != ':' && o[i] != '|',
        forall|i: int| 0 <= i < d.len() ==> d[i] != '|',
    ensures
        line_offset(u1 + o + v1 + seq![':'] + u2 + d + v2) == o,
        line_data(u1 + o + v1 + seq![':'] + u2 + d + v2) == d,
        line_comment(u1 + o + v1 + seq![':'] + u2 + d + v2) == Seq::<char>::empty(),
{
    let head = u1 + o + v1;
    let tail = u2 + d + v2;
    let line = head + seq![':'] + tail;
    assert(line =~= u1 + o + v1 + seq![':'] + u2 + d + v2);
    assert forall|j: int| 0 <= j < line.len() implies line[j] != '|' by {
        if j < u1.len() {
            assert(line[j] == u1[j]);
        } else if j < u1.len() + o.len() {
            assert(line[j] == o[j - u1.len()]);
        } else if j < head.len() {
            assert(line[j] == v1[j - u1.len() - o.len()]);
        } else if j == head.len() {
        } else if j < head.len() + 1 + u2.len() {
            assert(line[j] == u2[j - head.len() - 1]);
        } else if j < head.len() + 1 + u2.len() + d.len() {
            assert(line[j] == d[j - head.len() - 1 - u2.len()]);
        } else {
            assert(line[j] == v2[j - head.len() - 1 - u2.len() - d.len()]);
        }
    }
    lemma_index_of(line, '|', line.len() as int);
    assert(before_comment(line) =~= line);
    assert forall|j: int| 0 <= j < head.len() implies line[j] != ':' by {
        if j < u1.len() {
            assert(line[j] == u1[j]);
        } else if j < u1.len() + o.len() {
            assert(line[j] == o[j - u1.len()]);
        } else {
            assert(line[j] == v1[j - u1.len() - o.len()]);
        }
    }
    lemma_index_of(line, ':', head.len() as int);
    assert(line.subrange(0, head.len() as int) =~= head);
    assert(line.subrange(head.len() + 1int, line.len() as int) =~= tail);
    lemma_trim_between(u1, o, v1);
    lemma_trim_between(u2, d, v2);
}

} // verus!

verus! {

/// Loading is the octets of every line's data, one line after another, whatever the
/// line's offset (or its lack of one), when no line's data is in error.
pub proof fn law_load_concatenates(ls: Seq<Seq<char>>)
    requires
        forall|k: int| 0 <= k < ls.len() ==> data_error(line_data(#[trigger] ls[k])) is None,
    ensures
        load_lines(ls) == (
            ls.map_values(|l: Seq<char>| data_octets(line_data(l))).flatten(),
            Option::<DataError>::None,
        ),
    decreases ls.len(),
{
    let f = |l: Seq<char>| data_octets(line_data(l));
    if ls.len() == 0 {
        assert(ls.map_values(f) =~= Seq::<Seq<u8>>::empty());
    } else {
        assert(data_error(line_data(ls[0])) is None);
        assert forall|k: int| 0 <= k < ls.drop_first().len() implies data_error(
            line_data(#[trigger] ls.drop_first()[k]),
        ) is None by {
            assert(ls.drop_first()[k] == ls[k + 1]);
        }
        law_load_concatenates(ls.drop_first());
        assert(ls.map_values(f).drop_first() =~= ls.drop_first().map_values(f));
        assert(ls.map_values(f).first() == f(ls[0]));
    }
}

} // verus!

verus! {

proof fn lemma_hex_number_bound(s: Seq<char>)
    requires
        hex_from(s, 0),
    ensures
        hex_number(s) < pow16(s.len()),
    decreases s.len(),
{
    if s.len() == 0 {
        assert(pow16(0) == 1);
    } else {
        assert forall|j: int| 0 <= j < s.drop_last().len() implies (#[trigger] hex_digit_value(
            s.drop_last()[j],
        )) is Some by {
            assert(s.drop_last()[j] == s[j]);
        }
        lemma_hex_number_bound(s.drop_last());
        let d = hex_digit_value(s.last()).unwrap();
        let h = hex_number(s.drop_last());
        let p = pow16((s.len() - 1) as nat);
        assert(hex_digit_value(s[s.len() - 1]) is Some);
        assert(h * 16 + d < 16 * p) by (nonlinear_arith)
            requires
                h < p,
                d <= 15,
        ;
    }
}

/// A line with an absolute offset and no data moves the write position there: the
/// data of the next line, which has no offset, is written from that offset plus the
/// global offset, the gap past the target's end filled with zeros.
pub proof fn law_patch_offset_then_data(o: Seq<char>, d: Seq<char>, global: i64, t: Seq<u8>)
    requires
        1 <= o.len() <= 16,
        hex_from(o, 0),
        forall|i: int| 0 <= i < d.len() ==> d[i] != ':' && d[i] != '|',
        data_error(trim(d)) is None,
        0 <= hex_number(o) + global,
        hex_number(o) + global + data_octets(trim(d)).len() <= usize::MAX,
    ensures
        ({
            let r = patch_lines(seq![o + seq![':'], d], global, None, 0, t).0;
            let p = hex_number(o) + global;
            let b = data_octets(trim(d));
            &&& patch_lines(seq![o + seq![':'], d], global, None, 0, t).1 is None
            &&& r.len() == if b.len() > 0 && p + b.len() > t.len() {
                p + b.len()
            } else {
                t.len() as int
            }
            &&& forall|i: int|
                0 <= i < r.len() ==> #[trigger] r[i] == if p <= i < p + b.len() {
                    b[i - p]
                } else if i < t.len() {
                    t[i]
                } else {
                    0u8
                }
        }),
{
    let l1 = o + seq![':'];
    let v = hex_number(o);
    let b = data_octets(trim(d));
    // The first line: its offset is `o`, and it has no data.
    lemma_hex_number_bound(o);
    lemma_pow16_mono(o.len(), 16);
    assert(pow16(16) == 0x1_0000_0000_0000_0000) by {
        reveal_with_fuel(pow16, 17);
    }
    assert(hex_digit_value(o[0]) is Some);
    assert forall|j: int| 0 <= j < l1.len() implies l1[j] != '|' by {
        if j < o.len() {
            assert(l1[j] == o[j]);
            assert(hex_digit_value(o[j]) is Some);
        }
    }
    lemma_index_of(l1, '|', l1.len() as int);
    assert(before_comment(l1) =~= l1);
    assert forall|j: int| 0 <= j < o.len() implies l1[j] != ':' by {
        assert(l1[j] == o[j]);
        assert(hex_digit_value(o[j]) is Some);
    }
    lemma_index_of(l1, ':', o.len() as int);
    assert(l1.subrange(0, o.len() as int) =~= o);
    assert(l1.subrange(o.len() + 1int, l1.len() as int) =~= Seq::<char>::empty());
    assert(hex_digit_value(o.last()) is Some);
    lemma_white_space_chars(o[0]);
    lemma_white_space_chars(o.last());
    lemma_trim_between(Seq::empty(), o, Seq::empty());
    assert(Seq::<char>::empty() + o + Seq::<char>::empty() =~= o);
    assert(trim(Seq::<char>::empty()) =~= Seq::<char>::empty());
    assert(data_octets_at(Seq::<char>::empty(), 0) == (
        Seq::<u8>::empty(),
        Option::<DataError>::None,
    ));
    assert(o.subrange(0, o.len() as int) =~= o);
    lemma_digits_value_exact(o, 0, 0, u64::MAX as int, OffsetError::PosOverflow);
    assert(0 * pow16(o.len()) == 0);
    assert(offset_value(o) == Ok::<Offset, OffsetError>(Offset::Absolute(v as u64)));
    assert(patch_step(None, global, l1) == (
        Some(v as u64),
        Some((v + global) as u64),
        Seq::<u8>::empty(),
        Option::<PatchError>::None,
    ));
    // The second line: no offset, and `d` trimmed as its data.
    lemma_index_of(d, '|', d.len() as int);
    assert(before_comment(d) =~= d);
    lemma_index_of(d, ':', d.len() as int);
    assert(patch_step(Some(v as u64), global, d) == (
        Some(v as u64),
        Option::<u64>::None,
        b,
        Option::<PatchError>::None,
    ));
    let p = (v + global) as nat;
    let lines = seq![l1, d];
    assert(lines.drop_first() =~= seq![d]);
    assert(seq![d].drop_first() =~= Seq::<Seq<char>>::empty());
    assert(write_at(t, p, Seq::empty()) == t);
    assert(patch_lines(lines, global, None, 0, t) == patch_lines(
        seq![d],
        global,
        Some(v as u64),
        p,
        t,
    ));
    assert(seq![d][0] == d);
    assert(p <= usize::MAX);
    let t2 = write_at(t, p, b);
    assert(patch_lines(Seq::<Seq<char>>::empty(), global, Some(v as u64), p + b.len(), t2) == (
        t2,
        Option::<PatchError>::None,
    ));
    assert(patch_lines(seq![d], global, Some(v as u64), p, t) == (
        write_at(t, p, b),
        Option::<PatchError>::None,
    ));
}

} // verus!
