//! The dump format, written: one line per row of octets.
use vstd::prelude::*;
use crate::hex::{hex_octet, hex_padded, lower_digit_exec, push_hex};

verus! {

/// The character that the text column shows for an octet: the octet itself when it
/// is a graphic ASCII character or a space, `.` otherwise.
pub open spec fn shown_char(b: u8) -> u8 {
    if 0x20 <= b && b <= 0x7e {
        b
    } else {
        0x2e
    }
}

/// The text column of a row.
pub open spec fn text_column(bytes: Seq<u8>) -> Seq<u8> {
    bytes.map_values(|b: u8| shown_char(b))
}

/// The separator written before the octet at `i` of a row: a space at the start of
/// each group but the first, when octets are grouped.
pub open spec fn group_sep(i: nat, group: nat) -> Seq<u8> {
    if group != 0 && i != 0 && i % group == 0 {
        seq![0x20u8]
    } else {
        Seq::empty()
    }
}

/// Octets in hexadecimal, two lower-case digits each, with nothing between them.
pub open spec fn hex_run(bytes: Seq<u8>) -> Seq<u8>
    decreases bytes.len(),
{
    if bytes.len() == 0 {
        Seq::empty()
    } else {
        hex_octet(bytes[0]) + hex_run(bytes.drop_first())
    }
}

/// The octets of a row in hexadecimal, in groups of `group` octets separated by a
/// space (one group when `group` is 0).
pub open spec fn hex_row(bytes: Seq<u8>, group: nat) -> Seq<u8>
    decreases bytes.len(),
{
    if group == 0 || bytes.len() <= group {
        hex_run(bytes)
    } else {
        hex_run(bytes.take(group as int)) + seq![0x20u8] + hex_row(bytes.skip(group as int), group)
    }
}

pub proof fn lemma_hex_run_push(bytes: Seq<u8>, x: u8)
    ensures
        hex_run(bytes.push(x)) == hex_run(bytes) + hex_octet(x),
    decreases bytes.len(),
{
    if bytes.len() == 0 {
        assert(bytes.push(x).drop_first() =~= Seq::<u8>::empty());
        assert(hex_run(Seq::<u8>::empty()) == Seq::<u8>::empty());
        assert(hex_run(bytes.push(x)) =~= hex_run(bytes) + hex_octet(x));
    } else {
        assert(bytes.push(x).drop_first() =~= bytes.drop_first().push(x));
        lemma_hex_run_push(bytes.drop_first(), x);
        assert(hex_run(bytes.push(x)) =~= hex_run(bytes) + hex_octet(x));
    }
}

/// Appending an octet to a row appends its separator and its digits to the row's
/// hexadecimal.
pub proof fn lemma_hex_row_push(bytes: Seq<u8>, group: nat, x: u8)
    ensures
        hex_row(bytes.push(x), group) == hex_row(bytes, group) + group_sep(bytes.len(), group)
            + hex_octet(x),
    decreases bytes.len(),
{
    let n = bytes.len();
    lemma_hex_run_push(bytes, x);
    if group == 0 || n < group {
        if group != 0 {
            vstd::arithmetic::div_mod::lemma_small_mod(n, group);
        }
        assert(hex_row(bytes.push(x), group) =~= hex_row(bytes, group) + group_sep(n, group)
            + hex_octet(x));
    } else if n == group {
        assert(bytes.push(x).take(group as int) =~= bytes);
        assert(bytes.push(x).skip(group as int) =~= seq![x]);
        assert(seq![x].drop_first() =~= Seq::<u8>::empty());
        assert(hex_run(Seq::<u8>::empty()) == Seq::<u8>::empty());
        assert(hex_run(seq![x]) =~= hex_octet(x));
        vstd::arithmetic::div_mod::lemma_mod_self_0(group as int);
        assert(group_sep(n, group) == seq![0x20u8]);
        assert(hex_row(seq![x], group) == hex_octet(x));
        assert(hex_row(bytes, group) == hex_run(bytes));
        assert(hex_row(bytes.push(x), group) =~= hex_row(bytes, group) + group_sep(n, group)
            + hex_octet(x));
    } else {
        let rest = bytes.skip(group as int);
        assert(bytes.push(x).take(group as int) =~= bytes.take(group as int));
        assert(bytes.push(x).skip(group as int) =~= rest.push(x));
        lemma_hex_row_push(rest, group, x);
        assert(((n - group) as int) % (group as int) == (n as int) % (group as int)) by {
            vstd::arithmetic::div_mod::lemma_mod_sub_multiples_vanish(n as int, group as int);
        }
        assert(group_sep((n - group) as nat, group) == group_sep(n, group));
        assert(hex_row(bytes.push(x), group) =~= hex_row(bytes, group) + group_sep(n, group)
            + hex_octet(x));
    }
}

/// The part of a line before the padding: the offset in at least eight lower-case
/// hexadecimal digits, `: `, and the octets.
pub open spec fn line_head(offset: nat, group: nat, bytes: Seq<u8>) -> Seq<u8> {
    hex_padded(offset, 8) + seq![0x3au8, 0x20u8] + hex_row(bytes, group)
}

pub open spec fn spaces(n: nat) -> Seq<u8> {
    Seq::new(n, |i: int| 0x20u8)
}

/// A line without its line feed: its head padded with spaces to `width`, ` | `,
/// and the text column.
pub open spec fn row_text(head: Seq<u8>, width: nat, bytes: Seq<u8>) -> Seq<u8> {
    head + spaces((width - head.len()) as nat) + seq![0x20u8, 0x7cu8, 0x20u8] + text_column(bytes)
}

/// A whole line: the row and a line feed.
pub open spec fn line_text(head: Seq<u8>, width: nat, bytes: Seq<u8>) -> Seq<u8> {
    row_text(head, width, bytes) + seq![0x0au8]
}

pub open spec fn max_nat(a: nat, b: nat) -> nat {
    if a >= b {
        a
    } else {
        b
    }
}

/// Writes rows of octets as lines of the dump format, keeping the ` | ` separator of
/// every line at least as far right as that of the lines before.
pub struct Printer {
    /// Octets per group; 0 for no grouping.
    pub octets_per_group: usize,
    /// Length of the longest line head written so far.
    pub output_width: usize,
    /// Offset of the next row.
    pub current_offset: u64,
}

impl Printer {
    pub fn new(octets_per_group: usize, starting_offset: u64) -> (p: Self)
        ensures
            p.octets_per_group == octets_per_group,
            p.output_width == 0,
            p.current_offset == starting_offset,
    {
        Printer { octets_per_group, output_width: 0, current_offset: starting_offset }
    }

    /// The line for the row `buf`; the next row's offset follows it.
    pub fn write_line(&mut self, buf: &[u8]) -> (line: Vec<u8>)
        requires
            old(self).current_offset + buf@.len() <= u64::MAX,
        ensures
            ({
                let head = line_head(
                    old(self).current_offset as nat,
                    old(self).octets_per_group as nat,
                    buf@,
                );
                &&& final(self).output_width == max_nat(
                    old(self).output_width as nat,
                    head.len(),
                )
                &&& line@ == line_text(head, final(self).output_width as nat, buf@)
            }),
            final(self).octets_per_group == old(self).octets_per_group,
            final(self).current_offset == old(self).current_offset + buf@.len(),
    {
        let group = self.octets_per_group;
        let mut line: Vec<u8> = Vec::new();
        push_hex(&mut line, self.current_offset, 8);
        line.push(0x3a);
        line.push(0x20);
        let ghost prefix = line@;
        let n = buf.len();
        let mut i: usize = 0;
        while i < n
            invariant
                n == buf@.len(),
                i <= n,
                group == self.octets_per_group,
                line@ == prefix + hex_row(buf@.take(i as int), group as nat),
            decreases n - i,
        {
            let ghost before = line@;
            if group != 0 && i != 0 && i % group == 0 {
                line.push(0x20);
            }
            let b = buf[i];
            line.push(lower_digit_exec((b / 16) as u64));
            line.push(lower_digit_exec((b % 16) as u64));
            assert(buf@.take(i + 1) =~= buf@.take(i as int).push(b));
            proof {
                lemma_hex_row_push(buf@.take(i as int), group as nat, b);
            }
            assert(line@ =~= prefix + hex_row(buf@.take(i + 1), group as nat));
            i += 1;
        }
        assert(buf@.take(n as int) =~= buf@);
        let head_len = line.len();
        if head_len > self.output_width {
            self.output_width = head_len;
        }
        let padding = self.output_width - head_len;
        let ghost head = line@;
        let mut j: usize = 0;
        while j < padding
            invariant
                j <= padding,
                line@ == head + spaces(j as nat),
            decreases padding - j,
        {
            line.push(0x20);
            assert(line@ =~= head + spaces((j + 1) as nat));
            j += 1;
        }
        line.push(0x20);
        line.push(0x7c);
        line.push(0x20);
        let ghost with_bar = line@;
        let mut k: usize = 0;
        while k < n
            invariant
                n == buf@.len(),
                k <= n,
                line@ == with_bar + text_column(buf@.take(k as int)),
            decreases n - k,
        {
            let b = buf[k];
            let c = if 0x20 <= b && b <= 0x7e {
                b
            } else {
                0x2e
            };
            line.push(c);
            assert(line@ =~= with_bar + text_column(buf@.take(k + 1)));
            k += 1;
        }
        assert(buf@.take(n as int) =~= buf@);
        line.push(0x0a);
        self.current_offset = self.current_offset + n as u64;
        line
    }
}

} // verus!

verus! {

pub open spec fn min_nat(a: nat, b: nat) -> nat {
    if a <= b {
        a
    } else {
        b
    }
}

/// The dump of `input`: one line per row of `columns` octets (the last row may be
/// shorter), rows numbered from `offset`, the separator kept at or right of `width`.
pub open spec fn dump_text(
    input: Seq<u8>,
    columns: nat,
    group: nat,
    offset: nat,
    width: nat,
) -> Seq<u8>
    decreases input.len(),
{
    if input.len() == 0 || columns == 0 {
        Seq::empty()
    } else {
        let k = min_nat(columns, input.len());
        let row = input.take(k as int);
        let head = line_head(offset, group, row);
        let w = max_nat(width, head.len());
        line_text(head, w, row) + dump_text(input.skip(k as int), columns, group, offset + k, w)
    }
}

/// Dumps `input` in rows of `columns` octets, grouped by `groupsize` (0 for no
/// grouping), numbered from `offset`.
pub fn dump_impl(input: &[u8], columns: usize, groupsize: usize, offset: u64) -> (out: Vec<u8>)
    requires
        columns > 0,
        offset + input@.len() <= u64::MAX,
    ensures
        out@ == dump_text(input@, columns as nat, groupsize as nat, offset as nat, 0),
{
    let mut printer = Printer::new(groupsize, offset);
    let mut out: Vec<u8> = Vec::new();
    let n = input.len();
    let mut pos: usize = 0;
    assert(input@.skip(0) =~= input@);
    assert(out@ + dump_text(input@, columns as nat, groupsize as nat, offset as nat, 0)
        =~= dump_text(input@, columns as nat, groupsize as nat, offset as nat, 0));
    while pos < n
        invariant
            n == input@.len(),
            pos <= n,
            columns > 0,
            printer.octets_per_group == groupsize,
            printer.current_offset == offset + pos,
            offset + n <= u64::MAX,
            out@ + dump_text(
                input@.skip(pos as int),
                columns as nat,
                groupsize as nat,
                printer.current_offset as nat,
                printer.output_width as nat,
            ) == dump_text(input@, columns as nat, groupsize as nat, offset as nat, 0),
        decreases n - pos,
    {
        let k = if n - pos < columns {
            n - pos
        } else {
            columns
        };
        let row = vstd::slice::slice_subrange(input, pos, pos + k);
        let ghost rest = input@.skip(pos as int);
        assert(row@ =~= rest.take(k as int));
        assert(rest.skip(k as int) =~= input@.skip(pos + k));
        let ghost w0 = printer.output_width;
        let line = printer.write_line(row);
        let ghost before = out@;
        out.extend_from_slice(line.as_slice());
        assert(out@ + dump_text(
            input@.skip(pos + k),
            columns as nat,
            groupsize as nat,
            printer.current_offset as nat,
            printer.output_width as nat,
        ) =~= before + dump_text(
            rest,
            columns as nat,
            groupsize as nat,
            (offset + pos) as nat,
            w0 as nat,
        ));
        pos += k;
    }
    assert(input@.skip(n as int) =~= Seq::<u8>::empty());
    out
}

} // verus!

verus! {

/// The lines of `dump_text`, without their line feeds.
pub open spec fn dump_rows(
    input: Seq<u8>,
    columns: nat,
    group: nat,
    offset: nat,
    width: nat,
) -> Seq<Seq<u8>>
    decreases input.len(),
{
    if input.len() == 0 || columns == 0 {
        Seq::empty()
    } else {
        let k = min_nat(columns, input.len());
        let row = input.take(k as int);
        let head = line_head(offset, group, row);
        let w = max_nat(width, head.len());
        seq![row_text(head, w, row)] + dump_rows(input.skip(k as int), columns, group, offset + k, w)
    }
}

/// The lines `rows`, each followed by `nl`.
pub open spec fn join_lines<T>(rows: Seq<Seq<T>>, nl: T) -> Seq<T>
    decreases rows.len(),
{
    if rows.len() == 0 {
        Seq::empty()
    } else {
        rows[0] + seq![nl] + join_lines(rows.drop_first(), nl)
    }
}

/// A dump is its rows, each followed by a line feed.
pub proof fn lemma_dump_text_rows(input: Seq<u8>, columns: nat, group: nat, offset: nat, width: nat)
    ensures
        dump_text(input, columns, group, offset, width) == join_lines(
            dump_rows(input, columns, group, offset, width),
            0x0au8,
        ),
    decreases input.len(),
{
    if !(input.len() == 0 || columns == 0) {
        let k = min_nat(columns, input.len());
        let row = input.take(k as int);
        let head = line_head(offset, group, row);
        let w = max_nat(width, head.len());
        lemma_dump_text_rows(input.skip(k as int), columns, group, offset + k, w);
        let rows = dump_rows(input, columns, group, offset, width);
        assert(rows.drop_first() =~= dump_rows(input.skip(k as int), columns, group, offset + k, w));
        assert(dump_text(input, columns, group, offset, width) =~= join_lines(rows, 0x0au8));
    }
}

} // verus!
