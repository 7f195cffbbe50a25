//! Reading back the octets of a whole dump.
use vstd::prelude::*;
use crate::parse::{
    data_error, data_octets, line_data, parse_data_chars, recognize_chars, DataError,
};
use crate::text::{copy_span, next_line, str_chars, text_lines};

verus! {

/// The octets that the data of `lines` denote, line after line, up to the first
/// error, and that error.
pub open spec fn load_lines(lines: Seq<Seq<char>>) -> (Seq<u8>, Option<DataError>)
    decreases lines.len(),
{
    if lines.len() == 0 {
        (Seq::empty(), None)
    } else {
        let d = line_data(lines[0]);
        match data_error(d) {
            Some(e) => (data_octets(d), Some(e)),
            None => {
                let r = load_lines(lines.drop_first());
                (data_octets(d) + r.0, r.1)
            },
        }
    }
}

pub open spec fn load_result(lines: Seq<Seq<char>>) -> Result<(), DataError> {
    match load_lines(lines).1 {
        Some(e) => Err(e),
        None => Ok(()),
    }
}

/// Reads the octets of the line `line`'s data, appending them to `out`.
pub fn load_line_chars(line: &Vec<char>, out: &mut Vec<u8>) -> (r: Result<(), DataError>)
    ensures
        final(out)@ == old(out)@ + data_octets(line_data(line@)),
        r matches Err(e) ==> data_error(line_data(line@)) == Some(e),
        r is Ok ==> data_error(line_data(line@)) is None,
{
    let parts = recognize_chars(line);
    let data = copy_span(line, parts.data.0, parts.data.1);
    parse_data_chars(&data, out)
}

/// Reads a whole dump: the data of each line, in order, appended to `out`, up to
/// the first line whose data is in error.
pub fn load_impl(input: &str, out: &mut Vec<u8>) -> (r: Result<(), DataError>)
    ensures
        final(out)@ == old(out)@ + load_lines(text_lines(input@)).0,
        r == load_result(text_lines(input@)),
{
    let cs = str_chars(input);
    let n = cs.len();
    let mut start: usize = 0;
    assert(cs@.subrange(0, n as int) =~= cs@);
    while start < n
        invariant
            n == cs.len(),
            cs@ == input@,
            start <= n,
            out@ + load_lines(text_lines(cs@.subrange(start as int, n as int))).0 == old(out)@
                + load_lines(text_lines(input@)).0,
            load_lines(text_lines(cs@.subrange(start as int, n as int))).1 == load_lines(
                text_lines(input@),
            ).1,
        decreases n - start,
    {
        let (a, b, next) = next_line(&cs, start);
        let line = copy_span(&cs, a, b);
        let ghost lines = text_lines(cs@.subrange(start as int, n as int));
        let ghost before = out@;
        assert(lines.drop_first() =~= text_lines(cs@.subrange(next as int, n as int)));
        let res = load_line_chars(&line, out);
        match res {
            Ok(()) => {
                assert(out@ + load_lines(text_lines(cs@.subrange(next as int, n as int))).0
                    =~= before + load_lines(lines).0);
            },
            Err(e) => {
                return Err(e);
            },
        }
        start = next;
    }
    assert(cs@.subrange(n as int, n as int) =~= Seq::<char>::empty());
    Ok(())
}

} // verus!
