//! Applying a dump to a file: each line's data written at its offset.
use vstd::prelude::*;
use crate::parse::{
    absolute_value, add_signed, checked_add_signed, data_error, data_octets, line_data,
    line_offset, offset_value, parse_data_chars, parse_offset_chars, recognize_chars,
    AbsoluteError, DataError, OffsetError,
};
use crate::text::{copy_span, next_line, str_chars, text_lines};

verus! {

/// Why a patch stopped.
#[derive(Clone, Copy, Debug, PartialEq, Eq)]
pub enum PatchError {
    /// A line's offset could not be read.
    InvalidOffset(OffsetError),
    /// A line's offset could not be made absolute.
    Position(AbsoluteError),
    /// The global offset could not be added to a line's absolute offset.
    GlobalOffset(u64, i64),
    /// Data came before any offset.
    MissingOffset,
    /// A line's data could not be read.
    Data(DataError),
    /// An in-memory target cannot be written at this position.
    PositionTooLarge(u64),
}

/// What one line of a patch does, given the last absolute offset and the global
/// offset: the last absolute offset after it, the position to seek to before
/// writing (if any), the octets to write, and the error that stops the patch (if
/// any), which comes after the octets are written.
pub open spec fn patch_step(last: Option<u64>, global: i64, line: Seq<char>) -> (
    Option<u64>,
    Option<u64>,
    Seq<u8>,
    Option<PatchError>,
) {
    let off = line_offset(line);
    if off.len() != 0 {
        match offset_value(off) {
            Err(e) => (last, None, Seq::empty(), Some(PatchError::InvalidOffset(e))),
            Ok(o) => match absolute_value(o, last) {
                Err(e) => (last, None, Seq::empty(), Some(PatchError::Position(e))),
                Ok(a) => match add_signed(a, global) {
                    None => (last, None, Seq::empty(), Some(PatchError::GlobalOffset(a, global))),
                    Some(p) => data_step(Some(a), Some(p), line),
                },
            },
        }
    } else if last is None {
        (last, None, Seq::empty(), Some(PatchError::MissingOffset))
    } else {
        data_step(last, None, line)
    }
}

/// The octets of a line's data, after any seek.
pub open spec fn data_step(last: Option<u64>, seek: Option<u64>, line: Seq<char>) -> (
    Option<u64>,
    Option<u64>,
    Seq<u8>,
    Option<PatchError>,
) {
    let d = line_data(line);
    (
        last,
        seek,
        data_octets(d),
        match data_error(d) {
            Some(e) => Some(PatchError::Data(e)),
            None => None,
        },
    )
}

pub open spec fn as_result(e: Option<PatchError>) -> Result<(), PatchError> {
    match e {
        Some(e) => Err(e),
        None => Ok(()),
    }
}

/// What the writer does for one line: seek, then write the octets, then stop with
/// the outcome's error, if any.
pub struct LineEdit {
    pub seek: Option<u64>,
    pub bytes: Vec<u8>,
    pub outcome: Result<(), PatchError>,
}

/// The state of a patch between lines.
pub struct PatchState {
    /// The last absolute offset, before the global offset is added.
    pub last_offset: Option<u64>,
    /// Added to every absolute offset.
    pub global_offset: i64,
}

impl PatchState {
    pub fn new(global_offset: i64) -> (s: Self)
        ensures
            s.last_offset is None,
            s.global_offset == global_offset,
    {
        PatchState { last_offset: None, global_offset }
    }

    /// The edit for the line `line`.
    pub fn apply_line_chars(&mut self, line: &Vec<char>) -> (r: LineEdit)
        ensures
            ({
                let st = patch_step(old(self).last_offset, old(self).global_offset, line@);
                &&& final(self).last_offset == st.0
                &&& r.seek == st.1
                &&& r.bytes@ == st.2
                &&& r.outcome == as_result(st.3)
            }),
            final(self).global_offset == old(self).global_offset,
    {
        let parts = recognize_chars(line);
        let mut seek: Option<u64> = None;
        if parts.offset.0 < parts.offset.1 {
            let off = copy_span(line, parts.offset.0, parts.offset.1);
            let o = match parse_offset_chars(&off) {
                Ok(o) => o,
                Err(e) => {
                    return LineEdit {
                        seek: None,
                        bytes: Vec::new(),
                        outcome: Err(PatchError::InvalidOffset(e)),
                    };
                },
            };
            let a = match o.to_absolute(self.last_offset) {
                Ok(a) => a,
                Err(e) => {
                    return LineEdit {
                        seek: None,
                        bytes: Vec::new(),
                        outcome: Err(PatchError::Position(e)),
                    };
                },
            };
            match checked_add_signed(a, self.global_offset) {
                Some(p) => {
                    seek = Some(p);
                },
                None => {
                    return LineEdit {
                        seek: None,
                        bytes: Vec::new(),
                        outcome: Err(PatchError::GlobalOffset(a, self.global_offset)),
                    };
                },
            }
            self.last_offset = Some(a);
        } else if self.last_offset.is_none() {
            return LineEdit { seek: None, bytes: Vec::new(), outcome: Err(PatchError::MissingOffset) };
        }
        let data = copy_span(line, parts.data.0, parts.data.1);
        let mut bytes: Vec<u8> = Vec::new();
        let outcome = match parse_data_chars(&data, &mut bytes) {
            Ok(()) => Ok(()),
            Err(e) => Err(PatchError::Data(e)),
        };
        LineEdit { seek, bytes, outcome }
    }

    /// The edit for the line `line`.
    pub fn apply_line(&mut self, line: &str) -> (r: LineEdit)
        ensures
            ({
                let st = patch_step(old(self).last_offset, old(self).global_offset, line@);
                &&& final(self).last_offset == st.0
                &&& r.seek == st.1
                &&& r.bytes@ == st.2
                &&& r.outcome == as_result(st.3)
            }),
            final(self).global_offset == old(self).global_offset,
    {
        let cs = str_chars(line);
        self.apply_line_chars(&cs)
    }
}

} // verus!

verus! {

/// `target` with `bytes` written at `pos`, as a `std::io::Cursor` over a vector
/// writes them: the gap between the end and `pos` filled with zeros, nothing
/// changed when there is nothing to write.
pub open spec fn write_at(target: Seq<u8>, pos: nat, bytes: Seq<u8>) -> Seq<u8> {
    if bytes.len() == 0 {
        target
    } else {
        let end = pos + bytes.len();
        let len = if end > target.len() {
            end
        } else {
            target.len()
        };
        Seq::new(
            len,
            |i: int|
                if pos <= i < end {
                    bytes[i - pos]
                } else if i < target.len() {
                    target[i]
                } else {
                    0u8
                },
        )
    }
}

/// Writes `bytes` into `target` at `pos`.
pub fn write_bytes_at(target: &mut Vec<u8>, pos: usize, bytes: &Vec<u8>)
    ensures
        final(target)@ == write_at(old(target)@, pos as nat, bytes@),
{
    let n = bytes.len();
    if n == 0 {
        return ;
    }
    let ghost t0 = old(target)@;
    while target.len() < pos
        invariant
            t0.len() <= target.len() <= pos || target.len() == t0.len(),
            forall|i: int| 0 <= i < target@.len() ==> #[trigger] target@[i] == if i < t0.len() {
                t0[i]
            } else {
                0u8
            },
            target.len() >= t0.len(),
        decreases pos - target.len(),
    {
        target.push(0);
    }
    let mut j: usize = 0;
    while j < n
        invariant
            n == bytes.len(),
            j <= n,
            target.len() >= pos + j,
            target.len() >= t0.len(),
            target.len() == if pos + j > t0.len() {
                (pos + j) as int
            } else {
                t0.len() as int
            },
            forall|i: int|
                0 <= i < target@.len() ==> #[trigger] target@[i] == if pos <= i < pos + j {
                    bytes@[i - pos]
                } else if i < t0.len() {
                    t0[i]
                } else {
                    0u8
                },
        decreases n - j,
    {
        let q = pos + j;
        if q < target.len() {
            target.set(q, bytes[j]);
        } else {
            target.push(bytes[j]);
        }
        j += 1;
    }
    assert(target@ =~= write_at(t0, pos as nat, bytes@));
}

/// A patch of `target` by `lines`, from the given state and cursor position: the
/// patched target, and the error that stopped the patch, if any.
pub open spec fn patch_lines(
    lines: Seq<Seq<char>>,
    global: i64,
    last: Option<u64>,
    pos: nat,
    target: Seq<u8>,
) -> (Seq<u8>, Option<PatchError>)
    decreases lines.len(),
{
    if lines.len() == 0 {
        (target, None)
    } else {
        let st = patch_step(last, global, lines[0]);
        let p = match st.1 {
            Some(s) => s as nat,
            None => pos,
        };
        if st.2.len() > 0 && p > usize::MAX {
            (target, Some(PatchError::PositionTooLarge(p as u64)))
        } else {
            let t1 = write_at(target, p, st.2);
            match st.3 {
                Some(e) => (t1, Some(e)),
                None => patch_lines(lines.drop_first(), global, st.0, p + st.2.len(), t1),
            }
        }
    }
}

/// Applies the dump `input` to the in-memory file `target`, the cursor starting at
/// 0: each line's data written at its offset plus `global_offset`, or, for a line
/// without offset, where the previous line's data ended.
pub fn patch_impl(input: &str, target: &mut Vec<u8>, global_offset: i64) -> (r: Result<
    (),
    PatchError,
>)
    ensures
        final(target)@ == patch_lines(text_lines(input@), global_offset, None, 0, old(target)@).0,
        r == as_result(patch_lines(text_lines(input@), global_offset, None, 0, old(target)@).1),
{
    let cs = str_chars(input);
    let n = cs.len();
    let mut state = PatchState::new(global_offset);
    let mut pos: u64 = 0;
    let mut start: usize = 0;
    let ghost whole = patch_lines(text_lines(input@), global_offset, None, 0, old(target)@);
    assert(cs@.subrange(0, n as int) =~= cs@);
    while start < n
        invariant
            n == cs.len(),
            cs@ == input@,
            start <= n,
            state.global_offset == global_offset,
            whole == patch_lines(text_lines(input@), global_offset, None, 0, old(target)@),
            patch_lines(
                text_lines(cs@.subrange(start as int, n as int)),
                global_offset,
                state.last_offset,
                pos as nat,
                target@,
            ) == whole,
        decreases n - start,
    {
        let (a, b, next) = next_line(&cs, start);
        let line = copy_span(&cs, a, b);
        let ghost lines = text_lines(cs@.subrange(start as int, n as int));
        assert(lines.drop_first() =~= text_lines(cs@.subrange(next as int, n as int)));
        assert(lines[0] == line@);
        let ghost last0 = state.last_offset;
        let ghost pos0 = pos;
        let ghost t0 = target@;
        assert(whole == patch_lines(lines, global_offset, last0, pos0 as nat, t0));
        let edit = state.apply_line_chars(&line);
        if let Some(p) = edit.seek {
            pos = p;
        }
        if edit.bytes.len() > 0 {
            if pos > usize::MAX as u64 {
                assert(whole == (t0, Some(PatchError::PositionTooLarge(pos))));
                return Err(PatchError::PositionTooLarge(pos));
            }
            write_bytes_at(target, pos as usize, &edit.bytes);
            assert(target@.len() >= pos + edit.bytes@.len());
            assert(target.len() >= pos + edit.bytes.len());
            pos = pos + edit.bytes.len() as u64;
        }
        match edit.outcome {
            Ok(()) => {},
            Err(e) => {
                assert(whole == (target@, Some(e)));
                return Err(e);
            },
        }
        start = next;
    }
    assert(cs@.subrange(n as int, n as int) =~= Seq::<char>::empty());
    Ok(())
}

} // verus!
