//! Character-level helpers shared by the parsers: the characters of a string,
//! searching, trimming and line splitting.
use vstd::prelude::*;
use vstd::std_specs::iter::IteratorSpec;

verus! {

broadcast use vstd::string::group_string_axioms;

/// The characters of `s`, in order.
pub fn str_chars(s: &str) -> (v: Vec<char>)
    ensures
        v@ == s@,
{
    let mut v: Vec<char> = Vec::new();
    let mut it = s.chars();
    loop
        invariant
            it.obeys_prophetic_iter_laws(),
            it.remaining() == s@.skip(v.len() as int),
            v@ == s@.take(v.len() as int),
            v.len() <= s@.len(),
        decreases s@.len() - v.len(),
    {
        match it.next() {
            Some(c) => {
                assert(s@.skip(v.len() as int).drop_first() == s@.skip(v.len() + 1));
                v.push(c);
                assert(v@ == s@.take(v.len() as int));
            },
            None => {
                assert(v@ == s@);
                return v;
            },
        }
    }
}

} // verus!

verus! {

/// ASCII whitespace in the sense of `split_ascii_whitespace`: space, horizontal tab,
/// line feed, form feed and carriage return.
pub open spec fn is_ascii_ws(c: char) -> bool {
    c == ' ' || c == '\t' || c == '\n' || c == '\x0C' || c == '\r'
}

pub fn ascii_ws(c: char) -> (b: bool)
    ensures
        b == is_ascii_ws(c),
{
    c == ' ' || c == '\t' || c == '\n' || c == '\x0C' || c == '\r'
}

/// Whitespace in the sense of `str::trim`: the characters with the Unicode
/// property White_Space.
pub open spec fn is_white_space(c: char) -> bool {
    let u = c as u32;
    (0x09 <= u && u <= 0x0d) || u == 0x20 || u == 0x85 || u == 0xa0 || u == 0x1680 || (0x2000
        <= u && u <= 0x200a) || u == 0x2028 || u == 0x2029 || u == 0x202f || u == 0x205f || u
        == 0x3000
}

pub fn white_space(c: char) -> (b: bool)
    ensures
        b == is_white_space(c),
{
    let u = c as u32;
    (0x09 <= u && u <= 0x0d) || u == 0x20 || u == 0x85 || u == 0xa0 || u == 0x1680 || (0x2000
        <= u && u <= 0x200a) || u == 0x2028 || u == 0x2029 || u == 0x202f || u == 0x205f || u
        == 0x3000
}

/// Index of the first occurrence of `c` in `s`, or `s.len()` when there is none.
pub open spec fn index_of<T>(s: Seq<T>, c: T) -> nat
    decreases s.len(),
{
    if s.len() == 0 {
        0
    } else if s[0] == c {
        0
    } else {
        1 + index_of(s.drop_first(), c)
    }
}

/// `index_of` is the first position that holds `c`, or the length.
pub proof fn lemma_index_of<T>(s: Seq<T>, c: T, i: int)
    requires
        0 <= i <= s.len(),
        forall|j: int| 0 <= j < i ==> s[j] != c,
        i == s.len() || s[i] == c,
    ensures
        index_of(s, c) == i,
    decreases i,
{
    if i > 0 {
        lemma_index_of(s.drop_first(), c, i - 1);
    }
}

/// What `index_of` returns: a position holding `c`, before which no position does.
pub proof fn lemma_index_of_bounds<T>(s: Seq<T>, c: T)
    ensures
        index_of(s, c) <= s.len(),
        index_of(s, c) < s.len() ==> s[index_of(s, c) as int] == c,
        forall|j: int| 0 <= j < index_of(s, c) ==> s[j] != c,
    decreases s.len(),
{
    if s.len() > 0 && s[0] != c {
        lemma_index_of_bounds(s.drop_first(), c);
        assert forall|j: int| 0 <= j < index_of(s, c) implies s[j] != c by {
            if j > 0 {
                assert(s[j] == s.drop_first()[j - 1]);
            }
        }
    }
}

/// Position of the first `c` in `cs[lo..hi]`, or `hi` when there is none.
pub fn find_char(cs: &Vec<char>, lo: usize, hi: usize, c: char) -> (r: usize)
    requires
        lo <= hi <= cs.len(),
    ensures
        lo <= r <= hi,
        r == lo + index_of(cs@.subrange(lo as int, hi as int), c),
{
    let mut i = lo;
    while i < hi && cs[i] != c
        invariant
            lo <= i <= hi <= cs.len(),
            forall|j: int| lo <= j < i ==> cs@[j] != c,
        decreases hi - i,
    {
        i += 1;
    }
    proof {
        lemma_index_of(cs@.subrange(lo as int, hi as int), c, i - lo);
    }
    i
}

/// `s` without its leading White_Space characters.
pub open spec fn trim_start(s: Seq<char>) -> Seq<char>
    decreases s.len(),
{
    if s.len() > 0 && is_white_space(s[0]) {
        trim_start(s.drop_first())
    } else {
        s
    }
}

/// `s` without its trailing White_Space characters.
pub open spec fn trim_end(s: Seq<char>) -> Seq<char>
    decreases s.len(),
{
    if s.len() > 0 && is_white_space(s.last()) {
        trim_end(s.drop_last())
    } else {
        s
    }
}

/// `s` without leading and trailing White_Space characters, as `str::trim` gives it.
pub open spec fn trim(s: Seq<char>) -> Seq<char> {
    trim_end(trim_start(s))
}

/// Bounds of `trim(cs[lo..hi])` within `cs`.
pub fn trim_bounds(cs: &Vec<char>, lo: usize, hi: usize) -> (r: (usize, usize))
    requires
        lo <= hi <= cs.len(),
    ensures
        lo <= r.0 <= r.1 <= hi,
        cs@.subrange(r.0 as int, r.1 as int) == trim(cs@.subrange(lo as int, hi as int)),
{
    let ghost s = cs@.subrange(lo as int, hi as int);
    let mut a = lo;
    while a < hi && white_space(cs[a])
        invariant
            lo <= a <= hi <= cs.len(),
            trim_start(cs@.subrange(a as int, hi as int)) == trim_start(s),
        decreases hi - a,
    {
        assert(cs@.subrange(a as int, hi as int).drop_first() =~= cs@.subrange(
            a + 1,
            hi as int,
        ));
        a += 1;
    }
    let mut b = hi;
    while b > a && white_space(cs[b - 1])
        invariant
            lo <= a <= b <= hi <= cs.len(),
            trim_start(s) == cs@.subrange(a as int, hi as int),
            trim_end(cs@.subrange(a as int, b as int)) == trim(s),
        decreases b - a,
    {
        assert(cs@.subrange(a as int, b as int).drop_last() =~= cs@.subrange(
            a as int,
            b - 1,
        ));
        b -= 1;
    }
    (a, b)
}

/// `s` without one trailing carriage return.
pub open spec fn strip_cr(s: Seq<char>) -> Seq<char> {
    if s.len() > 0 && s.last() == '\r' {
        s.drop_last()
    } else {
        s
    }
}

/// The lines of `s` as `BufRead::lines` yields them: split at each line feed, a
/// carriage return before the line feed dropped, and no empty line after a final
/// line feed.
pub open spec fn text_lines(s: Seq<char>) -> Seq<Seq<char>>
    decreases s.len(),
{
    if s.len() == 0 {
        seq![]
    } else {
        let i = index_of(s, '\n');
        if i < s.len() {
            seq![strip_cr(s.subrange(0, i as int))] + text_lines(
                s.subrange((i + 1) as int, s.len() as int),
            )
        } else {
            seq![s]
        }
    }
}

/// Bounds in `cs` of the first line of `cs[start..]`, and where the rest begins.
/// Requires that `cs[start..]` is not empty.
pub fn next_line(cs: &Vec<char>, start: usize) -> (r: (usize, usize, usize))
    requires
        start < cs.len(),
    ensures
        start <= r.0 <= r.1 <= r.2 <= cs.len(),
        r.0 == start,
        r.2 > start,
        text_lines(cs@.subrange(start as int, cs.len() as int)) == seq![
            cs@.subrange(r.0 as int, r.1 as int),
        ] + text_lines(cs@.subrange(r.2 as int, cs.len() as int)),
{
    let n = cs.len();
    let ghost s = cs@.subrange(start as int, n as int);
    let i = find_char(cs, start, n, '\n');
    proof {
        lemma_index_of_bounds(s, '\n');
    }
    if i < n {
        let mut end = i;
        if end > start && cs[end - 1] == '\r' {
            end -= 1;
        }
        assert(s.subrange(0, i - start) =~= cs@.subrange(start as int, i as int));
        assert(s.subrange(i - start + 1, s.len() as int) =~= cs@.subrange(i + 1, n as int));
        assert(strip_cr(cs@.subrange(start as int, i as int)) =~= cs@.subrange(
            start as int,
            end as int,
        ));
        (start, end, i + 1)
    } else {
        assert(cs@.subrange(n as int, n as int) =~= Seq::<char>::empty());
        (start, n, n)
    }
}

} // verus!

verus! {

/// A copy of `cs[lo..hi]`.
pub fn copy_span(cs: &Vec<char>, lo: usize, hi: usize) -> (v: Vec<char>)
    requires
        lo <= hi <= cs.len(),
    ensures
        v@ == cs@.subrange(lo as int, hi as int),
{
    let mut v: Vec<char> = Vec::new();
    let mut i = lo;
    while i < hi
        invariant
            lo <= i <= hi <= cs.len(),
            v@ == cs@.subrange(lo as int, i as int),
        decreases hi - i,
    {
        v.push(cs[i]);
        assert(v@ =~= cs@.subrange(lo as int, i + 1));
        i += 1;
    }
    v
}

} // verus!

verus! {

/// Every character of `s` is White_Space.
pub open spec fn all_white_space(s: Seq<char>) -> bool {
    forall|i: int| 0 <= i < s.len() ==> is_white_space(#[trigger] s[i])
}

pub proof fn lemma_trim_start_ws_prefix(u: Seq<char>, t: Seq<char>)
    requires
        all_white_space(u),
    ensures
        trim_start(u + t) == trim_start(t),
    decreases u.len(),
{
    if u.len() > 0 {
        assert((u + t)[0] == u[0]);
        assert((u + t).drop_first() =~= u.drop_first() + t);
        lemma_trim_start_ws_prefix(u.drop_first(), t);
    } else {
        assert(u + t =~= t);
    }
}

pub proof fn lemma_trim_end_ws_suffix(t: Seq<char>, u: Seq<char>)
    requires
        all_white_space(u),
    ensures
        trim_end(t + u) == trim_end(t),
    decreases u.len(),
{
    if u.len() > 0 {
        assert((t + u).last() == u.last());
        assert((t + u).drop_last() =~= t + u.drop_last());
        lemma_trim_end_ws_suffix(t, u.drop_last());
    } else {
        assert(t + u =~= t);
    }
}

} // verus!
