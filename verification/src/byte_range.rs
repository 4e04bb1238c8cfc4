//! A single byte range, as it stands in `Range` and `Content-Range`.
use crate::decimal::{
    decimal, is_digit, is_plain_number, lemma_decimal, lemma_decimal_lacks,
    lemma_decimal_of_plain, lemma_parse_decimal, parse_u64, parse_u64_in, push_decimal,
};
use crate::error::{Error, ErrorView, StatusCode};
use crate::text::{
    chars_of, find_char, has_no_whitespace, is_whitespace, lemma_position, lemma_position_at,
    lemma_strip_nothing, lemma_strip_trim, lemma_trim_end_at, lemma_trim_start_at, position,
    strip_whitespace, trim, trim_bounds,
};
use vstd::prelude::*;

verus! {

/// The error for a malformed or unsatisfiable byte range.
pub open spec fn range_not_satisfiable() -> ErrorView {
    ErrorView {
        status: StatusCode::RequestedRangeNotSatisfiable,
        message: "Invalid Range header for byte ranges"@,
    }
}

/// The bound that a field of a byte range denotes: none when the field is
/// empty, else the number it holds.
pub open spec fn spec_str_to_bound(s: Seq<char>) -> Result<Option<u64>, ErrorView> {
    if s.len() == 0 {
        Ok(None)
    } else {
        match parse_u64(s) {
            Some(n) => Ok(Some(n)),
            None => Err(range_not_satisfiable()),
        }
    }
}

/// The text of a bound: its decimal representation, or nothing.
pub open spec fn bound_text(b: Option<u64>) -> Seq<char> {
    match b {
        Some(n) => decimal(n as nat),
        None => Seq::empty(),
    }
}

/// A single HTTP byte range: `start-end`, `start-` or `-suffix_length`.
#[derive(Clone, Copy, Debug, PartialEq, Eq, Structural)]
pub struct ByteRange {
    /// The first byte of the range. When absent, `end` counts bytes from the
    /// end of the document.
    pub start: Option<u64>,
    /// The last byte of the range. When absent, the range goes through the
    /// end of the document.
    pub end: Option<u64>,
}

impl Default for ByteRange {
    fn default() -> (r: ByteRange)
        ensures
            r == (ByteRange { start: None, end: None }),
    {
        ByteRange { start: None, end: None }
    }
}

impl ByteRange {
    /// The ranges that have a wire form: at least one bound is present, and
    /// where both are, the end lies strictly after the start.
    pub open spec fn is_valid(self) -> bool {
        &&& self.start is Some || self.end is Some
        &&& self.start is Some && self.end is Some ==> self.start->0 < self.end->0
    }

    /// Every bound that is present lies strictly below `size`.
    pub open spec fn spec_match_size(self, size: u64) -> bool {
        &&& self.start is Some ==> self.start->0 < size
        &&& self.end is Some ==> self.end->0 < size
    }

    /// The wire form: the start, `-`, the end, an absent bound being empty.
    pub open spec fn spec_to_string(self) -> Seq<char> {
        bound_text(self.start) + seq!['-'] + bound_text(self.end)
    }

    /// The range that `s` denotes. Whitespace around `s` is ignored; the
    /// rest is split at its first `-` into the start and the end, and
    /// without a `-` all of it is the start. The result must be valid.
    pub open spec fn spec_from_str(s: Seq<char>) -> Result<ByteRange, ErrorView> {
        let t = trim(s);
        let p = position(t, '-');
        let start = spec_str_to_bound(t.take(p));
        let end = if p < t.len() {
            spec_str_to_bound(t.skip(p + 1))
        } else {
            Ok(None)
        };
        match (start, end) {
            (Ok(start), Ok(end)) => {
                let r = ByteRange { start, end };
                if r.is_valid() {
                    Ok(r)
                } else {
                    Err(range_not_satisfiable())
                }
            },
            _ => Err(range_not_satisfiable()),
        }
    }

    /// A range with the given bounds.
    pub fn new(start: Option<u64>, end: Option<u64>) -> (r: ByteRange)
        ensures
            r.start == start,
            r.end == end,
    {
        ByteRange { start, end }
    }

    /// Tells whether the bounds of the range lie within a document of `size`
    /// bytes.
    pub fn match_size(&self, size: u64) -> (r: bool)
        ensures
            r == self.spec_match_size(size),
    {
        if let Some(start) = self.start {
            if start >= size {
                return false;
            }
        }
        if let Some(end) = self.end {
            if end >= size {
                return false;
            }
        }
        true
    }

    /// Reads a byte range from its wire form.
    pub fn from_str(s: &str) -> (r: Result<ByteRange, Error>)
        ensures
            match r {
                Ok(range) => ByteRange::spec_from_str(s@) == Ok::<ByteRange, ErrorView>(range),
                Err(e) => ByteRange::spec_from_str(s@) == Err::<ByteRange, ErrorView>(e@),
            },
            r is Ok ==> r->Ok_0.is_valid(),
            r is Err ==> r->Err_0@ == range_not_satisfiable(),
    {
        let v = chars_of(s);
        assert(v@.subrange(0, v.len() as int) =~= s@);
        ByteRange::from_chars(v.as_slice(), 0, v.len())
    }

    /// Reads a byte range from `v[lo..hi]`.
    pub(crate) fn from_chars(v: &[char], lo: usize, hi: usize) -> (r: Result<ByteRange, Error>)
        requires
            lo <= hi <= v.len(),
        ensures
            match r {
                Ok(range) => ByteRange::spec_from_str(v@.subrange(lo as int, hi as int)) == Ok::<
                    ByteRange,
                    ErrorView,
                >(range),
                Err(e) => ByteRange::spec_from_str(v@.subrange(lo as int, hi as int)) == Err::<
                    ByteRange,
                    ErrorView,
                >(e@),
            },
            r is Ok ==> r->Ok_0.is_valid(),
            r is Err ==> r->Err_0@ == range_not_satisfiable(),
    {
        let (a, b) = trim_bounds(v, lo, hi);
        let dash = find_char(v, a, b, '-');
        let ghost t = v@.subrange(a as int, b as int);
        proof {
            assert(t.take(dash - a) =~= v@.subrange(a as int, dash as int));
            if dash < b {
                assert(t.skip(dash - a + 1) =~= v@.subrange(dash + 1, b as int));
            }
        }
        let start = match str_to_bound(v, a, dash) {
            Ok(bound) => bound,
            Err(e) => { return Err(e); },
        };
        let end = if dash < b {
            match str_to_bound(v, dash + 1, b) {
                Ok(bound) => bound,
                Err(e) => { return Err(e); },
            }
        } else {
            None
        };
        if start.is_none() && end.is_none() {
            return Err(invalid_range());
        }
        if let Some(first) = start {
            if let Some(last) = end {
                if last <= first {
                    return Err(invalid_range());
                }
            }
        }
        Ok(ByteRange::new(start, end))
    }

    /// Writes the range in its wire form.
    pub fn to_string(&self) -> (s: String)
        ensures
            s@ == self.spec_to_string(),
    {
        let mut out = String::new();
        self.write_to(&mut out);
        assert(Seq::<char>::empty() + self.spec_to_string() =~= self.spec_to_string());
        out
    }

    /// Appends the wire form of the range to `out`.
    pub fn write_to(&self, out: &mut String)
        ensures
            final(out)@ == old(out)@ + self.spec_to_string(),
    {
        if let Some(start) = self.start {
            push_decimal(out, start);
        }
        out.push('-');
        if let Some(end) = self.end {
            push_decimal(out, end);
        }
        assert(final(out)@ =~= old(out)@ + self.spec_to_string());
    }
}

/// The text of a bound reads back as that bound.
pub proof fn lemma_bound_text_reads_back(b: Option<u64>)
    ensures
        spec_str_to_bound(bound_text(b)) == Ok::<Option<u64>, ErrorView>(b),
        forall|c: char| !is_digit(c) ==> !bound_text(b).contains(c),
{
    if let Some(n) = b {
        lemma_decimal(n as nat);
        lemma_parse_decimal(n);
        assert forall|c: char| !is_digit(c) implies !bound_text(b).contains(c) by {
            lemma_decimal_lacks(n as nat, c);
        }
    }
}

/// The wire form of a range is not empty and consists of digits and `-`.
pub proof fn lemma_byte_range_text(r: ByteRange)
    ensures
        r.spec_to_string().len() > 0,
        forall|j: int|
            0 <= j < r.spec_to_string().len() ==> is_digit(#[trigger] r.spec_to_string()[j])
                || r.spec_to_string()[j] == '-',
{
    let head = bound_text(r.start);
    let tail = bound_text(r.end);
    let w = r.spec_to_string();
    if let Some(n) = r.start {
        lemma_decimal(n as nat);
    }
    if let Some(n) = r.end {
        lemma_decimal(n as nat);
    }
    assert forall|j: int| 0 <= j < w.len() implies is_digit(#[trigger] w[j]) || w[j] == '-' by {
        if j < head.len() {
            assert(w[j] == head[j]);
        } else if j > head.len() {
            assert(w[j] == tail[j - head.len() - 1]);
        }
    }
}

/// Reading the wire form of a valid range gives that range back.
pub proof fn lemma_byte_range_round_trip(r: ByteRange)
    requires
        r.is_valid(),
    ensures
        ByteRange::spec_from_str(r.spec_to_string()) == Ok::<ByteRange, ErrorView>(r),
{
    let head = bound_text(r.start);
    let tail = bound_text(r.end);
    let w = r.spec_to_string();
    let k = head.len() as int;
    lemma_bound_text_reads_back(r.start);
    lemma_bound_text_reads_back(r.end);
    assert(w.len() == k + 1 + tail.len());
    assert(w[k] == '-');
    assert forall|c: char| is_whitespace(c) implies !is_digit(c) && c != '-' by {}
    assert(!is_whitespace(w[0])) by {
        if k > 0 {
            assert(head.contains(w[0])) by {
                assert(head[0] == w[0]);
            }
        }
    }
    assert(!is_whitespace(w.last())) by {
        if tail.len() > 0 {
            assert(tail.contains(w.last())) by {
                assert(tail.last() == w.last());
            }
        }
    }
    lemma_trim_start_at(w, 0);
    assert(w.skip(0) =~= w);
    lemma_trim_end_at(w, w.len() as int);
    assert(w.take(w.len() as int) =~= w);
    assert(trim(w) == w);
    assert forall|j: int| 0 <= j < k implies w[j] != '-' by {
        assert(!is_digit('-'));
        assert(!head.contains('-'));
        assert(head[j] == w[j]);
    }
    lemma_position_at(w, '-', k);
    assert(w.take(k) =~= head);
    assert(w.skip(k + 1) =~= tail);
}

/// Writing any range that was read, and reading that, gives the same range.
pub proof fn lemma_byte_range_read_write_read(s: Seq<char>, r: ByteRange)
    requires
        ByteRange::spec_from_str(s) == Ok::<ByteRange, ErrorView>(r),
    ensures
        r.is_valid(),
        ByteRange::spec_from_str(r.spec_to_string()) == Ok::<ByteRange, ErrorView>(r),
{
    lemma_byte_range_round_trip(r);
}

/// A bound written as `to_string` writes it: nothing, or a plain number.
pub open spec fn is_plain_bound(s: Seq<char>) -> bool {
    s.len() == 0 || is_plain_number(s)
}

/// The wire forms written as `to_string` writes them, but for whitespace
/// around them: they hold a `-`, and each bound is empty or a plain number.
pub open spec fn is_plain_range(s: Seq<char>) -> bool {
    let t = trim(s);
    let p = position(t, '-');
    &&& p < t.len()
    &&& is_plain_bound(t.take(p))
    &&& is_plain_bound(t.skip(p + 1))
}

/// A plain bound is the text of the bound that it denotes.
pub proof fn lemma_bound_text_of_plain(s: Seq<char>, b: Option<u64>)
    requires
        is_plain_bound(s),
        spec_str_to_bound(s) == Ok::<Option<u64>, ErrorView>(b),
    ensures
        bound_text(b) == s,
        has_no_whitespace(s),
{
    if s.len() > 0 {
        lemma_decimal_of_plain(s);
        assert forall|i: int| 0 <= i < s.len() implies !is_whitespace(#[trigger] s[i]) by {
            assert(is_digit(s[i]));
        }
    }
}

/// Writing the range that a plain wire form denotes gives that wire form
/// back, without the whitespace around it.
pub proof fn lemma_byte_range_canonical(s: Seq<char>, r: ByteRange)
    requires
        ByteRange::spec_from_str(s) == Ok::<ByteRange, ErrorView>(r),
        is_plain_range(s),
    ensures
        r.spec_to_string() == trim(s),
        r.spec_to_string() == strip_whitespace(s),
{
    let t = trim(s);
    let p = position(t, '-');
    lemma_position(t, '-');
    let head = t.take(p);
    let tail = t.skip(p + 1);
    lemma_bound_text_of_plain(head, r.start);
    lemma_bound_text_of_plain(tail, r.end);
    assert(head + seq!['-'] + tail =~= t);
    assert forall|i: int| 0 <= i < t.len() implies !is_whitespace(#[trigger] t[i]) by {
        if i < p {
            assert(t[i] == head[i]);
        } else if i > p {
            assert(t[i] == tail[i - p - 1]);
        }
    }
    lemma_strip_nothing(t);
    lemma_strip_trim(s);
}

/// The error for a malformed byte range.
pub(crate) fn invalid_range() -> (e: Error)
    ensures
        e@ == range_not_satisfiable(),
{
    Error::new(StatusCode::RequestedRangeNotSatisfiable, "Invalid Range header for byte ranges")
}

/// Reads one bound of a byte range from `v[lo..hi]`: none when the field is
/// empty, else the number it holds.
pub(crate) fn str_to_bound(v: &[char], lo: usize, hi: usize) -> (r: Result<Option<u64>, Error>)
    requires
        lo <= hi <= v.len(),
    ensures
        match r {
            Ok(bound) => spec_str_to_bound(v@.subrange(lo as int, hi as int)) == Ok::<
                Option<u64>,
                ErrorView,
            >(bound),
            Err(e) => spec_str_to_bound(v@.subrange(lo as int, hi as int)) == Err::<
                Option<u64>,
                ErrorView,
            >(e@),
        },
{
    if lo == hi {
        return Ok(None);
    }
    match parse_u64_in(v, lo, hi) {
        Some(n) => Ok(Some(n)),
        None => Err(invalid_range()),
    }
}

} // verus!
