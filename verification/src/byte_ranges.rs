//! The value of a `Range` header with the `bytes` unit.
use crate::byte_range::{
    invalid_range, is_plain_range, lemma_byte_range_canonical, lemma_byte_range_round_trip,
    lemma_byte_range_text, range_not_satisfiable, ByteRange,
};
use crate::decimal::is_digit;
use crate::error::{Error, ErrorView, StatusCode};
use crate::headers::{last_value, lemma_header_names_are_canonical, Headers, RANGE};
use crate::text::{
    chars_of, find_char, is_ascii, join, lemma_join_ascii, lemma_join_front, lemma_join_split,
    lemma_split_join,
    lemma_strip_join, lemma_strip_trim, lemma_trim_start_at, skip_leading_whitespace, split,
    strip_each, strip_whitespace, trim_start,
};
use vstd::prelude::*;
use vstd::std_specs::iter::IteratorSpec;

verus! {

/// The unit and the `=` that a `Range` value of this kind begins with.
pub open spec fn range_prefix() -> Seq<char> {
    seq!['b', 'y', 't', 'e', 's', '=']
}

/// The error for a `Range` value that is not a list of byte ranges.
pub open spec fn range_bad_request() -> ErrorView {
    ErrorView { status: StatusCode::BadRequest, message: "Invalid Range header for byte ranges"@ }
}

/// The wire forms of `ranges`, one for one.
pub open spec fn range_texts(ranges: Seq<ByteRange>) -> Seq<Seq<char>> {
    Seq::new(ranges.len(), |i: int| ranges[i].spec_to_string())
}

/// The ranges that `fields` denote, one for one. Every field must denote a
/// range.
pub open spec fn spec_ranges_of_fields(fields: Seq<Seq<char>>) -> Result<
    Seq<ByteRange>,
    ErrorView,
> {
    if forall|i: int|
        0 <= i < fields.len() ==> ByteRange::spec_from_str(#[trigger] fields[i]) is Ok {
        Ok(Seq::new(fields.len(), |i: int| ByteRange::spec_from_str(fields[i])->Ok_0))
    } else {
        Err(range_not_satisfiable())
    }
}

/// The wire form of a list of ranges: the unit, `=`, and the ranges with a
/// comma between neighbours.
pub open spec fn spec_ranges_to_string(ranges: Seq<ByteRange>) -> Seq<char> {
    range_prefix() + join(range_texts(ranges), ',')
}

/// The list of ranges that `s` denotes. After the unit, `=` and any
/// whitespace there must be something left; it is split at each comma, and
/// every field must denote a range.
pub open spec fn spec_ranges_from_str(s: Seq<char>) -> Result<Seq<ByteRange>, ErrorView> {
    if !range_prefix().is_prefix_of(s) {
        Err(range_bad_request())
    } else {
        let rest = trim_start(s.skip(range_prefix().len() as int));
        if rest.len() == 0 {
            Err(range_bad_request())
        } else {
            spec_ranges_of_fields(split(rest, ','))
        }
    }
}

/// What the `Range` header of `headers` denotes. Only its last value
/// counts. A header that is absent, or whose value does not begin with
/// `bytes=`, denotes nothing; any other value must denote a list of ranges.
pub open spec fn spec_ranges_from_headers(headers: Map<Seq<char>, Seq<Seq<char>>>) -> Result<
    Option<Seq<ByteRange>>,
    ErrorView,
> {
    match last_value(headers, RANGE@) {
        None => Ok(None),
        Some(s) => if !range_prefix().is_prefix_of(s) {
            Ok(None)
        } else {
            match spec_ranges_from_str(s) {
                Ok(ranges) => Ok(Some(ranges)),
                Err(e) => Err(e),
            }
        },
    }
}

/// The lists that have a wire form: at least one range, all of them valid.
pub open spec fn ranges_are_valid(ranges: Seq<ByteRange>) -> bool {
    &&& ranges.len() >= 1
    &&& forall|i: int| 0 <= i < ranges.len() ==> (#[trigger] ranges[i]).is_valid()
}

/// Every range of the list lies within a document of `size` bytes.
pub open spec fn ranges_match_size(ranges: Seq<ByteRange>, size: u64) -> bool {
    forall|i: int| 0 <= i < ranges.len() ==> (#[trigger] ranges[i]).spec_match_size(size)
}

/// The value of a `Range` header with the `bytes` unit: the byte ranges
/// that a request asks for, in the order in which it names them.
#[derive(Clone, Debug, PartialEq, Eq)]
pub struct ByteRanges {
    ranges: Vec<ByteRange>,
}

impl View for ByteRanges {
    type V = Seq<ByteRange>;

    closed spec fn view(&self) -> Seq<ByteRange> {
        self.ranges@
    }
}

impl Default for ByteRanges {
    fn default() -> (r: ByteRanges)
        ensures
            r@ == Seq::<ByteRange>::empty(),
    {
        ByteRanges { ranges: Vec::new() }
    }
}

impl ByteRanges {
    /// An empty list of ranges.
    pub fn new() -> (r: ByteRanges)
        ensures
            r@ == Seq::<ByteRange>::empty(),
    {
        ByteRanges { ranges: Vec::new() }
    }

    /// Adds the range with the given bounds at the end of the list.
    pub fn push(&mut self, start: Option<u64>, end: Option<u64>)
        ensures
            final(self)@ == old(self)@.push(ByteRange { start, end }),
    {
        let range = ByteRange::new(start, end);
        self.ranges.push(range);
    }

    /// An iterator over the ranges, in their order.
    pub fn iter(&self) -> (it: core::slice::Iter<'_, ByteRange>)
        ensures
            IteratorSpec::remaining(&it) == self@.as_ref(),
            IteratorSpec::decrease(&it) is Some,
            IteratorSpec::initial_value_relation(&it, &it),
    {
        broadcast use vstd::std_specs::slice::axiom_spec_slice_iter;

        self.ranges.as_slice().iter()
    }

    /// An iterator that hands out the ranges, in their order.
    pub fn into_iter(self) -> (it: std::vec::IntoIter<ByteRange>)
        ensures
            IteratorSpec::remaining(&it) == self@,
            IteratorSpec::decrease(&it) is Some,
            IteratorSpec::initial_value_relation(&it, &it),
    {
        broadcast use vstd::std_specs::vec::axiom_spec_into_iter;

        self.ranges.into_iter()
    }

    /// The first range of the list, if there is one.
    pub fn first(&self) -> (r: Option<ByteRange>)
        ensures
            r == if self@.len() > 0 {
                Some(self@[0])
            } else {
                None
            },
    {
        if self.ranges.len() > 0 {
            Some(self.ranges[0])
        } else {
            None
        }
    }

    /// Checks that every range lies within a document of `size` bytes, and
    /// fails with `416 Requested Range Not Satisfiable` if one does not.
    pub fn match_size(&self, size: u64) -> (r: Result<(), Error>)
        ensures
            r is Ok <==> ranges_match_size(self@, size),
            r matches Err(e) ==> e@ == range_not_satisfiable(),
    {
        let mut i: usize = 0;
        while i < self.ranges.len()
            invariant
                i <= self.ranges.len(),
                forall|j: int| 0 <= j < i ==> (#[trigger] self.ranges@[j]).spec_match_size(size),
            decreases self.ranges.len() - i,
        {
            if !self.ranges[i].match_size(size) {
                assert(!self@[i as int].spec_match_size(size));
                return Err(invalid_range());
            }
            i += 1;
        }
        Ok(())
    }

    /// Reads a `Range` value from its wire form.
    pub fn from_str(s: &str) -> (r: Result<ByteRanges, Error>)
        ensures
            match r {
                Ok(ranges) => spec_ranges_from_str(s@) == Ok::<Seq<ByteRange>, ErrorView>(ranges@),
                Err(e) => spec_ranges_from_str(s@) == Err::<Seq<ByteRange>, ErrorView>(e@),
            },
            r matches Ok(ranges) ==> ranges_are_valid(ranges@),
    {
        let chars = chars_of(s);
        ByteRanges::from_chars(chars.as_slice())
    }

    /// Reads a `Range` value from the characters of its wire form.
    pub fn from_chars(v: &[char]) -> (r: Result<ByteRanges, Error>)
        ensures
            match r {
                Ok(ranges) => spec_ranges_from_str(v@) == Ok::<Seq<ByteRange>, ErrorView>(ranges@),
                Err(e) => spec_ranges_from_str(v@) == Err::<Seq<ByteRange>, ErrorView>(e@),
            },
            r matches Ok(ranges) ==> ranges_are_valid(ranges@),
    {
        let n = v.len();
        if !has_range_prefix(v) {
            return Err(invalid_list());
        }
        let first = skip_leading_whitespace(v, 6, n);
        assert(v@.subrange(6, n as int) =~= v@.skip(6));
        if first == n {
            return Err(invalid_list());
        }
        let ghost fields = split(v@.subrange(first as int, n as int), ',');
        let ghost done: Seq<Seq<char>> = Seq::empty();
        let mut ranges: Vec<ByteRange> = Vec::new();
        let mut cur: usize = first;
        let mut finished = false;
        while !finished
            invariant
                first <= cur <= n,
                n == v.len(),
                spec_ranges_from_str(v@) == spec_ranges_of_fields(fields),
                fields == if finished {
                    done
                } else {
                    done + split(v@.subrange(cur as int, n as int), ',')
                },
                ranges@.len() == done.len(),
                forall|i: int|
                    0 <= i < done.len() ==> ByteRange::spec_from_str(#[trigger] done[i]) == Ok::<
                        ByteRange,
                        ErrorView,
                    >(ranges@[i]),
            decreases
                    n - cur + if finished {
                        0int
                    } else {
                        1int
                    },
        {
            let comma = find_char(v, cur, n, ',');
            let ghost tail = v@.subrange(cur as int, n as int);
            let ghost field = v@.subrange(cur as int, comma as int);
            proof {
                assert(tail.take(comma - cur) =~= field);
                if comma < n {
                    assert(tail.skip(comma - cur + 1) =~= v@.subrange(comma + 1, n as int));
                    assert(fields =~= done.push(field) + split(
                        v@.subrange(comma + 1, n as int),
                        ',',
                    ));
                } else {
                    assert(tail =~= field);
                    assert(fields =~= done.push(field));
                }
                assert(fields[done.len() as int] == field);
            }
            match ByteRange::from_chars(v, cur, comma) {
                Ok(range) => {
                    ranges.push(range);
                },
                Err(e) => {
                    assert(ByteRange::spec_from_str(fields[done.len() as int]) is Err);
                    return Err(e);
                },
            }
            proof {
                done = done.push(field);
            }
            if comma < n {
                cur = comma + 1;
            } else {
                finished = true;
            }
        }
        proof {
            assert(fields == done);
            assert(spec_ranges_of_fields(fields)->Ok_0 =~= ranges@);
            assert forall|i: int| 0 <= i < ranges@.len() implies (#[trigger] ranges@[i]).is_valid(
            ) by {
                assert(ByteRange::spec_from_str(done[i]) is Ok);
            }
        }
        Ok(ByteRanges { ranges })
    }

    /// Reads the `Range` header of `headers`: its last value, where there
    /// are several. A header that is absent, or in another unit than
    /// `bytes`, gives no value; a list of byte ranges that is malformed is
    /// an error.
    pub fn from_headers(headers: &Headers) -> (r: Result<Option<ByteRanges>, Error>)
        ensures
            match r {
                Ok(Some(ranges)) => spec_ranges_from_headers(headers@) == Ok::<
                    Option<Seq<ByteRange>>,
                    ErrorView,
                >(Some(ranges@)),
                Ok(None) => spec_ranges_from_headers(headers@) == Ok::<
                    Option<Seq<ByteRange>>,
                    ErrorView,
                >(None),
                Err(e) => spec_ranges_from_headers(headers@) == Err::<
                    Option<Seq<ByteRange>>,
                    ErrorView,
                >(e@),
            },
            !headers@.contains_key(RANGE@) ==> r matches Ok(None),
    {
        proof {
            lemma_header_names_are_canonical();
        }
        let s = match headers.last(RANGE) {
            Some(s) => s,
            None => { return Ok(None); },
        };
        let chars = chars_of(s);
        if !has_range_prefix(chars.as_slice()) {
            return Ok(None);
        }
        match ByteRanges::from_chars(chars.as_slice()) {
            Ok(ranges) => Ok(Some(ranges)),
            Err(e) => Err(e),
        }
    }

    /// Sets the `Range` header of `headers` to this list, in place of any
    /// values it had.
    pub fn apply(&self, headers: &mut Headers)
        ensures
            final(headers)@ == old(headers)@.insert(RANGE@, seq![spec_ranges_to_string(self@)]),
    {
        proof {
            lemma_header_names_are_canonical();
        }
        let value = self.value();
        headers.insert(RANGE, value.as_str());
    }

    /// The name of the header that holds this value.
    pub fn name(&self) -> (r: &'static str)
        ensures
            r@ == RANGE@,
    {
        RANGE
    }

    /// The value of the header: the list in its wire form, which is ASCII.
    pub fn value(&self) -> (s: String)
        ensures
            s@ == spec_ranges_to_string(self@),
            is_ascii(s@),
    {
        proof {
            lemma_ranges_text_is_ascii(self@);
        }
        self.to_string()
    }

    /// Writes the list in its wire form.
    pub fn to_string(&self) -> (s: String)
        ensures
            s@ == spec_ranges_to_string(self@),
    {
        let mut out = String::new();
        out.push('b');
        out.push('y');
        out.push('t');
        out.push('e');
        out.push('s');
        out.push('=');
        assert(out@ =~= range_prefix());
        let ghost texts = range_texts(self.ranges@);
        let mut i: usize = 0;
        while i < self.ranges.len()
            invariant
                i <= self.ranges.len(),
                texts == range_texts(self.ranges@),
                out@ == range_prefix() + join(texts.take(i as int), ','),
            decreases self.ranges.len() - i,
        {
            let ghost before = texts.take(i as int);
            let ghost after = texts.take(i + 1);
            proof {
                assert(after.drop_last() =~= before);
                assert(after.last() == self.ranges@[i as int].spec_to_string());
            }
            if i > 0 {
                out.push(',');
            }
            self.ranges[i].write_to(&mut out);
            assert(out@ =~= range_prefix() + join(after, ','));
            i += 1;
        }
        assert(texts.take(i as int) =~= texts);
        out
    }
}

/// Reading the wire form of a valid list gives that list back.
pub proof fn lemma_ranges_round_trip(ranges: Seq<ByteRange>)
    requires
        ranges_are_valid(ranges),
    ensures
        spec_ranges_from_str(spec_ranges_to_string(ranges)) == Ok::<Seq<ByteRange>, ErrorView>(
            ranges,
        ),
{
    let texts = range_texts(ranges);
    let joined = join(texts, ',');
    let w = spec_ranges_to_string(ranges);
    assert(range_prefix().is_prefix_of(w)) by {
        assert(w.subrange(0, 6) =~= range_prefix());
    }
    assert(w.skip(6) =~= joined);
    assert forall|i: int, j: int|
        0 <= i < texts.len() && 0 <= j < texts[i].len() implies is_digit(#[trigger] texts[i][j])
        || texts[i][j] == '-' by {
        lemma_byte_range_text(ranges[i]);
    }
    assert forall|i: int, j: int|
        0 <= i < texts.len() && 0 <= j < texts[i].len() implies texts[i][j] != ',' by {
        assert(is_digit(texts[i][j]) || texts[i][j] == '-');
    }
    lemma_split_join(texts, ',');
    assert(joined.len() > 0 && joined[0] == texts[0][0]) by {
        lemma_byte_range_text(ranges[0]);
        if texts.len() >= 2 {
            lemma_join_front(texts, ',');
        }
    }
    assert(trim_start(joined) == joined) by {
        assert(is_digit(texts[0][0]) || texts[0][0] == '-');
        lemma_trim_start_at(joined, 0);
        assert(joined.skip(0) =~= joined);
    }
    assert forall|i: int| 0 <= i < texts.len() implies ByteRange::spec_from_str(
        #[trigger] texts[i],
    ) == Ok::<ByteRange, ErrorView>(ranges[i]) by {
        assert(ranges[i].is_valid());
        lemma_byte_range_round_trip(ranges[i]);
    }
    assert(spec_ranges_of_fields(texts)->Ok_0 =~= ranges);
}

/// The wire forms whose ranges are written as `to_string` writes them, but
/// for whitespace: every field between commas is a plain range.
pub open spec fn is_plain_ranges(w: Seq<char>) -> bool {
    let fields = split(trim_start(w.skip(range_prefix().len() as int)), ',');
    forall|i: int| 0 <= i < fields.len() ==> is_plain_range(#[trigger] fields[i])
}

/// Writing the list that a plain wire form denotes gives the canonical form
/// of that wire form: the same, without any whitespace after `bytes=`.
pub proof fn lemma_ranges_canonical(w: Seq<char>, ranges: Seq<ByteRange>)
    requires
        spec_ranges_from_str(w) == Ok::<Seq<ByteRange>, ErrorView>(ranges),
        is_plain_ranges(w),
    ensures
        spec_ranges_to_string(ranges) == range_prefix() + strip_whitespace(
            w.skip(range_prefix().len() as int),
        ),
{
    let tail = w.skip(range_prefix().len() as int);
    let rest = trim_start(tail);
    let fields = split(rest, ',');
    let texts = range_texts(ranges);
    assert(ranges.len() == fields.len());
    assert forall|i: int| 0 <= i < fields.len() implies texts[i] == strip_whitespace(
        fields[i],
    ) by {
        assert(ByteRange::spec_from_str(fields[i]) is Ok);
        assert(is_plain_range(fields[i]));
        lemma_byte_range_canonical(fields[i], ranges[i]);
    }
    assert(texts =~= strip_each(fields));
    lemma_join_split(rest, ',');
    lemma_strip_join(fields, ',');
    lemma_strip_trim(tail);
}

/// Writing any list that was read, and reading that, gives the same list.
pub proof fn lemma_ranges_read_write_read(w: Seq<char>, ranges: Seq<ByteRange>)
    requires
        spec_ranges_from_str(w) == Ok::<Seq<ByteRange>, ErrorView>(ranges),
    ensures
        ranges_are_valid(ranges),
        spec_ranges_from_str(spec_ranges_to_string(ranges)) == Ok::<Seq<ByteRange>, ErrorView>(
            ranges,
        ),
{
    let fields = split(trim_start(w.skip(range_prefix().len() as int)), ',');
    lemma_join_split(trim_start(w.skip(range_prefix().len() as int)), ',');
    assert forall|i: int| 0 <= i < ranges.len() implies (#[trigger] ranges[i]).is_valid() by {
        assert(ByteRange::spec_from_str(fields[i]) is Ok);
    }
    lemma_ranges_round_trip(ranges);
}

/// Where the `Range` header is absent, it denotes nothing, and that is no
/// error.
pub proof fn lemma_ranges_header_absent(headers: Map<Seq<char>, Seq<Seq<char>>>)
    requires
        !headers.contains_key(RANGE@),
    ensures
        spec_ranges_from_headers(headers) == Ok::<Option<Seq<ByteRange>>, ErrorView>(None),
{
}

/// Where the `Range` header has several values, it denotes what its last
/// value alone would.
pub proof fn lemma_ranges_header_last_wins(headers: Map<Seq<char>, Seq<Seq<char>>>)
    requires
        headers.contains_key(RANGE@),
        headers[RANGE@].len() >= 2,
    ensures
        spec_ranges_from_headers(headers) == spec_ranges_from_headers(
            map![RANGE@ => seq![headers[RANGE@].last()]],
        ),
{
    let single = map![RANGE@ => seq![headers[RANGE@].last()]];
    assert(single.contains_key(RANGE@));
    assert(single[RANGE@].last() == headers[RANGE@].last());
}

/// A valid list that was written to a container is read back from it.
pub proof fn lemma_ranges_header_round_trip(
    headers: Map<Seq<char>, Seq<Seq<char>>>,
    ranges: Seq<ByteRange>,
)
    requires
        ranges_are_valid(ranges),
    ensures
        spec_ranges_from_headers(headers.insert(RANGE@, seq![spec_ranges_to_string(ranges)]))
            == Ok::<Option<Seq<ByteRange>>, ErrorView>(Some(ranges)),
{
    let w = spec_ranges_to_string(ranges);
    let after = headers.insert(RANGE@, seq![w]);
    lemma_ranges_round_trip(ranges);
    assert(after.contains_key(RANGE@));
    assert(after[RANGE@].last() == w);
    assert(range_prefix().is_prefix_of(w)) by {
        assert(w.subrange(0, 6) =~= range_prefix());
    }
}

/// The wire form of a list of ranges is ASCII.
pub proof fn lemma_ranges_text_is_ascii(ranges: Seq<ByteRange>)
    ensures
        is_ascii(spec_ranges_to_string(ranges)),
{
    let texts = range_texts(ranges);
    let joined = join(texts, ',');
    let w = spec_ranges_to_string(ranges);
    assert forall|i: int| 0 <= i < texts.len() implies is_ascii(#[trigger] texts[i]) by {
        lemma_byte_range_text(ranges[i]);
        assert forall|j: int| 0 <= j < texts[i].len() implies (#[trigger] texts[i][j]) as u32
            <= 127 by {
            assert(is_digit(texts[i][j]) || texts[i][j] == '-');
        }
    }
    lemma_join_ascii(texts, ',');
    assert forall|i: int| 0 <= i < w.len() implies (#[trigger] w[i]) as u32 <= 127 by {
        if i >= 6 {
            assert(w[i] == joined[i - 6]);
        }
    }
}

/// Tells whether `v` begins with `bytes=`.
pub(crate) fn has_range_prefix(v: &[char]) -> (r: bool)
    ensures
        r == range_prefix().is_prefix_of(v@),
{
    if v.len() >= 6 && v[0] == 'b' && v[1] == 'y' && v[2] == 't' && v[3] == 'e' && v[4] == 's'
        && v[5] == '=' {
        assert(v@.subrange(0, 6) =~= range_prefix());
        true
    } else {
        assert(!range_prefix().is_prefix_of(v@)) by {
            if range_prefix().is_prefix_of(v@) {
                let p = v@.subrange(0, 6);
                assert(p[0] == 'b' && p[1] == 'y' && p[2] == 't' && p[3] == 'e' && p[4] == 's'
                    && p[5] == '=');
            }
        }
        false
    }
}

/// The error for a `Range` value that is not a list of byte ranges.
pub(crate) fn invalid_list() -> (e: Error)
    ensures
        e@ == range_bad_request(),
{
    Error::new(StatusCode::BadRequest, "Invalid Range header for byte ranges")
}

} // verus!
