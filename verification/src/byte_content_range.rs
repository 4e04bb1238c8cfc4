//! The value of a `Content-Range` header with the `bytes` unit.
use crate::byte_range::{
    is_plain_range, lemma_byte_range_canonical, lemma_byte_range_round_trip,
    lemma_byte_range_text, ByteRange,
};
use crate::decimal::{
    decimal, is_digit, is_plain_number, lemma_decimal, lemma_decimal_of_plain,
    lemma_parse_decimal, parse_u64, parse_u64_in, push_decimal,
};
use crate::error::{Error, ErrorView, StatusCode};
use crate::headers::{last_value, lemma_header_names_are_canonical, Headers, CONTENT_RANGE};
use crate::text::{
    chars_of, find_char, is_ascii, is_whitespace, lemma_position, lemma_position_at,
    lemma_strip_concat,
    lemma_strip_nothing, lemma_strip_single, lemma_strip_trim, lemma_trim_start_at, position,
    skip_leading_whitespace, strip_whitespace, trim_start,
};
use vstd::prelude::*;

verus! {

/// The unit that a `Content-Range` value of this kind begins with.
pub open spec fn content_range_prefix() -> Seq<char> {
    seq!['b', 'y', 't', 'e', 's']
}

/// The error for a malformed `Content-Range` value.
pub open spec fn invalid_content_range() -> ErrorView {
    ErrorView {
        status: StatusCode::RequestedRangeNotSatisfiable,
        message: "Invalid Content-Range value"@,
    }
}

/// The text of the range of a `Content-Range`: the range, or `*` for none.
pub open spec fn content_range_text(range: Option<ByteRange>) -> Seq<char> {
    match range {
        Some(r) => r.spec_to_string(),
        None => seq!['*'],
    }
}

/// The text of the size of a `Content-Range`: the number, or `*` for none.
pub open spec fn content_size_text(size: Option<u64>) -> Seq<char> {
    match size {
        Some(n) => decimal(n as nat),
        None => seq!['*'],
    }
}

/// The range that the left field of a `Content-Range` denotes: none for
/// `*`, else a byte range with both of its bounds.
pub open spec fn spec_content_range_field(s: Seq<char>) -> Result<Option<ByteRange>, ErrorView> {
    if s == seq!['*'] {
        Ok(None)
    } else {
        match ByteRange::spec_from_str(s) {
            Ok(r) => if r.start is Some && r.end is Some {
                Ok(Some(r))
            } else {
                Err(invalid_content_range())
            },
            Err(_) => Err(invalid_content_range()),
        }
    }
}

/// The size that the right field of a `Content-Range` denotes: none for
/// `*`, else a number.
pub open spec fn spec_content_size_field(s: Seq<char>) -> Result<Option<u64>, ErrorView> {
    if s == seq!['*'] {
        Ok(None)
    } else {
        match parse_u64(s) {
            Some(n) => Ok(Some(n)),
            None => Err(invalid_content_range()),
        }
    }
}

/// What a [`ByteContentRange`] holds.
pub struct ContentRangeView {
    /// The range of the document that the payload holds, if any.
    pub range: Option<ByteRange>,
    /// The size of the whole document, if known.
    pub size: Option<u64>,
}

impl ContentRangeView {
    /// The values that have a wire form: the range and the size are not
    /// both absent; a range has both bounds, the end strictly after the
    /// start; and the end lies strictly below the size.
    pub open spec fn is_valid(self) -> bool {
        &&& self.range is Some || self.size is Some
        &&& self.range matches Some(r) ==> {
            &&& r.start is Some
            &&& r.end is Some
            &&& r.start->0 < r.end->0
            &&& self.size matches Some(n) ==> r.end->0 < n
        }
    }

    /// The wire form: `bytes`, a space, the range or `*`, `/`, the size or
    /// `*`.
    pub open spec fn spec_to_string(self) -> Seq<char> {
        content_range_prefix() + seq![' '] + content_range_text(self.range) + seq!['/']
            + content_size_text(self.size)
    }

    /// The value that `s` denotes. After the unit and any whitespace, the
    /// rest is split at its first `/` into the range and the size, and the
    /// result must be valid.
    pub open spec fn spec_from_str(s: Seq<char>) -> Result<ContentRangeView, ErrorView> {
        if !content_range_prefix().is_prefix_of(s) {
            Err(invalid_content_range())
        } else {
            let rest = trim_start(s.skip(content_range_prefix().len() as int));
            let p = position(rest, '/');
            if p >= rest.len() {
                Err(invalid_content_range())
            } else {
                match (
                    spec_content_range_field(rest.take(p)),
                    spec_content_size_field(rest.skip(p + 1)),
                ) {
                    (Ok(range), Ok(size)) => {
                        let v = ContentRangeView { range, size };
                        if v.is_valid() {
                            Ok(v)
                        } else {
                            Err(invalid_content_range())
                        }
                    },
                    _ => Err(invalid_content_range()),
                }
            }
        }
    }
}

/// What the `Content-Range` header of `headers` denotes. Only its last
/// value counts. A header that is absent, or whose value does not begin
/// with `bytes`, denotes nothing; any other value must be well formed.
pub open spec fn spec_content_range_from_headers(
    headers: Map<Seq<char>, Seq<Seq<char>>>,
) -> Result<Option<ContentRangeView>, ErrorView> {
    match last_value(headers, CONTENT_RANGE@) {
        None => Ok(None),
        Some(s) => if !content_range_prefix().is_prefix_of(s) {
            Ok(None)
        } else {
            match ContentRangeView::spec_from_str(s) {
                Ok(value) => Ok(Some(value)),
                Err(e) => Err(e),
            }
        },
    }
}

/// The value of a `Content-Range` header with the `bytes` unit: the range
/// that a partial response carries, and the size of the whole document.
#[derive(Clone, Copy, Debug, PartialEq, Eq)]
pub struct ByteContentRange {
    size: Option<u64>,
    range: Option<ByteRange>,
}

impl View for ByteContentRange {
    type V = ContentRangeView;

    closed spec fn view(&self) -> ContentRangeView {
        ContentRangeView { range: self.range, size: self.size }
    }
}

impl Default for ByteContentRange {
    fn default() -> (r: ByteContentRange)
        ensures
            r@ == (ContentRangeView { range: None, size: None }),
    {
        ByteContentRange { size: None, range: None }
    }
}

impl ByteContentRange {
    /// A value with no range and no size.
    pub fn new() -> (r: ByteContentRange)
        ensures
            r@ == (ContentRangeView { range: None, size: None }),
    {
        ByteContentRange { size: None, range: None }
    }

    /// The same value, with the range from `start` to `end`.
    pub fn with_range(self, start: u64, end: u64) -> (r: ByteContentRange)
        ensures
            r@ == (ContentRangeView {
                range: Some(ByteRange { start: Some(start), end: Some(end) }),
                size: self@.size,
            }),
    {
        ByteContentRange { size: self.size, range: Some(ByteRange::new(Some(start), Some(end))) }
    }

    /// The same value, with the size `size`.
    pub fn with_size(self, size: u64) -> (r: ByteContentRange)
        ensures
            r@ == (ContentRangeView { range: self@.range, size: Some(size) }),
    {
        ByteContentRange { size: Some(size), range: self.range }
    }

    /// The range, if any.
    pub fn range(&self) -> (r: Option<ByteRange>)
        ensures
            r == self@.range,
    {
        self.range
    }

    /// The size, if any.
    pub fn size(&self) -> (r: Option<u64>)
        ensures
            r == self@.size,
    {
        self.size
    }

    /// Reads a `Content-Range` value from its wire form.
    pub fn from_str(s: &str) -> (r: Result<ByteContentRange, Error>)
        ensures
            match r {
                Ok(v) => ContentRangeView::spec_from_str(s@) == Ok::<ContentRangeView, ErrorView>(
                    v@,
                ),
                Err(e) => ContentRangeView::spec_from_str(s@) == Err::<
                    ContentRangeView,
                    ErrorView,
                >(e@),
            },
            r is Ok ==> r->Ok_0@.is_valid(),
            r is Err ==> r->Err_0@ == invalid_content_range(),
    {
        let chars = chars_of(s);
        ByteContentRange::from_chars(chars.as_slice())
    }

    /// Reads a `Content-Range` value from the characters of its wire form.
    pub fn from_chars(v: &[char]) -> (r: Result<ByteContentRange, Error>)
        ensures
            match r {
                Ok(value) => ContentRangeView::spec_from_str(v@) == Ok::<
                    ContentRangeView,
                    ErrorView,
                >(value@),
                Err(e) => ContentRangeView::spec_from_str(v@) == Err::<
                    ContentRangeView,
                    ErrorView,
                >(e@),
            },
            r is Ok ==> r->Ok_0@.is_valid(),
            r is Err ==> r->Err_0@ == invalid_content_range(),
    {
        let n = v.len();
        if !has_content_range_prefix(v) {
            return Err(invalid_value());
        }
        let a = skip_leading_whitespace(v, 5, n);
        let slash = find_char(v, a, n, '/');
        let ghost rest = v@.subrange(a as int, n as int);
        proof {
            assert(v@.subrange(5, n as int) =~= v@.skip(5));
            assert(rest.take(slash - a) =~= v@.subrange(a as int, slash as int));
        }
        let range = match content_range_field(v, a, slash) {
            Ok(range) => range,
            Err(e) => { return Err(e); },
        };
        if slash >= n {
            return Err(invalid_value());
        }
        proof {
            assert(rest.skip(slash - a + 1) =~= v@.subrange(slash + 1, n as int));
        }
        let size = match content_size_field(v, slash + 1, n) {
            Ok(size) => size,
            Err(e) => { return Err(e); },
        };
        if range.is_none() && size.is_none() {
            return Err(invalid_value());
        }
        if let Some(total) = size {
            if let Some(r) = range {
                if let Some(end) = r.end {
                    if total <= end {
                        return Err(invalid_value());
                    }
                }
            }
        }
        Ok(ByteContentRange { size, range })
    }

    /// Reads the `Content-Range` header of `headers`: its last value, where
    /// there are several. A header that is absent, or in another unit than
    /// `bytes`, gives no value; a value in bytes that is malformed is an
    /// error.
    pub fn from_headers(headers: &Headers) -> (r: Result<Option<ByteContentRange>, Error>)
        ensures
            match r {
                Ok(Some(value)) => spec_content_range_from_headers(headers@) == Ok::<
                    Option<ContentRangeView>,
                    ErrorView,
                >(Some(value@)),
                Ok(None) => spec_content_range_from_headers(headers@) == Ok::<
                    Option<ContentRangeView>,
                    ErrorView,
                >(None),
                Err(e) => spec_content_range_from_headers(headers@) == Err::<
                    Option<ContentRangeView>,
                    ErrorView,
                >(e@),
            },
            !headers@.contains_key(CONTENT_RANGE@) ==> r matches Ok(None),
    {
        proof {
            lemma_header_names_are_canonical();
        }
        let s = match headers.last(CONTENT_RANGE) {
            Some(s) => s,
            None => { return Ok(None); },
        };
        let chars = chars_of(s);
        if !has_content_range_prefix(chars.as_slice()) {
            return Ok(None);
        }
        match ByteContentRange::from_chars(chars.as_slice()) {
            Ok(value) => Ok(Some(value)),
            Err(e) => Err(e),
        }
    }

    /// Sets the `Content-Range` header of `headers` to this value, in place
    /// of any values it had.
    pub fn apply(&self, headers: &mut Headers)
        ensures
            final(headers)@ == old(headers)@.insert(
                CONTENT_RANGE@,
                seq![self@.spec_to_string()],
            ),
    {
        proof {
            lemma_header_names_are_canonical();
        }
        let value = self.value();
        headers.insert(CONTENT_RANGE, value.as_str());
    }

    /// The name of the header that holds this value.
    pub fn name(&self) -> (r: &'static str)
        ensures
            r@ == CONTENT_RANGE@,
    {
        CONTENT_RANGE
    }

    /// The value of the header: this value in its wire form, which is
    /// ASCII.
    pub fn value(&self) -> (s: String)
        ensures
            s@ == self@.spec_to_string(),
            is_ascii(s@),
    {
        proof {
            lemma_content_range_text_is_ascii(self@);
        }
        self.to_string()
    }

    /// Writes the value in its wire form.
    pub fn to_string(&self) -> (s: String)
        ensures
            s@ == self@.spec_to_string(),
    {
        let mut out = String::new();
        out.push('b');
        out.push('y');
        out.push('t');
        out.push('e');
        out.push('s');
        out.push(' ');
        match self.range {
            Some(r) => r.write_to(&mut out),
            None => out.push('*'),
        }
        out.push('/');
        match self.size {
            Some(n) => push_decimal(&mut out, n),
            None => out.push('*'),
        }
        assert(out@ =~= self@.spec_to_string());
        out
    }
}

/// The text of a range with both bounds, or of no range, reads back as
/// what it was written from. It is not empty, begins with no whitespace and
/// holds no `/`.
pub proof fn lemma_content_range_text(range: Option<ByteRange>)
    requires
        range matches Some(r) ==> r.start is Some && r.end is Some && r.is_valid(),
    ensures
        content_range_text(range).len() > 0,
        !is_whitespace(content_range_text(range)[0]),
        forall|j: int|
            0 <= j < content_range_text(range).len() ==> content_range_text(range)[j] != '/',
        spec_content_range_field(content_range_text(range)) == Ok::<Option<ByteRange>, ErrorView>(
            range,
        ),
{
    let text = content_range_text(range);
    match range {
        Some(r) => {
            let head = decimal(r.start->0 as nat);
            let last = decimal(r.end->0 as nat);
            lemma_decimal(r.start->0 as nat);
            lemma_decimal(r.end->0 as nat);
            lemma_byte_range_round_trip(r);
            assert(text =~= head + seq!['-'] + last);
            assert(text[0] == head[0]);
            assert(is_digit(head[0]));
            assert forall|j: int| 0 <= j < text.len() implies text[j] != '/' by {
                if j < head.len() {
                    assert(is_digit(head[j]));
                } else if j > head.len() {
                    assert(is_digit(last[j - head.len() - 1]));
                }
            }
            assert(text != seq!['*']);
        },
        None => {},
    }
}

/// The text of a size reads back as that size.
pub proof fn lemma_content_size_text(size: Option<u64>)
    ensures
        spec_content_size_field(content_size_text(size)) == Ok::<Option<u64>, ErrorView>(size),
{
    if let Some(n) = size {
        let text = content_size_text(size);
        lemma_decimal(n as nat);
        lemma_parse_decimal(n);
        assert(is_digit(text[0]));
        assert(text != seq!['*']);
    }
}

/// Reading the wire form of a valid value gives that value back.
pub proof fn lemma_content_range_round_trip(v: ContentRangeView)
    requires
        v.is_valid(),
    ensures
        ContentRangeView::spec_from_str(v.spec_to_string()) == Ok::<ContentRangeView, ErrorView>(
            v,
        ),
{
    let range = content_range_text(v.range);
    let size = content_size_text(v.size);
    let w = v.spec_to_string();
    let rest = range + seq!['/'] + size;
    let tail = w.skip(5);
    let k = range.len() as int;
    lemma_content_range_text(v.range);
    lemma_content_size_text(v.size);
    assert(content_range_prefix().is_prefix_of(w)) by {
        assert(w.subrange(0, 5) =~= content_range_prefix());
    }
    assert(tail =~= seq![' '] + rest);
    assert(trim_start(tail) == rest) by {
        assert(is_whitespace(' '));
        assert(tail[1] == range[0]);
        lemma_trim_start_at(tail, 1);
        assert(tail.skip(1) =~= rest);
    }
    assert(position(rest, '/') == k) by {
        assert forall|j: int| 0 <= j < k implies rest[j] != '/' by {
            assert(rest[j] == range[j]);
        }
        lemma_position_at(rest, '/', k);
    }
    assert(rest.take(k) =~= range);
    assert(rest.skip(k + 1) =~= size);
}

/// Tells whether `v` begins with `bytes`.
pub(crate) fn has_content_range_prefix(v: &[char]) -> (r: bool)
    ensures
        r == content_range_prefix().is_prefix_of(v@),
{
    if v.len() >= 5 && v[0] == 'b' && v[1] == 'y' && v[2] == 't' && v[3] == 'e' && v[4] == 's' {
        assert(v@.subrange(0, 5) =~= content_range_prefix());
        true
    } else {
        assert(!content_range_prefix().is_prefix_of(v@)) by {
            if content_range_prefix().is_prefix_of(v@) {
                let p = v@.subrange(0, 5);
                assert(p[0] == 'b' && p[1] == 'y' && p[2] == 't' && p[3] == 'e' && p[4] == 's');
            }
        }
        false
    }
}

/// Writing any value that was read, and reading that, gives the same value.
pub proof fn lemma_content_range_read_write_read(w: Seq<char>, v: ContentRangeView)
    requires
        ContentRangeView::spec_from_str(w) == Ok::<ContentRangeView, ErrorView>(v),
    ensures
        v.is_valid(),
        ContentRangeView::spec_from_str(v.spec_to_string()) == Ok::<ContentRangeView, ErrorView>(
            v,
        ),
{
    lemma_content_range_round_trip(v);
}

/// The wire forms written as `to_string` writes them, but for whitespace
/// and the space after the unit: the range is `*` or a plain range, and the
/// size is `*` or a plain number.
pub open spec fn is_plain_content_range(w: Seq<char>) -> bool {
    let rest = trim_start(w.skip(content_range_prefix().len() as int));
    let p = position(rest, '/');
    &&& rest.take(p) == seq!['*'] || is_plain_range(rest.take(p))
    &&& rest.skip(p + 1) == seq!['*'] || is_plain_number(rest.skip(p + 1))
}

/// Writing the value that a plain wire form denotes gives the canonical
/// form of that wire form: the unit, one space, and the rest without any
/// whitespace.
pub proof fn lemma_content_range_canonical(w: Seq<char>, v: ContentRangeView)
    requires
        ContentRangeView::spec_from_str(w) == Ok::<ContentRangeView, ErrorView>(v),
        is_plain_content_range(w),
    ensures
        v.spec_to_string() == content_range_prefix() + seq![' '] + strip_whitespace(
            w.skip(content_range_prefix().len() as int),
        ),
{
    let tail = w.skip(content_range_prefix().len() as int);
    let rest = trim_start(tail);
    let p = position(rest, '/');
    lemma_position(rest, '/');
    let range = rest.take(p);
    let size = rest.skip(p + 1);
    let slash = seq!['/'];
    assert(strip_whitespace(range) == content_range_text(v.range)) by {
        if range == seq!['*'] {
            lemma_strip_single('*');
        } else {
            lemma_byte_range_canonical(range, v.range->0);
        }
    }
    assert(strip_whitespace(size) == content_size_text(v.size)) by {
        if size == seq!['*'] {
            lemma_strip_single('*');
        } else {
            lemma_decimal_of_plain(size);
            assert forall|i: int| 0 <= i < size.len() implies !is_whitespace(
                #[trigger] size[i],
            ) by {
                assert(is_digit(size[i]));
            }
            lemma_strip_nothing(size);
        }
    }
    assert(strip_whitespace(rest) == strip_whitespace(range) + slash + strip_whitespace(size)) by {
        assert(range + slash + size =~= rest);
        lemma_strip_concat(range + slash, size);
        lemma_strip_concat(range, slash);
        lemma_strip_single('/');
    }
    lemma_strip_trim(tail);
    assert(v.spec_to_string() =~= content_range_prefix() + seq![' '] + strip_whitespace(tail));
}

/// The wire form of a `Content-Range` value is ASCII.
pub proof fn lemma_content_range_text_is_ascii(v: ContentRangeView)
    ensures
        is_ascii(v.spec_to_string()),
{
    let range = content_range_text(v.range);
    let size = content_size_text(v.size);
    let w = v.spec_to_string();
    assert(is_ascii(range)) by {
        if let Some(r) = v.range {
            lemma_byte_range_text(r);
            assert forall|j: int| 0 <= j < range.len() implies (#[trigger] range[j]) as u32
                <= 127 by {
                assert(is_digit(range[j]) || range[j] == '-');
            }
        }
    }
    assert(is_ascii(size)) by {
        if let Some(n) = v.size {
            lemma_decimal(n as nat);
            assert forall|j: int| 0 <= j < size.len() implies (#[trigger] size[j]) as u32
                <= 127 by {
                assert(is_digit(size[j]));
            }
        }
    }
    assert forall|i: int| 0 <= i < w.len() implies (#[trigger] w[i]) as u32 <= 127 by {
        if 6 <= i < 6 + range.len() {
            assert(w[i] == range[i - 6]);
        } else if i > 6 + range.len() {
            assert(w[i] == size[i - 7 - range.len()]);
        }
    }
}

/// Where the `Content-Range` header is absent, it denotes nothing, and that
/// is no error.
pub proof fn lemma_content_range_header_absent(headers: Map<Seq<char>, Seq<Seq<char>>>)
    requires
        !headers.contains_key(CONTENT_RANGE@),
    ensures
        spec_content_range_from_headers(headers) == Ok::<Option<ContentRangeView>, ErrorView>(
            None,
        ),
{
}

/// Where the `Content-Range` header has several values, it denotes what its
/// last value alone would.
pub proof fn lemma_content_range_header_last_wins(headers: Map<Seq<char>, Seq<Seq<char>>>)
    requires
        headers.contains_key(CONTENT_RANGE@),
        headers[CONTENT_RANGE@].len() >= 2,
    ensures
        spec_content_range_from_headers(headers) == spec_content_range_from_headers(
            map![CONTENT_RANGE@ => seq![headers[CONTENT_RANGE@].last()]],
        ),
{
    let single = map![CONTENT_RANGE@ => seq![headers[CONTENT_RANGE@].last()]];
    assert(single.contains_key(CONTENT_RANGE@));
    assert(single[CONTENT_RANGE@].last() == headers[CONTENT_RANGE@].last());
}

/// A valid value that was written to a container is read back from it.
pub proof fn lemma_content_range_header_round_trip(
    headers: Map<Seq<char>, Seq<Seq<char>>>,
    v: ContentRangeView,
)
    requires
        v.is_valid(),
    ensures
        spec_content_range_from_headers(
            headers.insert(CONTENT_RANGE@, seq![v.spec_to_string()]),
        ) == Ok::<Option<ContentRangeView>, ErrorView>(Some(v)),
{
    let w = v.spec_to_string();
    let after = headers.insert(CONTENT_RANGE@, seq![w]);
    lemma_content_range_round_trip(v);
    assert(after.contains_key(CONTENT_RANGE@));
    assert(after[CONTENT_RANGE@].last() == w);
    assert(content_range_prefix().is_prefix_of(w)) by {
        assert(w.subrange(0, 5) =~= content_range_prefix());
    }
}

/// The error for a malformed `Content-Range` value.
pub(crate) fn invalid_value() -> (e: Error)
    ensures
        e@ == invalid_content_range(),
{
    Error::new(StatusCode::RequestedRangeNotSatisfiable, "Invalid Content-Range value")
}

/// Reads the range of a `Content-Range` from `v[lo..hi]`.
pub(crate) fn content_range_field(v: &[char], lo: usize, hi: usize) -> (r: Result<
    Option<ByteRange>,
    Error,
>)
    requires
        lo <= hi <= v.len(),
    ensures
        match r {
            Ok(range) => spec_content_range_field(v@.subrange(lo as int, hi as int)) == Ok::<
                Option<ByteRange>,
                ErrorView,
            >(range),
            Err(e) => spec_content_range_field(v@.subrange(lo as int, hi as int)) == Err::<
                Option<ByteRange>,
                ErrorView,
            >(e@),
        },
        r matches Ok(Some(range)) ==> range.is_valid(),
{
    let ghost s = v@.subrange(lo as int, hi as int);
    if hi - lo == 1 && v[lo] == '*' {
        assert(s =~= seq!['*']);
        return Ok(None);
    }
    assert(s != seq!['*']) by {
        if s.len() == 1 {
            assert(s[0] != '*');
        }
    }
    match ByteRange::from_chars(v, lo, hi) {
        Ok(range) => {
            if range.start.is_none() || range.end.is_none() {
                Err(invalid_value())
            } else {
                Ok(Some(range))
            }
        },
        Err(_) => Err(invalid_value()),
    }
}

/// Reads the size of a `Content-Range` from `v[lo..hi]`.
pub(crate) fn content_size_field(v: &[char], lo: usize, hi: usize) -> (r: Result<
    Option<u64>,
    Error,
>)
    requires
        lo <= hi <= v.len(),
    ensures
        match r {
            Ok(size) => spec_content_size_field(v@.subrange(lo as int, hi as int)) == Ok::<
                Option<u64>,
                ErrorView,
            >(size),
            Err(e) => spec_content_size_field(v@.subrange(lo as int, hi as int)) == Err::<
                Option<u64>,
                ErrorView,
            >(e@),
        },
{
    let ghost s = v@.subrange(lo as int, hi as int);
    if hi - lo == 1 && v[lo] == '*' {
        assert(s =~= seq!['*']);
        return Ok(None);
    }
    assert(s != seq!['*']) by {
        if s.len() == 1 {
            assert(s[0] != '*');
        }
    }
    match parse_u64_in(v, lo, hi) {
        Some(n) => Ok(Some(n)),
        None => Err(invalid_value()),
    }
}

} // verus!
