//! The value of an `Accept-Ranges` header.
use crate::error::Error;
use crate::headers::{last_value, lemma_header_names_are_canonical, Headers, ACCEPT_RANGES};
use crate::text::{chars_of, is_ascii};
use crate::unit::{bytes_token, is_bytes_token, Unit, UnitView};
use vstd::prelude::*;

verus! {

/// The token that says that range requests are not accepted.
pub open spec fn none_token() -> Seq<char> {
    seq!['n', 'o', 'n', 'e']
}

/// What the token `s` says: `none` accepts no unit, and every other token
/// names the unit that is accepted.
pub open spec fn spec_accept_from_str(s: Seq<char>) -> Option<UnitView> {
    if s == none_token() {
        None
    } else {
        Some(UnitView::from_token(s))
    }
}

/// The wire form: `none` where no unit is accepted, else the token of the
/// unit.
pub open spec fn spec_accept_to_string(unit: Option<UnitView>) -> Seq<char> {
    match unit {
        None => none_token(),
        Some(u) => u.token(),
    }
}

/// The values that their wire form denotes: a unit that is accepted is
/// canonical, and its token is not `none`.
pub open spec fn accept_is_valid(unit: Option<UnitView>) -> bool {
    unit matches Some(u) ==> u.is_canonical() && u.token() != none_token()
}

/// What the `Accept-Ranges` header of `headers` says, if it is present.
/// Only its last value counts.
pub open spec fn spec_accept_from_headers(headers: Map<Seq<char>, Seq<Seq<char>>>) -> Option<
    Option<UnitView>,
> {
    match last_value(headers, ACCEPT_RANGES@) {
        None => None,
        Some(s) => Some(spec_accept_from_str(s)),
    }
}

/// The value of an `Accept-Ranges` header: the unit in which the server
/// accepts range requests, or none if it accepts no range requests.
#[derive(Clone, Debug, PartialEq, Eq)]
pub struct AcceptRanges {
    unit: Option<Unit>,
}

impl View for AcceptRanges {
    type V = Option<UnitView>;

    closed spec fn view(&self) -> Option<UnitView> {
        match self.unit {
            Some(u) => Some(u@),
            None => None,
        }
    }
}

impl Default for AcceptRanges {
    fn default() -> (r: AcceptRanges)
        ensures
            r@ == None::<UnitView>,
    {
        AcceptRanges { unit: None }
    }
}

impl AcceptRanges {
    /// A value that accepts no range requests.
    pub fn new() -> (r: AcceptRanges)
        ensures
            r@ == None::<UnitView>,
    {
        AcceptRanges { unit: None }
    }

    /// A value that accepts ranges in bytes.
    pub fn with_bytes() -> (r: AcceptRanges)
        ensures
            r@ == Some(UnitView::Bytes),
    {
        AcceptRanges { unit: Some(Unit::Bytes) }
    }

    /// A value that accepts ranges in the unit that the token `s` names,
    /// carried as it is.
    pub fn with_other(s: &str) -> (r: AcceptRanges)
        ensures
            r@ == Some(UnitView::Other(s@)),
    {
        AcceptRanges { unit: Some(Unit::Other(s.to_owned())) }
    }

    /// Tells whether ranges in bytes are accepted.
    pub fn bytes(&self) -> (r: bool)
        ensures
            r == (self@ == Some(UnitView::Bytes)),
    {
        match &self.unit {
            Some(Unit::Bytes) => true,
            _ => false,
        }
    }

    /// The token of the unit that is accepted, if it is another than bytes.
    pub fn other(&self) -> (r: Option<&String>)
        ensures
            match r {
                Some(s) => self@ == Some(UnitView::Other(s@)),
                None => !(self@ matches Some(UnitView::Other(_))),
            },
    {
        match &self.unit {
            Some(Unit::Other(s)) => Some(s),
            _ => None,
        }
    }

    /// The unit that is accepted, if any.
    pub fn unit(&self) -> (r: &Option<Unit>)
        ensures
            match r {
                Some(u) => self@ == Some(u@),
                None => self@ is None,
            },
    {
        &self.unit
    }

    /// Reads an `Accept-Ranges` value from its wire form. Every token is
    /// accepted.
    pub fn from_str(s: &str) -> (r: Result<AcceptRanges, Error>)
        ensures
            r matches Ok(v) && v@ == spec_accept_from_str(s@),
    {
        let chars = chars_of(s);
        let v = chars.as_slice();
        let accept = if is_none_token(v) {
            AcceptRanges::new()
        } else if is_bytes_token(v) {
            AcceptRanges::with_bytes()
        } else {
            AcceptRanges::with_other(s)
        };
        Ok(accept)
    }

    /// Reads the `Accept-Ranges` header of `headers`: its last value, where
    /// there are several. A header that is absent gives no value.
    pub fn from_headers(headers: &Headers) -> (r: Result<Option<AcceptRanges>, Error>)
        ensures
            match r {
                Ok(Some(v)) => spec_accept_from_headers(headers@) == Some(v@),
                Ok(None) => spec_accept_from_headers(headers@) is None,
                Err(_) => false,
            },
            !headers@.contains_key(ACCEPT_RANGES@) ==> r matches Ok(None),
    {
        proof {
            lemma_header_names_are_canonical();
        }
        let s = match headers.last(ACCEPT_RANGES) {
            Some(s) => s,
            None => { return Ok(None); },
        };
        match AcceptRanges::from_str(s) {
            Ok(accept) => Ok(Some(accept)),
            Err(e) => Err(e),
        }
    }

    /// Sets the `Accept-Ranges` header of `headers` to this value, in place
    /// of any values it had.
    pub fn apply(&self, headers: &mut Headers)
        ensures
            final(headers)@ == old(headers)@.insert(
                ACCEPT_RANGES@,
                seq![spec_accept_to_string(self@)],
            ),
    {
        proof {
            lemma_header_names_are_canonical();
        }
        let value = self.value();
        headers.insert(ACCEPT_RANGES, value.as_str());
    }

    /// The name of the header that holds this value.
    pub fn name(&self) -> (r: &'static str)
        ensures
            r@ == ACCEPT_RANGES@,
    {
        ACCEPT_RANGES
    }

    /// The value of the header: this value in its wire form. It is ASCII
    /// unless it carries the token of another unit that is not.
    pub fn value(&self) -> (s: String)
        ensures
            s@ == spec_accept_to_string(self@),
            is_ascii(s@) <==> (self@ matches Some(UnitView::Other(token)) ==> is_ascii(token)),
    {
        assert(is_ascii(none_token()) && is_ascii(bytes_token()));
        self.to_string()
    }

    /// Writes the value in its wire form.
    pub fn to_string(&self) -> (s: String)
        ensures
            s@ == spec_accept_to_string(self@),
    {
        let mut out = String::new();
        match &self.unit {
            Some(unit) => {
                unit.write_to(&mut out);
                assert(out@ =~= unit@.token());
            },
            None => {
                out.push('n');
                out.push('o');
                out.push('n');
                out.push('e');
                assert(out@ =~= none_token());
            },
        }
        out
    }
}

/// Reading the wire form of a valid value gives that value back.
pub proof fn lemma_accept_round_trip(unit: Option<UnitView>)
    requires
        accept_is_valid(unit),
    ensures
        spec_accept_from_str(spec_accept_to_string(unit)) == unit,
{
    assert(bytes_token() != none_token()) by {
        assert(bytes_token().len() != none_token().len());
    }
}

/// Writing what was read gives the wire form back, whatever it was.
pub proof fn lemma_accept_to_string_from_str(s: Seq<char>)
    ensures
        spec_accept_to_string(spec_accept_from_str(s)) == s,
        accept_is_valid(spec_accept_from_str(s)),
{
}

/// Where the `Accept-Ranges` header is absent, it says nothing.
pub proof fn lemma_accept_header_absent(headers: Map<Seq<char>, Seq<Seq<char>>>)
    requires
        !headers.contains_key(ACCEPT_RANGES@),
    ensures
        spec_accept_from_headers(headers) is None,
{
}

/// Where the `Accept-Ranges` header has several values, it says what its
/// last value alone would.
pub proof fn lemma_accept_header_last_wins(headers: Map<Seq<char>, Seq<Seq<char>>>)
    requires
        headers.contains_key(ACCEPT_RANGES@),
        headers[ACCEPT_RANGES@].len() >= 2,
    ensures
        spec_accept_from_headers(headers) == spec_accept_from_headers(
            map![ACCEPT_RANGES@ => seq![headers[ACCEPT_RANGES@].last()]],
        ),
{
    let single = map![ACCEPT_RANGES@ => seq![headers[ACCEPT_RANGES@].last()]];
    assert(single.contains_key(ACCEPT_RANGES@));
    assert(single[ACCEPT_RANGES@].last() == headers[ACCEPT_RANGES@].last());
}

/// A valid value that was written to a container is read back from it.
pub proof fn lemma_accept_header_round_trip(
    headers: Map<Seq<char>, Seq<Seq<char>>>,
    unit: Option<UnitView>,
)
    requires
        accept_is_valid(unit),
    ensures
        spec_accept_from_headers(headers.insert(ACCEPT_RANGES@, seq![spec_accept_to_string(unit)]))
            == Some(unit),
{
    let w = spec_accept_to_string(unit);
    let after = headers.insert(ACCEPT_RANGES@, seq![w]);
    lemma_accept_round_trip(unit);
    assert(after.contains_key(ACCEPT_RANGES@));
    assert(after[ACCEPT_RANGES@].last() == w);
}

/// Tells whether `v` is the token `none`.
pub(crate) fn is_none_token(v: &[char]) -> (r: bool)
    ensures
        r == (v@ == none_token()),
{
    if v.len() == 4 && v[0] == 'n' && v[1] == 'o' && v[2] == 'n' && v[3] == 'e' {
        assert(v@ =~= none_token());
        true
    } else {
        assert(v@ != none_token()) by {
            if v@.len() == 4 {
                assert(v@[0] != 'n' || v@[1] != 'o' || v@[2] != 'n' || v@[3] != 'e');
            }
        }
        false
    }
}

} // verus!
