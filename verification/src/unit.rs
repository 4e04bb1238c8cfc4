//! The unit in which a range counts.
use crate::text::chars_of;
use vstd::prelude::*;

verus! {

/// The token of the `bytes` unit.
pub open spec fn bytes_token() -> Seq<char> {
    seq!['b', 'y', 't', 'e', 's']
}

/// What a [`Unit`] holds.
pub enum UnitView {
    /// The `bytes` unit.
    Bytes,
    /// Another unit, by its token.
    Other(Seq<char>),
}

impl UnitView {
    /// The unit that the token `s` names: `bytes` is the bytes unit, and
    /// every other token is carried as it is.
    pub open spec fn from_token(s: Seq<char>) -> UnitView {
        if s == bytes_token() {
            UnitView::Bytes
        } else {
            UnitView::Other(s)
        }
    }

    /// The token that names the unit.
    pub open spec fn token(self) -> Seq<char> {
        match self {
            UnitView::Bytes => bytes_token(),
            UnitView::Other(s) => s,
        }
    }

    /// The units that their token names: the bytes unit, and every other
    /// unit whose token is not `bytes`.
    pub open spec fn is_canonical(self) -> bool {
        self matches UnitView::Other(s) ==> s != bytes_token()
    }
}

/// The unit of an HTTP range request.
#[non_exhaustive]
#[derive(Clone, Debug, PartialEq, Eq)]
pub enum Unit {
    /// Ranges over the octets of the document.
    Bytes,
    /// A unit that this library does not know, by its token.
    Other(String),
}

impl View for Unit {
    type V = UnitView;

    open spec fn view(&self) -> UnitView {
        match self {
            Unit::Bytes => UnitView::Bytes,
            Unit::Other(s) => UnitView::Other(s@),
        }
    }
}

impl Default for Unit {
    fn default() -> (u: Unit)
        ensures
            u == Unit::Bytes,
    {
        Unit::Bytes
    }
}

impl Unit {
    /// The unit that the token `s` names.
    pub fn from_token(s: &str) -> (u: Unit)
        ensures
            u@ == UnitView::from_token(s@),
            u@.is_canonical(),
    {
        let chars = chars_of(s);
        if is_bytes_token(chars.as_slice()) {
            Unit::Bytes
        } else {
            Unit::Other(s.to_owned())
        }
    }

    /// The token that names the unit.
    pub fn to_string(&self) -> (s: String)
        ensures
            s@ == self@.token(),
    {
        let mut out = String::new();
        self.write_to(&mut out);
        assert(Seq::<char>::empty() + self@.token() =~= self@.token());
        out
    }

    /// Appends the token that names the unit to `out`.
    pub fn write_to(&self, out: &mut String)
        ensures
            final(out)@ == old(out)@ + self@.token(),
    {
        match self {
            Unit::Bytes => {
                out.push('b');
                out.push('y');
                out.push('t');
                out.push('e');
                out.push('s');
                assert(final(out)@ =~= old(out)@ + bytes_token());
            },
            Unit::Other(s) => {
                out.append(s.as_str());
            },
        }
    }
}

impl vstd::std_specs::convert::FromSpecImpl<&str> for Unit {
    /// A unit holds a `String`, of which only the view is specified: what
    /// `from` returns is stated on `from` itself, over views.
    open spec fn obeys_from_spec() -> bool {
        false
    }

    open spec fn from_spec(s: &str) -> Unit {
        Unit::Bytes
    }
}

impl From<&str> for Unit {
    fn from(s: &str) -> (u: Unit)
        ensures
            u@ == UnitView::from_token(s@),
    {
        Unit::from_token(s)
    }
}

/// Reading the token of a canonical unit gives that unit back.
pub proof fn lemma_unit_round_trip(u: UnitView)
    requires
        u.is_canonical(),
    ensures
        UnitView::from_token(u.token()) == u,
{
}

/// Tells whether `v` is the token `bytes`.
pub(crate) fn is_bytes_token(v: &[char]) -> (r: bool)
    ensures
        r == (v@ == bytes_token()),
{
    if v.len() == 5 && v[0] == 'b' && v[1] == 'y' && v[2] == 't' && v[3] == 'e' && v[4] == 's' {
        assert(v@ =~= bytes_token());
        true
    } else {
        assert(v@ != bytes_token()) by {
            if v@.len() == 5 {
                assert(v@[0] != 'b' || v@[1] != 'y' || v@[2] != 't' || v@[3] != 'e' || v@[4]
                    != 's');
            }
        }
        false
    }
}

} // verus!
