//! A container of header fields: each name, without regard to case, with
//! the values that were given for it, in the order in which they came.
use crate::text::chars_of;
use vstd::prelude::*;

verus! {

/// The name of the `Accept-Ranges` header.
pub const ACCEPT_RANGES: &'static str = "accept-ranges";

/// The name of the `Content-Range` header.
pub const CONTENT_RANGE: &'static str = "content-range";

/// The name of the `Range` header.
pub const RANGE: &'static str = "range";

/// The lower-case form of an ASCII letter; every other character is left
/// as it is.
pub open spec fn to_ascii_lowercase(c: char) -> char {
    if 'A' <= c <= 'Z' {
        ((c as u32 + 32) as u8) as char
    } else {
        c
    }
}

/// The form in which a header name is stored and looked up: its ASCII
/// letters in lower case.
pub open spec fn canonical_name(name: Seq<char>) -> Seq<char> {
    Seq::new(name.len(), |i: int| to_ascii_lowercase(name[i]))
}

/// A name without upper-case ASCII letters is its own canonical form.
pub proof fn lemma_canonical_name_of_lowercase(name: Seq<char>)
    requires
        forall|i: int| 0 <= i < name.len() ==> !('A' <= #[trigger] name[i] <= 'Z'),
    ensures
        canonical_name(name) == name,
{
    assert(canonical_name(name) =~= name);
}

/// The names of the three range headers are in canonical form.
pub proof fn lemma_header_names_are_canonical()
    ensures
        canonical_name(ACCEPT_RANGES@) == ACCEPT_RANGES@,
        canonical_name(CONTENT_RANGE@) == CONTENT_RANGE@,
        canonical_name(RANGE@) == RANGE@,
        ACCEPT_RANGES@ != CONTENT_RANGE@,
        ACCEPT_RANGES@ != RANGE@,
        CONTENT_RANGE@ != RANGE@,
{
    reveal_strlit("accept-ranges");
    reveal_strlit("content-range");
    reveal_strlit("range");
    lemma_canonical_name_of_lowercase(ACCEPT_RANGES@);
    lemma_canonical_name_of_lowercase(CONTENT_RANGE@);
    lemma_canonical_name_of_lowercase(RANGE@);
    assert(ACCEPT_RANGES@[0] == 'a');
    assert(CONTENT_RANGE@[0] == 'c');
    assert(RANGE@[0] == 'r');
}

/// The last value of the header `name` in `headers`, if it has one.
pub open spec fn last_value(headers: Map<Seq<char>, Seq<Seq<char>>>, name: Seq<char>) -> Option<
    Seq<char>,
> {
    if headers.contains_key(name) && headers[name].len() > 0 {
        Some(headers[name].last())
    } else {
        None
    }
}

/// One header field: a canonical name and its values.
struct Entry {
    name: String,
    values: Vec<String>,
}

/// The values of an entry, as plain values.
spec fn entry_values(e: Entry) -> Seq<Seq<char>> {
    Seq::new(e.values@.len(), |i: int| e.values@[i]@)
}

/// The values of the first entry named `key`, if there is one.
spec fn lookup(entries: Seq<Entry>, key: Seq<char>) -> Option<Seq<Seq<char>>>
    decreases entries.len(),
{
    if entries.len() == 0 {
        None
    } else if entries[0].name@ == key {
        Some(entry_values(entries[0]))
    } else {
        lookup(entries.skip(1), key)
    }
}

/// `lookup` finds the first entry named `key`: the one at `k`, or none when
/// `k` is the length.
proof fn lemma_lookup_at(entries: Seq<Entry>, key: Seq<char>, k: int)
    requires
        0 <= k <= entries.len(),
        forall|j: int| 0 <= j < k ==> (#[trigger] entries[j]).name@ != key,
        k < entries.len() ==> entries[k].name@ == key,
    ensures
        lookup(entries, key) == if k < entries.len() {
            Some(entry_values(entries[k]))
        } else {
            None
        },
    decreases entries.len(),
{
    if k > 0 {
        let rest = entries.skip(1);
        assert forall|j: int| 0 <= j < k - 1 implies (#[trigger] rest[j]).name@ != key by {
            assert(rest[j] == entries[j + 1]);
        }
        lemma_lookup_at(rest, key, k - 1);
    }
}

/// Two lists of entries with the same names, and the same values wherever
/// the name is `key`, give the same values for `key`.
proof fn lemma_lookup_same(a: Seq<Entry>, b: Seq<Entry>, key: Seq<char>)
    requires
        a.len() == b.len(),
        forall|j: int| 0 <= j < a.len() ==> (#[trigger] a[j]).name@ == b[j].name@,
        forall|j: int|
            0 <= j < a.len() && (#[trigger] a[j]).name@ == key ==> entry_values(a[j])
                == entry_values(b[j]),
    ensures
        lookup(a, key) == lookup(b, key),
    decreases a.len(),
{
    if a.len() > 0 {
        assert(a[0].name@ == b[0].name@);
        if a[0].name@ != key {
            let ra = a.skip(1);
            let rb = b.skip(1);
            assert forall|j: int| 0 <= j < ra.len() implies (#[trigger] ra[j]).name@
                == rb[j].name@ by {
                assert(ra[j] == a[j + 1]);
            }
            assert forall|j: int|
                0 <= j < ra.len() && (#[trigger] ra[j]).name@ == key implies entry_values(ra[j])
                == entry_values(rb[j]) by {
                assert(ra[j] == a[j + 1]);
            }
            lemma_lookup_same(ra, rb, key);
        }
    }
}

/// An entry added at the end is found under its name only if no earlier
/// entry has that name, and changes nothing for other names.
proof fn lemma_lookup_push(entries: Seq<Entry>, e: Entry, key: Seq<char>)
    ensures
        lookup(entries.push(e), key) == if lookup(entries, key) is Some {
            lookup(entries, key)
        } else if e.name@ == key {
            Some(entry_values(e))
        } else {
            None
        },
    decreases entries.len(),
{
    let all = entries.push(e);
    if entries.len() == 0 {
        assert(lookup(all.skip(1), key) is None);
    } else if entries[0].name@ != key {
        assert(all.skip(1) =~= entries.skip(1).push(e));
        lemma_lookup_push(entries.skip(1), e, key);
    }
}

/// A container of header fields.
pub struct Headers {
    entries: Vec<Entry>,
}

impl View for Headers {
    type V = Map<Seq<char>, Seq<Seq<char>>>;

    /// The values of each header that is present, by its canonical name.
    closed spec fn view(&self) -> Map<Seq<char>, Seq<Seq<char>>> {
        Map::new(
            |key: Seq<char>| lookup(self.entries@, key) is Some,
            |key: Seq<char>| lookup(self.entries@, key)->0,
        )
    }
}

impl Headers {
    /// Every header that is present has at least one value.
    #[verifier::type_invariant]
    spec fn has_values(self) -> bool {
        forall|i: int|
            0 <= i < self.entries@.len() ==> (#[trigger] self.entries@[i]).values@.len() > 0
    }

    /// A container with no header in it.
    pub fn new() -> (h: Headers)
        ensures
            h@ == Map::<Seq<char>, Seq<Seq<char>>>::empty(),
    {
        let h = Headers { entries: Vec::new() };
        assert(h@ =~= Map::<Seq<char>, Seq<Seq<char>>>::empty());
        h
    }

    /// The index of the first entry named `key`, or the number of entries
    /// when there is none.
    fn find(&self, key: &String) -> (k: usize)
        ensures
            k <= self.entries@.len(),
            forall|j: int| 0 <= j < k ==> (#[trigger] self.entries@[j]).name@ != key@,
            k < self.entries@.len() ==> self.entries@[k as int].name@ == key@,
            lookup(self.entries@, key@) == if k < self.entries@.len() {
                Some(entry_values(self.entries@[k as int]))
            } else {
                None
            },
    {
        let mut k: usize = 0;
        while k < self.entries.len() && self.entries[k].name != *key
            invariant
                k <= self.entries@.len(),
                forall|j: int| 0 <= j < k ==> (#[trigger] self.entries@[j]).name@ != key@,
            decreases self.entries@.len() - k,
        {
            k += 1;
        }
        proof {
            lemma_lookup_at(self.entries@, key@, k as int);
        }
        k
    }

    /// The values of the header `name`, if it is present. Letter case in
    /// `name` does not matter.
    pub fn get(&self, name: &str) -> (r: Option<&Vec<String>>)
        ensures
            r is Some <==> self@.contains_key(canonical_name(name@)),
            r matches Some(values) ==> values@.len() > 0 && self@[canonical_name(name@)]
                == Seq::new(values@.len(), |i: int| values@[i]@),
    {
        let key = canonical(name);
        let k = self.find(&key);
        proof {
            use_type_invariant(self);
        }
        if k < self.entries.len() {
            Some(&self.entries[k].values)
        } else {
            None
        }
    }

    /// The last value of the header `name`, if it is present. Letter case
    /// in `name` does not matter.
    pub fn last(&self, name: &str) -> (r: Option<&str>)
        ensures
            r is Some <==> self@.contains_key(canonical_name(name@)),
            match r {
                Some(value) => last_value(self@, canonical_name(name@)) == Some(value@),
                None => last_value(self@, canonical_name(name@)) is None,
            },
    {
        match self.get(name) {
            Some(values) => Some(values[values.len() - 1].as_str()),
            None => None,
        }
    }

    /// Sets the header `name` to the one value `value`, in place of any
    /// values it had.
    pub fn insert(&mut self, name: &str, value: &str)
        ensures
            final(self)@ == old(self)@.insert(canonical_name(name@), seq![value@]),
    {
        let key = canonical(name);
        let k = self.find(&key);
        let mut values: Vec<String> = Vec::new();
        values.push(value.to_owned());
        let entry = Entry { name: key, values };
        assert(entry_values(entry) =~= seq![value@]);
        let ghost before = self.entries@;
        proof {
            use_type_invariant(&*self);
        }
        let mut entries: Vec<Entry> = Vec::new();
        core::mem::swap(&mut self.entries, &mut entries);
        if k < entries.len() {
            entries.set(k, entry);
        } else {
            entries.push(entry);
        }
        core::mem::swap(&mut self.entries, &mut entries);
        proof {
            let after = self.entries@;
            let target = old(self)@.insert(canonical_name(name@), seq![value@]);
            assert forall|other: Seq<char>| lookup(after, other) == if other == entry.name@ {
                Some(entry_values(entry))
            } else {
                lookup(before, other)
            } by {
                if k < before.len() {
                    if other == entry.name@ {
                        lemma_lookup_at(after, other, k as int);
                    } else {
                        lemma_lookup_same(before, after, other);
                    }
                } else {
                    lemma_lookup_push(before, entry, other);
                }
            }
            assert(final(self)@ =~= target);
        }
    }

    /// Adds `value` after the values that the header `name` has, if any.
    pub fn append(&mut self, name: &str, value: &str)
        ensures
            final(self)@ == old(self)@.insert(
                canonical_name(name@),
                if old(self)@.contains_key(canonical_name(name@)) {
                    old(self)@[canonical_name(name@)].push(value@)
                } else {
                    seq![value@]
                },
            ),
    {
        let key = canonical(name);
        let k = self.find(&key);
        let ghost before = self.entries@;
        let ghost added: Seq<Seq<char>>;
        let ghost stored: Entry;
        proof {
            use_type_invariant(&*self);
        }
        let mut entries: Vec<Entry> = Vec::new();
        core::mem::swap(&mut self.entries, &mut entries);
        if k < entries.len() {
            let mut entry = entries.remove(k);
            proof {
                added = entry_values(entry).push(value@);
            }
            entry.values.push(value.to_owned());
            assert(entry_values(entry) =~= added);
            proof {
                stored = entry;
            }
            entries.insert(k, entry);
            assert(entries@ =~= before.update(k as int, stored));
        } else {
            let mut values: Vec<String> = Vec::new();
            values.push(value.to_owned());
            let entry = Entry { name: key, values };
            proof {
                added = seq![value@];
                stored = entry;
            }
            assert(entry_values(entry) =~= added);
            entries.push(entry);
        }
        core::mem::swap(&mut self.entries, &mut entries);
        proof {
            let after = self.entries@;
            assert forall|other: Seq<char>| lookup(after, other) == if other == key@ {
                Some(added)
            } else {
                lookup(before, other)
            } by {
                if k < before.len() {
                    if other == key@ {
                        lemma_lookup_at(after, other, k as int);
                    } else {
                        lemma_lookup_same(before, after, other);
                    }
                } else {
                    lemma_lookup_push(before, stored, other);
                }
            }
            assert(final(self)@ =~= old(self)@.insert(canonical_name(name@), added));
        }
    }
}

/// The canonical form of a header name.
pub fn canonical(name: &str) -> (r: String)
    ensures
        r@ == canonical_name(name@),
{
    let chars = chars_of(name);
    let mut out = String::new();
    let mut i: usize = 0;
    while i < chars.len()
        invariant
            i <= chars@.len(),
            chars@ == name@,
            out@ == canonical_name(name@).take(i as int),
        decreases chars@.len() - i,
    {
        let c = chars[i];
        let lower = if 'A' <= c && c <= 'Z' {
            ((c as u8) + 32) as char
        } else {
            c
        };
        out.push(lower);
        assert(out@ =~= canonical_name(name@).take(i + 1));
        i += 1;
    }
    assert(canonical_name(name@).take(i as int) =~= canonical_name(name@));
    out
}

} // verus!
