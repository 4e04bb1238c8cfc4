//! Character-level building blocks shared by the header codecs: whitespace
//! trimming, searching for a separator, and splitting into fields.
use vstd::prelude::*;

verus! {

/// The characters with the Unicode `White_Space` property.
pub open spec fn is_whitespace(c: char) -> bool {
    let n = c as u32;
    ||| 0x09 <= n <= 0x0D
    ||| n == 0x20
    ||| n == 0x85
    ||| n == 0xA0
    ||| n == 0x1680
    ||| 0x2000 <= n <= 0x200A
    ||| n == 0x2028
    ||| n == 0x2029
    ||| n == 0x202F
    ||| n == 0x205F
    ||| n == 0x3000
}

/// `s` without its leading whitespace.
pub open spec fn trim_start(s: Seq<char>) -> Seq<char>
    decreases s.len(),
{
    if s.len() > 0 && is_whitespace(s[0]) {
        trim_start(s.skip(1))
    } else {
        s
    }
}

/// `s` without its trailing whitespace.
pub open spec fn trim_end(s: Seq<char>) -> Seq<char>
    decreases s.len(),
{
    if s.len() > 0 && is_whitespace(s.last()) {
        trim_end(s.drop_last())
    } else {
        s
    }
}

/// `s` without its leading and trailing whitespace.
pub open spec fn trim(s: Seq<char>) -> Seq<char> {
    trim_end(trim_start(s))
}

/// The index of the first occurrence of `c` in `s`, or `s.len()` when `c`
/// does not occur.
pub open spec fn position(s: Seq<char>, c: char) -> int
    decreases s.len(),
{
    if s.len() == 0 || s[0] == c {
        0
    } else {
        1 + position(s.skip(1), c)
    }
}

/// The fields of `s` between occurrences of `sep`. There is always at least
/// one field; a string without `sep` is a single field.
pub open spec fn split(s: Seq<char>, sep: char) -> Seq<Seq<char>>
    decreases s.len(),
{
    let i = position(s, sep);
    if 0 <= i < s.len() {
        seq![s.take(i)] + split(s.skip(i + 1), sep)
    } else {
        seq![s]
    }
}

/// The fields `parts`, joined with `sep` between neighbours.
pub open spec fn join(parts: Seq<Seq<char>>, sep: char) -> Seq<char>
    decreases parts.len(),
{
    if parts.len() == 0 {
        Seq::empty()
    } else if parts.len() == 1 {
        parts[0]
    } else {
        join(parts.drop_last(), sep) + seq![sep] + parts.last()
    }
}

/// `s` without any of its whitespace.
pub open spec fn strip_whitespace(s: Seq<char>) -> Seq<char>
    decreases s.len(),
{
    if s.len() == 0 {
        s
    } else if is_whitespace(s.last()) {
        strip_whitespace(s.drop_last())
    } else {
        strip_whitespace(s.drop_last()).push(s.last())
    }
}

/// Each of `parts` without any of its whitespace.
pub open spec fn strip_each(parts: Seq<Seq<char>>) -> Seq<Seq<char>> {
    Seq::new(parts.len(), |i: int| strip_whitespace(parts[i]))
}

/// No character of `s` is whitespace.
pub open spec fn has_no_whitespace(s: Seq<char>) -> bool {
    forall|i: int| 0 <= i < s.len() ==> !is_whitespace(#[trigger] s[i])
}

/// Every character of `s` is an ASCII character.
pub open spec fn is_ascii(s: Seq<char>) -> bool {
    forall|i: int| 0 <= i < s.len() ==> (#[trigger] s[i]) as u32 <= 127
}

/// `trim_start` removes exactly the whitespace before the first
/// non-whitespace character.
pub proof fn lemma_trim_start_at(s: Seq<char>, k: int)
    requires
        0 <= k <= s.len(),
        forall|j: int| 0 <= j < k ==> is_whitespace(s[j]),
        k == s.len() || !is_whitespace(s[k]),
    ensures
        trim_start(s) == s.skip(k),
    decreases s.len(),
{
    if k == 0 {
        assert(s.skip(0) =~= s);
    } else {
        let t = s.skip(1);
        assert forall|j: int| 0 <= j < k - 1 implies is_whitespace(t[j]) by {
            assert(t[j] == s[j + 1]);
        }
        lemma_trim_start_at(t, k - 1);
        assert(t.skip(k - 1) =~= s.skip(k));
    }
}

/// `trim_end` removes exactly the whitespace after the last non-whitespace
/// character.
pub proof fn lemma_trim_end_at(s: Seq<char>, k: int)
    requires
        0 <= k <= s.len(),
        forall|j: int| k <= j < s.len() ==> is_whitespace(s[j]),
        k == 0 || !is_whitespace(s[k - 1]),
    ensures
        trim_end(s) == s.take(k),
    decreases s.len(),
{
    if k == s.len() {
        assert(s.take(k) =~= s);
    } else {
        let t = s.drop_last();
        lemma_trim_end_at(t, k);
        assert(t.take(k) =~= s.take(k));
    }
}

/// `position` is the one index at which `c` occurs with no earlier
/// occurrence.
pub proof fn lemma_position_at(s: Seq<char>, c: char, k: int)
    requires
        0 <= k <= s.len(),
        forall|j: int| 0 <= j < k ==> s[j] != c,
        k == s.len() || s[k] == c,
    ensures
        position(s, c) == k,
    decreases s.len(),
{
    if k > 0 {
        let t = s.skip(1);
        assert forall|j: int| 0 <= j < k - 1 implies t[j] != c by {
            assert(t[j] == s[j + 1]);
        }
        lemma_position_at(t, c, k - 1);
    }
}

/// What `position` returns: an index within bounds, at which `c` stands
/// unless it is the length, and before which `c` does not occur.
pub proof fn lemma_position(s: Seq<char>, c: char)
    ensures
        0 <= position(s, c) <= s.len(),
        position(s, c) < s.len() ==> s[position(s, c)] == c,
        forall|j: int| 0 <= j < position(s, c) ==> s[j] != c,
    decreases s.len(),
{
    if s.len() == 0 || s[0] == c {
    } else {
        let t = s.skip(1);
        lemma_position(t, c);
        assert forall|j: int| 0 <= j < position(s, c) implies s[j] != c by {
            if j > 0 {
                assert(t[j - 1] == s[j]);
            }
        }
    }
}

/// Joining two or more fields puts the first field and a separator before
/// the others joined.
pub proof fn lemma_join_front(parts: Seq<Seq<char>>, sep: char)
    requires
        parts.len() >= 2,
    ensures
        join(parts, sep) == parts[0] + seq![sep] + join(parts.skip(1), sep),
    decreases parts.len(),
{
    let rest = parts.skip(1);
    if parts.len() == 2 {
        assert(parts.drop_last().len() == 1 && rest.len() == 1);
        assert(join(parts.drop_last(), sep) == parts[0]);
        assert(join(rest, sep) == parts[1]);
    } else {
        let init = parts.drop_last();
        lemma_join_front(init, sep);
        assert(init.skip(1) =~= rest.drop_last());
        assert(rest.last() == parts.last());
        assert(join(parts, sep) =~= parts[0] + seq![sep] + join(rest, sep));
    }
}

/// Splitting what was joined gives the fields back, provided that none of
/// them holds the separator.
pub proof fn lemma_split_join(parts: Seq<Seq<char>>, sep: char)
    requires
        parts.len() >= 1,
        forall|i: int, j: int|
            0 <= i < parts.len() && 0 <= j < parts[i].len() ==> parts[i][j] != sep,
    ensures
        split(join(parts, sep), sep) == parts,
    decreases parts.len(),
{
    let s = join(parts, sep);
    let k = parts[0].len() as int;
    if parts.len() == 1 {
        lemma_position_at(s, sep, k);
        assert(split(s, sep) =~= parts);
    } else {
        let rest = parts.skip(1);
        lemma_join_front(parts, sep);
        assert forall|j: int| 0 <= j < k implies s[j] != sep by {
            assert(s[j] == parts[0][j]);
        }
        assert(s[k] == sep);
        lemma_position_at(s, sep, k);
        assert(s.take(k) =~= parts[0]);
        assert(s.skip(k + 1) =~= join(rest, sep));
        assert forall|i: int, j: int|
            0 <= i < rest.len() && 0 <= j < rest[i].len() implies rest[i][j] != sep by {
            assert(rest[i] == parts[i + 1]);
        }
        lemma_split_join(rest, sep);
        assert(seq![parts[0]] + rest =~= parts);
    }
}

/// Joining the fields of a string gives the string back.
pub proof fn lemma_join_split(s: Seq<char>, sep: char)
    ensures
        split(s, sep).len() >= 1,
        join(split(s, sep), sep) == s,
    decreases s.len(),
{
    let i = position(s, sep);
    lemma_position(s, sep);
    if i < s.len() {
        let tail = s.skip(i + 1);
        let parts = split(s, sep);
        lemma_join_split(tail, sep);
        assert(parts.skip(1) =~= split(tail, sep));
        lemma_join_front(parts, sep);
        assert(s.take(i) + seq![sep] + tail =~= s);
    }
}

/// A single character is stripped if it is whitespace, and kept if not.
pub proof fn lemma_strip_single(c: char)
    ensures
        strip_whitespace(seq![c]) == if is_whitespace(c) {
            Seq::<char>::empty()
        } else {
            seq![c]
        },
{
    let s = seq![c];
    let none = Seq::<char>::empty();
    assert(s.drop_last() =~= none);
    assert(strip_whitespace(none) == none);
    assert(s.last() == c);
    assert(none.push(c) =~= s);
}

/// Stripping whitespace from two strings in a row strips it from each.
pub proof fn lemma_strip_concat(a: Seq<char>, b: Seq<char>)
    ensures
        strip_whitespace(a + b) == strip_whitespace(a) + strip_whitespace(b),
    decreases b.len(),
{
    if b.len() == 0 {
        assert(a + b =~= a);
        assert(strip_whitespace(a) + strip_whitespace(b) =~= strip_whitespace(a));
    } else {
        let init = b.drop_last();
        lemma_strip_concat(a, init);
        assert((a + b).drop_last() =~= a + init);
        assert((a + b).last() == b.last());
        assert(strip_whitespace(a + b) =~= strip_whitespace(a) + strip_whitespace(b));
    }
}

/// A string without whitespace is left as it is.
pub proof fn lemma_strip_nothing(s: Seq<char>)
    requires
        has_no_whitespace(s),
    ensures
        strip_whitespace(s) == s,
    decreases s.len(),
{
    if s.len() > 0 {
        let init = s.drop_last();
        assert forall|i: int| 0 <= i < init.len() implies !is_whitespace(#[trigger] init[i]) by {
            assert(init[i] == s[i]);
        }
        lemma_strip_nothing(init);
        assert(!is_whitespace(s[s.len() - 1]));
        assert(init.push(s.last()) =~= s);
    }
}

/// Whitespace at either end is among the whitespace that is stripped.
pub proof fn lemma_strip_trim(s: Seq<char>)
    ensures
        strip_whitespace(trim_start(s)) == strip_whitespace(s),
        strip_whitespace(trim_end(s)) == strip_whitespace(s),
        strip_whitespace(trim(s)) == strip_whitespace(s),
    decreases s.len(),
{
    if s.len() > 0 {
        if is_whitespace(s[0]) {
            let head = seq![s[0]];
            let rest = s.skip(1);
            lemma_strip_trim(rest);
            lemma_strip_concat(head, rest);
            assert(head + rest =~= s);
            lemma_strip_single(s[0]);
            assert(strip_whitespace(head) + strip_whitespace(rest) =~= strip_whitespace(rest));
        }
        if is_whitespace(s.last()) {
            lemma_strip_trim(s.drop_last());
        }
    }
    lemma_strip_trim_end_only(trim_start(s));
}

/// Whitespace at the end is among the whitespace that is stripped.
pub proof fn lemma_strip_trim_end_only(s: Seq<char>)
    ensures
        strip_whitespace(trim_end(s)) == strip_whitespace(s),
    decreases s.len(),
{
    if s.len() > 0 && is_whitespace(s.last()) {
        lemma_strip_trim_end_only(s.drop_last());
    }
}

/// Stripping whitespace from fields that are joined strips it from each
/// field, provided that the separator is no whitespace.
pub proof fn lemma_strip_join(parts: Seq<Seq<char>>, sep: char)
    requires
        !is_whitespace(sep),
    ensures
        strip_whitespace(join(parts, sep)) == join(strip_each(parts), sep),
    decreases parts.len(),
{
    let stripped = strip_each(parts);
    if parts.len() == 0 {
    } else if parts.len() == 1 {
    } else {
        let init = parts.drop_last();
        lemma_strip_join(init, sep);
        assert(stripped.drop_last() =~= strip_each(init));
        let left = join(init, sep) + seq![sep];
        lemma_strip_concat(left, parts.last());
        lemma_strip_concat(join(init, sep), seq![sep]);
        lemma_strip_single(sep);
    }
}

/// ASCII fields joined with an ASCII separator are ASCII.
pub proof fn lemma_join_ascii(parts: Seq<Seq<char>>, sep: char)
    requires
        forall|i: int| 0 <= i < parts.len() ==> is_ascii(#[trigger] parts[i]),
        sep as u32 <= 127,
    ensures
        is_ascii(join(parts, sep)),
    decreases parts.len(),
{
    if parts.len() >= 2 {
        let init = parts.drop_last();
        assert forall|i: int| 0 <= i < init.len() implies is_ascii(#[trigger] init[i]) by {
            assert(init[i] == parts[i]);
        }
        lemma_join_ascii(init, sep);
        let left = join(init, sep);
        let last = parts.last();
        let all = join(parts, sep);
        assert(is_ascii(last));
        assert forall|i: int| 0 <= i < all.len() implies (#[trigger] all[i]) as u32 <= 127 by {
            if i < left.len() {
                assert(all[i] == left[i]);
            } else if i > left.len() {
                assert(all[i] == last[i - left.len() - 1]);
            }
        }
    } else if parts.len() == 1 {
        assert(is_ascii(parts[0]));
    }
}

/// Tells whether `c` has the Unicode `White_Space` property.
pub fn char_is_whitespace(c: char) -> (r: bool)
    ensures
        r == is_whitespace(c),
{
    let n: u32 = c as u32;
    (0x09 <= n && n <= 0x0D) || n == 0x20 || n == 0x85 || n == 0xA0 || n == 0x1680 || (0x2000 <= n
        && n <= 0x200A) || n == 0x2028 || n == 0x2029 || n == 0x202F || n == 0x205F || n == 0x3000
}

/// The characters of `s`, in order.
pub fn chars_of(s: &str) -> (v: Vec<char>)
    ensures
        v@ == s@,
{
    let mut v: Vec<char> = Vec::new();
    let it = s.chars();
    for c in iter: it
        invariant
            v@ == iter.seq().take(iter.index()),
            iter.seq() == s@,
    {
        v.push(c);
    }
    v
}

/// The start of `v[lo..hi]` once its leading whitespace is dropped.
pub(crate) fn skip_leading_whitespace(v: &[char], lo: usize, hi: usize) -> (a: usize)
    requires
        lo <= hi <= v.len(),
    ensures
        lo <= a <= hi,
        v@.subrange(a as int, hi as int) == trim_start(v@.subrange(lo as int, hi as int)),
{
    let mut a: usize = lo;
    while a < hi && char_is_whitespace(v[a])
        invariant
            lo <= a <= hi <= v.len(),
            forall|j: int| lo <= j < a ==> is_whitespace(v@[j]),
        decreases hi - a,
    {
        a += 1;
    }
    proof {
        let s = v@.subrange(lo as int, hi as int);
        lemma_trim_start_at(s, a - lo);
        assert(s.skip(a - lo) =~= v@.subrange(a as int, hi as int));
    }
    a
}

/// The end of `v[lo..hi]` once its trailing whitespace is dropped.
pub(crate) fn skip_trailing_whitespace(v: &[char], lo: usize, hi: usize) -> (b: usize)
    requires
        lo <= hi <= v.len(),
    ensures
        lo <= b <= hi,
        v@.subrange(lo as int, b as int) == trim_end(v@.subrange(lo as int, hi as int)),
{
    let mut b: usize = hi;
    while b > lo && char_is_whitespace(v[b - 1])
        invariant
            lo <= b <= hi <= v.len(),
            forall|j: int| b <= j < hi ==> is_whitespace(v@[j]),
        decreases b - lo,
    {
        b -= 1;
    }
    proof {
        let s = v@.subrange(lo as int, hi as int);
        lemma_trim_end_at(s, b - lo);
        assert(s.take(b - lo) =~= v@.subrange(lo as int, b as int));
    }
    b
}

/// The bounds of `v[lo..hi]` once the whitespace at both ends is dropped.
pub(crate) fn trim_bounds(v: &[char], lo: usize, hi: usize) -> (r: (usize, usize))
    requires
        lo <= hi <= v.len(),
    ensures
        lo <= r.0 <= r.1 <= hi,
        v@.subrange(r.0 as int, r.1 as int) == trim(v@.subrange(lo as int, hi as int)),
{
    let a = skip_leading_whitespace(v, lo, hi);
    let b = skip_trailing_whitespace(v, a, hi);
    (a, b)
}

/// The index of the first `c` in `v[lo..hi]`, or `hi` when there is none.
pub(crate) fn find_char(v: &[char], lo: usize, hi: usize, c: char) -> (p: usize)
    requires
        lo <= hi <= v.len(),
    ensures
        lo <= p <= hi,
        p - lo == position(v@.subrange(lo as int, hi as int), c),
{
    let mut p: usize = lo;
    while p < hi && v[p] != c
        invariant
            lo <= p <= hi <= v.len(),
            forall|j: int| lo <= j < p ==> v@[j] != c,
        decreases hi - p,
    {
        p += 1;
    }
    proof {
        lemma_position_at(v@.subrange(lo as int, hi as int), c, p - lo);
    }
    p
}

} // verus!
