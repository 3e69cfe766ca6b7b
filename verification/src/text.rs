//! Character-level text utilities shared by the rest of the library.
//!
//! Strings are modelled by their views, `Seq<char>`; the executable helpers
//! work on `&[char]` and convert at the boundaries.
use vstd::prelude::*;

verus! {

// ---------------------------------------------------------------------------
// Specifications
// ---------------------------------------------------------------------------
/// The Unicode `White_Space` property.
pub open spec fn is_white_space(c: char) -> bool {
    let v = c as u32;
    (0x9 <= v && v <= 0xd) || v == 0x20 || v == 0x85 || v == 0xa0 || v == 0x1680 || (0x2000 <= v
        && v <= 0x200a) || v == 0x2028 || v == 0x2029 || v == 0x202f || v == 0x205f || v == 0x3000
}

/// `s` with its leading white space removed.
pub open spec fn trim_start(s: Seq<char>) -> Seq<char>
    decreases s.len(),
{
    if s.len() > 0 && is_white_space(s[0]) {
        trim_start(s.drop_first())
    } else {
        s
    }
}

/// `s` with its trailing white space removed.
pub open spec fn trim_end(s: Seq<char>) -> Seq<char>
    decreases s.len(),
{
    if s.len() > 0 && is_white_space(s.last()) {
        trim_end(s.drop_last())
    } else {
        s
    }
}

/// `s` with white space removed at both ends.
pub open spec fn trim(s: Seq<char>) -> Seq<char> {
    trim_end(trim_start(s))
}

/// `needle` occurs in `hay` at position `i`.
pub open spec fn occurs_at(hay: Seq<char>, needle: Seq<char>, i: int) -> bool {
    0 <= i && i + needle.len() <= hay.len() && hay.subrange(i, i + needle.len()) == needle
}

/// `needle` occurs somewhere in `hay` (the empty needle occurs everywhere).
pub open spec fn contains(hay: Seq<char>, needle: Seq<char>) -> bool {
    exists|i: int| occurs_at(hay, needle, i)
}

/// `s` begins with `prefix`.
pub open spec fn starts_with(s: Seq<char>, prefix: Seq<char>) -> bool {
    occurs_at(s, prefix, 0)
}

/// `s` ends with `suffix`.
pub open spec fn ends_with(s: Seq<char>, suffix: Seq<char>) -> bool {
    suffix.len() <= s.len() && occurs_at(s, suffix, s.len() - suffix.len())
}

/// Index of the first `c` in `s` at or after `i`, or `s.len()` when there is none.
pub open spec fn find_char_from(s: Seq<char>, c: char, i: int) -> int
    decreases s.len() - i,
{
    if i < 0 || i >= s.len() {
        s.len() as int
    } else if s[i] == c {
        i
    } else {
        find_char_from(s, c, i + 1)
    }
}

/// The pieces of `s` between occurrences of `sep` (as `str::split` with a char).
pub open spec fn split_char(s: Seq<char>, sep: char) -> Seq<Seq<char>>
    decreases s.len(),
{
    let i = find_char_from(s, sep, 0);
    if i >= s.len() {
        seq![s]
    } else {
        proof {
            lemma_find_char_from_bounds(s, sep, 0);
        }
        seq![s.take(i)] + split_char(s.skip(i + 1), sep)
    }
}

/// The pieces joined with `sep` between consecutive pieces.
pub open spec fn join(parts: Seq<Seq<char>>, sep: Seq<char>) -> Seq<char>
    decreases parts.len(),
{
    if parts.len() == 0 {
        seq![]
    } else if parts.len() == 1 {
        parts[0]
    } else {
        join(parts.drop_last(), sep) + sep + parts.last()
    }
}

/// The non-empty pieces of a sequence of pieces, in order.
pub open spec fn non_empty(parts: Seq<Seq<char>>) -> Seq<Seq<char>>
    decreases parts.len(),
{
    if parts.len() == 0 {
        seq![]
    } else if parts.last().len() > 0 {
        non_empty(parts.drop_last()).push(parts.last())
    } else {
        non_empty(parts.drop_last())
    }
}

/// The length of `s` in bytes (UTF-8), as `str::len` reports it.
pub open spec fn byte_len(s: Seq<char>) -> int {
    (vstd::utf8::encode_utf8(s).len() as usize) as int
}

/// The views of a sequence of strings.
pub open spec fn views(v: Seq<String>) -> Seq<Seq<char>> {
    v.map_values(|s: String| s@)
}

/// The first index at or after `i` where `needle` occurs in `s`.
pub open spec fn find_seq_from(s: Seq<char>, needle: Seq<char>, i: int) -> Option<int>
    decreases s.len() + 1 - i,
{
    if i < 0 || i + needle.len() > s.len() {
        None
    } else if occurs_at(s, needle, i) {
        Some(i)
    } else {
        find_seq_from(s, needle, i + 1)
    }
}

/// The character of the decimal digit `d` (`0 <= d < 10`).
pub open spec fn digit_char(d: int) -> char {
    (48 + d) as char
}

/// The decimal digits of `n`, most significant first.
pub open spec fn decimal(n: nat) -> Seq<char>
    decreases n,
{
    if n < 10 {
        seq![digit_char(n as int)]
    } else {
        decimal(n / 10).push(digit_char((n % 10) as int))
    }
}

/// The first `n` characters of `s` (all of them when it is shorter).
pub open spec fn take_chars(s: Seq<char>, n: int) -> Seq<char> {
    if n < s.len() {
        s.take(n)
    } else {
        s
    }
}

/// The words of `s`: its maximal runs of characters that are not white space,
/// in order (as `str::split_whitespace`).
pub open spec fn words(s: Seq<char>) -> Seq<Seq<char>>
    decreases s.len(),
{
    if s.len() == 0 {
        seq![]
    } else {
        let w = words(s.drop_last());
        let c = s.last();
        if is_white_space(c) {
            w
        } else if s.len() >= 2 && !is_white_space(s[s.len() - 2]) {
            w.update(w.len() - 1, w.last().push(c))
        } else {
            w.push(seq![c])
        }
    }
}

/// The lower-case form of a string, as `str::to_lowercase` gives it
/// (Unicode case mapping; a function of the string alone).
pub uninterp spec fn lowercase(s: Seq<char>) -> Seq<char>;

/// Whether a character is alphabetic or numeric, as `char::is_alphanumeric`
/// decides it (Unicode `Alphabetic` or `Numeric`; a function of the character alone).
pub uninterp spec fn alphanumeric(c: char) -> bool;

/// An ASCII letter or digit.
pub open spec fn ascii_alphanumeric(c: char) -> bool {
    (48 <= (c as u32) && (c as u32) <= 57) || (65 <= (c as u32) && (c as u32) <= 90) || (97 <= (c as u32) && (c
        as u32) <= 122)
}

/// Whether a character is alphabetic or numeric: on ASCII the letters and
/// digits, beyond it as `char::is_alphanumeric` decides (see `alphanumeric`).
pub open spec fn alnum(c: char) -> bool {
    if (c as u32) < 128 {
        ascii_alphanumeric(c)
    } else {
        alphanumeric(c)
    }
}

// ---------------------------------------------------------------------------
// Lemmas
// ---------------------------------------------------------------------------
pub proof fn lemma_find_char_from_bounds(s: Seq<char>, c: char, i: int)
    requires
        0 <= i <= s.len(),
    ensures
        i <= find_char_from(s, c, i) <= s.len(),
        find_char_from(s, c, i) < s.len() ==> s[find_char_from(s, c, i)] == c,
        forall|j: int| i <= j < find_char_from(s, c, i) ==> s[j] != c,
    decreases s.len() - i,
{
    if i < s.len() && s[i] != c {
        lemma_find_char_from_bounds(s, c, i + 1);
    }
}

/// The split pieces never contain the separator, and joining them back gives `s`.
pub proof fn lemma_split_join(s: Seq<char>, sep: char)
    ensures
        join(split_char(s, sep), seq![sep]) == s,
        split_char(s, sep).len() >= 1,
        forall|k: int|
            0 <= k < split_char(s, sep).len() ==> !(#[trigger] split_char(s, sep)[k]).contains(sep),
    decreases s.len(),
{
    let i = find_char_from(s, sep, 0);
    lemma_find_char_from_bounds(s, sep, 0);
    if i >= s.len() {
        assert(split_char(s, sep) == seq![s]);
        assert forall|k: int| 0 <= k < split_char(s, sep).len() implies !(#[trigger] split_char(
            s,
            sep,
        )[k]).contains(sep) by {
            if s.contains(sep) {
                let j = choose|j: int| 0 <= j < s.len() && s[j] == sep;
                assert(s[j] != sep);
            }
        }
    } else {
        let rest = s.skip(i + 1);
        lemma_split_join(rest, sep);
        let pr = split_char(rest, sep);
        let ps = split_char(s, sep);
        assert(ps == seq![s.take(i)] + pr);
        lemma_join_prepend(s.take(i), pr, seq![sep]);
        assert(s =~= s.take(i) + seq![sep] + rest);
        assert forall|k: int| 0 <= k < ps.len() implies !(#[trigger] ps[k]).contains(sep) by {
            if k == 0 {
                if s.take(i).contains(sep) {
                    let j = choose|j: int| 0 <= j < s.take(i).len() && s.take(i)[j] == sep;
                    assert(s[j] != sep);
                }
            } else {
                assert(ps[k] == pr[k - 1]);
            }
        }
    }
}

/// Joining `first` in front of non-empty `rest`.
pub proof fn lemma_join_prepend(first: Seq<char>, rest: Seq<Seq<char>>, sep: Seq<char>)
    requires
        rest.len() >= 1,
    ensures
        join(seq![first] + rest, sep) == first + sep + join(rest, sep),
    decreases rest.len(),
{
    let all = seq![first] + rest;
    if rest.len() == 1 {
        assert(all.drop_last() =~= seq![first]);
        assert(all.last() == rest[0]);
        assert(join(seq![first], sep) == first);
        assert(join(rest, sep) == rest[0]);
        assert(join(all, sep) == join(all.drop_last(), sep) + sep + all.last());
    } else {
        lemma_join_prepend(first, rest.drop_last(), sep);
        assert(all.drop_last() =~= seq![first] + rest.drop_last());
        assert(all.last() == rest.last());
        assert(join(all, sep) == join(all.drop_last(), sep) + sep + all.last());
        assert(join(rest, sep) == join(rest.drop_last(), sep) + sep + rest.last());
        assert(first + sep + join(rest.drop_last(), sep) + sep + rest.last() =~= first + sep + (
        join(rest.drop_last(), sep) + sep + rest.last()));
    }
}

pub proof fn lemma_trim_start_prefix(s: Seq<char>, i: int)
    requires
        0 <= i <= s.len(),
        forall|j: int| 0 <= j < i ==> is_white_space(#[trigger] s[j]),
    ensures
        trim_start(s) == trim_start(s.subrange(i, s.len() as int)),
    decreases i,
{
    if i > 0 {
        assert(s.drop_first().subrange(i - 1, s.drop_first().len() as int) =~= s.subrange(
            i,
            s.len() as int,
        ));
        lemma_trim_start_prefix(s.drop_first(), i - 1);
    } else {
        assert(s.subrange(0, s.len() as int) =~= s);
    }
}

pub proof fn lemma_trim_end_suffix(s: Seq<char>, i: int)
    requires
        0 <= i <= s.len(),
        forall|j: int| i <= j < s.len() ==> is_white_space(#[trigger] s[j]),
    ensures
        trim_end(s) == trim_end(s.subrange(0, i)),
    decreases s.len() - i,
{
    if i < s.len() {
        assert(s.drop_last().subrange(0, i) =~= s.subrange(0, i));
        lemma_trim_end_suffix(s.drop_last(), i);
    } else {
        assert(s.subrange(0, i) =~= s);
    }
}

// ---------------------------------------------------------------------------
// Executable helpers
// ---------------------------------------------------------------------------
/// Appends one character to a string (std `String::push`).
#[verifier::external_body]
pub(crate) fn push_char(s: &mut String, c: char)
    ensures
        final(s)@ == old(s)@.push(c),
{
    s.push(c);
}

/// The lower-case form of `s` (std `str::to_lowercase`).
#[verifier::external_body]
pub(crate) fn to_lowercase(s: &str) -> (r: String)
    ensures
        r@ == lowercase(s@),
{
    s.to_lowercase()
}

/// Whether `c` is alphabetic or numeric (std `char::is_alphanumeric`); on
/// ASCII exactly the letters and the digits.
#[verifier::external_body]
pub(crate) fn is_alphanumeric(c: char) -> (r: bool)
    ensures
        r == alphanumeric(c),
        (c as u32) < 128 ==> (r <==> ascii_alphanumeric(c)),
{
    c.is_alphanumeric()
}

/// Whether `c` has the Unicode `White_Space` property.
pub fn is_whitespace(c: char) -> (b: bool)
    ensures
        b == is_white_space(c),
{
    let v = c as u32;
    (0x9 <= v && v <= 0xd) || v == 0x20 || v == 0x85 || v == 0xa0 || v == 0x1680 || (0x2000 <= v
        && v <= 0x200a) || v == 0x2028 || v == 0x2029 || v == 0x202f || v == 0x205f || v == 0x3000
}

/// The characters of a string, in order.
pub fn chars_of(s: &str) -> (r: Vec<char>)
    ensures
        r@ == s@,
{
    let mut r: Vec<char> = Vec::new();
    for c in it: s.chars()
        invariant
            r@ == it.seq().take(it.index() as int),
    {
        r.push(c);
    }
    r
}

/// The string made of the characters `s[lo..hi]`.
pub fn string_of_range(s: &[char], lo: usize, hi: usize) -> (r: String)
    requires
        lo <= hi <= s.len(),
    ensures
        r@ == s@.subrange(lo as int, hi as int),
{
    let mut r = String::new();
    let mut i = lo;
    while i < hi
        invariant
            lo <= i <= hi <= s.len(),
            r@ == s@.subrange(lo as int, i as int),
        decreases hi - i,
    {
        push_char(&mut r, s[i]);
        assert(s@.subrange(lo as int, i + 1) =~= s@.subrange(lo as int, i as int).push(s@[i as int]));
        i = i + 1;
    }
    r
}

/// Appends `s[lo..hi]` to `out`.
pub fn push_range(out: &mut String, s: &[char], lo: usize, hi: usize)
    requires
        lo <= hi <= s.len(),
    ensures
        final(out)@ == old(out)@ + s@.subrange(lo as int, hi as int),
{
    let mut i = lo;
    while i < hi
        invariant
            lo <= i <= hi <= s.len(),
            out@ == old(out)@ + s@.subrange(lo as int, i as int),
        decreases hi - i,
    {
        push_char(out, s[i]);
        assert(s@.subrange(lo as int, i + 1) =~= s@.subrange(lo as int, i as int).push(s@[i as int]));
        i = i + 1;
    }
}

/// Appends a string to `out`.
pub fn push_str(out: &mut String, s: &str)
    ensures
        final(out)@ == old(out)@ + s@,
{
    let cs = chars_of(s);
    push_range(out, &cs, 0, cs.len());
    assert(cs@.subrange(0, cs@.len() as int) =~= cs@);
}

/// Whether two character ranges are equal.
pub fn range_eq(a: &[char], alo: usize, ahi: usize, b: &[char], blo: usize, bhi: usize) -> (r:
    bool)
    requires
        alo <= ahi <= a.len(),
        blo <= bhi <= b.len(),
    ensures
        r == (a@.subrange(alo as int, ahi as int) == b@.subrange(blo as int, bhi as int)),
{
    if ahi - alo != bhi - blo {
        assert(a@.subrange(alo as int, ahi as int).len() != b@.subrange(blo as int, bhi as int).len());
        return false;
    }
    let n = ahi - alo;
    let mut k: usize = 0;
    while k < n
        invariant
            alo <= ahi <= a.len(),
            blo <= bhi <= b.len(),
            n == ahi - alo,
            n == bhi - blo,
            k <= n,
            forall|j: int| alo <= j < alo + k ==> #[trigger] a@[j] == b@[j - alo + blo],
        decreases n - k,
    {
        if a[alo + k] != b[blo + k] {
            assert(a@.subrange(alo as int, ahi as int)[k as int] != b@.subrange(
                blo as int,
                bhi as int,
            )[k as int]);
            return false;
        }
        k = k + 1;
    }
    assert(a@.subrange(alo as int, ahi as int) =~= b@.subrange(blo as int, bhi as int));
    true
}

/// Whether two character sequences are equal.
pub fn chars_eq(a: &[char], b: &[char]) -> (r: bool)
    ensures
        r == (a@ == b@),
{
    let r = range_eq(a, 0, a.len(), b, 0, b.len());
    assert(a@.subrange(0, a@.len() as int) =~= a@);
    assert(b@.subrange(0, b@.len() as int) =~= b@);
    r
}

/// Whether `needle` occurs in `hay` at `i`.
pub fn occurs_at_exec(hay: &[char], needle: &[char], i: usize) -> (r: bool)
    ensures
        r == occurs_at(hay@, needle@, i as int),
{
    if i > hay.len() || hay.len() - i < needle.len() {
        return false;
    }
    let r = range_eq(hay, i, i + needle.len(), needle, 0, needle.len());
    assert(needle@.subrange(0, needle@.len() as int) =~= needle@);
    r
}

/// Whether `needle` occurs somewhere in `hay`.
pub fn contains_exec(hay: &[char], needle: &[char]) -> (r: bool)
    ensures
        r == contains(hay@, needle@),
{
    if needle.len() > hay.len() {
        return false;
    }
    let last = hay.len() - needle.len();
    let mut i: usize = 0;
    while i < last
        invariant
            last == hay.len() - needle.len(),
            i <= last,
            forall|j: int| 0 <= j < i ==> !occurs_at(hay@, needle@, j),
        decreases last - i,
    {
        if occurs_at_exec(hay, needle, i) {
            return true;
        }
        i = i + 1;
    }
    occurs_at_exec(hay, needle, last)
}

/// Whether `s` starts with `prefix`.
pub fn starts_with_exec(s: &[char], prefix: &[char]) -> (r: bool)
    ensures
        r == starts_with(s@, prefix@),
{
    occurs_at_exec(s, prefix, 0)
}

/// The bounds `(lo, hi)` of `s` with its surrounding white space removed.
pub fn trim_bounds(s: &[char], lo: usize, hi: usize) -> (r: (usize, usize))
    requires
        lo <= hi <= s.len(),
    ensures
        lo <= r.0 <= r.1 <= hi,
        s@.subrange(r.0 as int, r.1 as int) == trim(s@.subrange(lo as int, hi as int)),
{
    let ghost t = s@.subrange(lo as int, hi as int);
    let mut a = lo;
    while a < hi && is_whitespace(s[a])
        invariant
            lo <= a <= hi <= s.len(),
            t == s@.subrange(lo as int, hi as int),
            forall|j: int| lo <= j < a ==> is_white_space(#[trigger] s@[j]),
        decreases hi - a,
    {
        a = a + 1;
    }
    proof {
        assert forall|j: int| 0 <= j < a - lo implies is_white_space(#[trigger] t[j]) by {
            assert(t[j] == s@[lo + j]);
        }
        lemma_trim_start_prefix(t, a - lo);
        let u = t.subrange(a - lo, t.len() as int);
        assert(u =~= s@.subrange(a as int, hi as int));
        if a < hi {
            assert(!is_white_space(u[0]));
        }
        assert(trim_start(t) == u);
    }
    let mut b = hi;
    while b > a && is_whitespace(s[b - 1])
        invariant
            lo <= a <= b <= hi <= s.len(),
            forall|j: int| b <= j < hi ==> is_white_space(#[trigger] s@[j]),
        decreases b - a,
    {
        b = b - 1;
    }
    proof {
        let u = s@.subrange(a as int, hi as int);
        assert forall|j: int| b - a <= j < u.len() implies is_white_space(#[trigger] u[j]) by {
            assert(u[j] == s@[a + j]);
        }
        lemma_trim_end_suffix(u, b - a);
        let w = u.subrange(0, b - a);
        assert(w =~= s@.subrange(a as int, b as int));
        if b > a {
            assert(w.last() == s@[b - 1]);
        }
        assert(trim_end(u) == w);
    }
    (a, b)
}

/// A copy of `s` with its surrounding white space removed (as `str::trim`).
pub fn trim_string(s: &str) -> (r: String)
    ensures
        r@ == trim(s@),
{
    let cs = chars_of(s);
    let (a, b) = trim_bounds(&cs, 0, cs.len());
    assert(cs@.subrange(0, cs@.len() as int) =~= cs@);
    string_of_range(&cs, a, b)
}

/// Whether `s` is empty after trimming white space.
pub fn is_blank(s: &str) -> (r: bool)
    ensures
        r == (trim(s@).len() == 0),
{
    let cs = chars_of(s);
    let (a, b) = trim_bounds(&cs, 0, cs.len());
    assert(cs@.subrange(0, cs@.len() as int) =~= cs@);
    a == b
}

/// Whether `v` holds a string equal to `s`.
pub fn contains_string(v: &Vec<String>, s: &String) -> (r: bool)
    ensures
        r == v@.map_values(|x: String| x@).contains(s@),
{
    let mut i: usize = 0;
    while i < v.len()
        invariant
            i <= v@.len(),
            forall|j: int| 0 <= j < i ==> #[trigger] v@[j]@ != s@,
        decreases v@.len() - i,
    {
        if v[i] == *s {
            assert(v@.map_values(|x: String| x@)[i as int] == s@);
            return true;
        }
        i = i + 1;
    }
    proof {
        let vv = v@.map_values(|x: String| x@);
        if vv.contains(s@) {
            let j = choose|j: int| 0 <= j < vv.len() && vv[j] == s@;
            assert(v@[j]@ == s@);
        }
    }
    false
}

/// Whether `s` holds the character `c`.
pub fn has_char(s: &[char], c: char) -> (r: bool)
    ensures
        r == s@.contains(c),
{
    let mut i: usize = 0;
    while i < s.len()
        invariant
            i <= s@.len(),
            forall|j: int| 0 <= j < i ==> #[trigger] s@[j] != c,
        decreases s@.len() - i,
    {
        if s[i] == c {
            return true;
        }
        i = i + 1;
    }
    false
}

/// The pieces of `s[lo..hi]` between occurrences of `sep`.
pub fn split_exec(s: &[char], sep: char) -> (r: Vec<String>)
    ensures
        r@.map_values(|x: String| x@) == split_char(s@, sep),
{
    let mut r: Vec<String> = Vec::new();
    let mut start: usize = 0;
    let mut i: usize = 0;
    assert(s@.subrange(0, s@.len() as int) =~= s@);
    assert(r@.map_values(|x: String| x@) =~= Seq::<Seq<char>>::empty());
    while i < s.len()
        invariant
            start <= i <= s.len(),
            forall|j: int| start <= j < i ==> s@[j] != sep,
            r@.map_values(|x: String| x@) + split_char(s@.subrange(start as int, s@.len() as int), sep)
                == split_char(s@, sep),
        decreases s.len() - i,
    {
        if s[i] == sep {
            let piece = string_of_range(s, start, i);
            proof {
                let t = s@.subrange(start as int, s@.len() as int);
                lemma_find_char_from_bounds(t, sep, 0);
                let k = find_char_from(t, sep, 0);
                if k < i - start {
                    assert(t[k] == s@[start + k]);
                }
                if k > i - start {
                    assert(t[i - start] == sep);
                }
                assert(k == i - start);
                assert(t.take(k) =~= s@.subrange(start as int, i as int));
                assert(t.skip(k + 1) =~= s@.subrange(i + 1, s@.len() as int));
                assert(split_char(t, sep) == seq![t.take(k)] + split_char(t.skip(k + 1), sep));
                assert(r@.push(piece).map_values(|x: String| x@) =~= r@.map_values(|x: String| x@).push(piece@));
            }
            r.push(piece);
            start = i + 1;
        }
        i = i + 1;
    }
    let piece = string_of_range(s, start, s.len());
    proof {
        let t = s@.subrange(start as int, s@.len() as int);
        lemma_find_char_from_bounds(t, sep, 0);
        let k = find_char_from(t, sep, 0);
        if k < t.len() {
            assert(t[k] == s@[start + k]);
        }
        assert(split_char(t, sep) == seq![t]);
        assert(r@.push(piece).map_values(|x: String| x@) =~= r@.map_values(|x: String| x@).push(piece@));
    }
    r.push(piece);
    r
}

/// The first index at or after `from` where `needle` occurs in `s`.
pub fn find_seq_exec(s: &[char], needle: &[char], from: usize) -> (r: Option<usize>)
    ensures
        match r {
            Some(i) => find_seq_from(s@, needle@, from as int) == Some(i as int),
            None => find_seq_from(s@, needle@, from as int) is None,
        },
        r is Some ==> from <= r->0 && r->0 + needle@.len() <= s@.len(),
{
    if from > s.len() || needle.len() > s.len() - from {
        return None;
    }
    let last = s.len() - needle.len();
    let mut i = from;
    while i <= last
        invariant
            from <= i,
            last == s@.len() - needle@.len(),
            find_seq_from(s@, needle@, from as int) == find_seq_from(s@, needle@, i as int),
        decreases last - i,
    {
        if occurs_at_exec(s, needle, i) {
            return Some(i);
        }
        if i == last {
            assert(find_seq_from(s@, needle@, i + 1) is None);
            return None;
        }
        i = i + 1;
    }
    None
}

/// Appends the decimal digits of `n`.
pub fn push_decimal(out: &mut String, n: u64)
    ensures
        final(out)@ == old(out)@ + decimal(n as nat),
    decreases n,
{
    if n >= 10 {
        push_decimal(out, n / 10);
    }
    let d = (n % 10) as u8;
    let c = (48u8 + d) as char;
    push_char(out, c);
    proof {
        if n >= 10 {
            assert(decimal(n as nat) == decimal((n / 10) as nat).push(digit_char((n % 10) as int)));
        }
    }
}

/// The parts joined with `sep` between consecutive parts.
pub fn join_strings(parts: &Vec<String>, sep: &str) -> (r: String)
    ensures
        r@ == join(parts@.map_values(|x: String| x@), sep@),
{
    let ghost pv = parts@.map_values(|x: String| x@);
    let mut r = String::new();
    let mut i: usize = 0;
    while i < parts.len()
        invariant
            i <= parts@.len(),
            pv == parts@.map_values(|x: String| x@),
            r@ == join(pv.take(i as int), sep@),
        decreases parts@.len() - i,
    {
        if i > 0 {
            push_str(&mut r, sep);
        }
        push_str(&mut r, parts[i].as_str());
        proof {
            let t = pv.take(i + 1);
            assert(t.drop_last() =~= pv.take(i as int));
            assert(t.last() == parts@[i as int]@);
            if i == 0 {
                assert(join(t, sep@) == t[0]);
            }
        }
        i = i + 1;
    }
    assert(pv.take(i as int) =~= pv);
    r
}

/// The first `n` characters of `s`.
pub fn take_chars_exec(s: &str, n: usize) -> (r: String)
    ensures
        r@ == take_chars(s@, n as int),
{
    let cs = chars_of(s);
    let hi = if n < cs.len() { n } else { cs.len() };
    let r = string_of_range(&cs, 0, hi);
    assert(cs@.subrange(0, cs@.len() as int) =~= cs@);
    r
}

/// The words of `s` (see `words`).
pub fn words_exec(s: &[char]) -> (r: Vec<String>)
    ensures
        views(r@) == words(s@),
{
    let mut out: Vec<String> = Vec::new();
    let mut cur = String::new();
    let mut i: usize = 0;
    while i < s.len()
        invariant
            i <= s@.len(),
            (if cur@.len() > 0 {
                views(out@).push(cur@)
            } else {
                views(out@)
            }) == words(s@.take(i as int)),
            cur@.len() > 0 <==> (i > 0 && !is_white_space(s@[i - 1])),
        decreases s@.len() - i,
    {
        let c = s[i];
        let ghost w = words(s@.take(i as int));
        proof {
            assert(s@.take(i + 1).drop_last() =~= s@.take(i as int));
            assert(s@.take(i + 1).last() == c);
            if i >= 1 {
                assert(s@.take(i + 1)[i - 1] == s@[i - 1]);
            }
        }
        if is_whitespace(c) {
            assert(words(s@.take(i + 1)) == w);
            if cur.as_str().is_empty() {
            } else {
                let ghost before = views(out@);
                let done = cur;
                cur = String::new();
                out.push(done);
                assert(views(out@) =~= before.push(done@));
            }
        } else {
            let ghost before = cur@;
            push_char(&mut cur, c);
            proof {
                let ov = views(out@);
                if before.len() > 0 {
                    assert(w == ov.push(before));
                    assert(w.last() == before);
                    assert(words(s@.take(i + 1)) == w.update(w.len() - 1, w.last().push(c)));
                    assert(ov.push(before).update(ov.len() as int, before.push(c)) =~= ov.push(before.push(c)));
                } else {
                    assert(w == ov);
                    assert(!(i >= 1 && !is_white_space(s@[i - 1])));
                    assert(words(s@.take(i + 1)) == w.push(seq![c]));
                    assert(cur@ =~= seq![c]);
                }
            }
        }
        i = i + 1;
    }
    assert(s@.take(i as int) =~= s@);
    if cur.as_str().is_empty() {
    } else {
        let ghost before = views(out@);
        let done = cur;
        out.push(done);
        assert(views(out@) =~= before.push(done@));
    }
    out
}

} // verus!
