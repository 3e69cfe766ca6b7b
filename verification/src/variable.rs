//! Placeholders in prompt content: `{{name}}` and `{{name:default}}`.
//!
//! A placeholder starts at `{{`; its body runs up to the first `}` or `:`;
//! the body must not be empty. With `}` the placeholder closes at `}}`; with `:`
//! the default value runs up to the next `}` and must not be empty, and the
//! placeholder closes at `}}` there. White space around the name and the
//! default is not part of them. Placeholders are found from left to right,
//! without overlapping.
use vstd::prelude::*;
use crate::text::{
    chars_of, contains_string, find_char_from, has_char, lemma_find_char_from_bounds, push_range,
    push_str, string_of_range, trim, trim_bounds,
};
use crate::value_map::ValueMap;

verus! {

/// A variable named in prompt content, with the default value it was given there.
#[derive(Debug, Clone, PartialEq)]
pub struct Variable {
    pub name: String,
    pub default_value: Option<String>,
}

/// The position of one placeholder in content.
pub struct Span {
    /// Index of the opening `{{`.
    pub start: int,
    /// Index of the `}` or `:` that ends the name.
    pub name_end: int,
    pub has_default: bool,
    /// Index of the `}` that ends the default value (when there is one).
    pub default_end: int,
    /// Index just past the closing `}}`.
    pub end: int,
}

/// Index of the first `}` or `:` at or after `i`, or `t.len()`.
pub open spec fn first_stop(t: Seq<char>, i: int) -> int
    decreases t.len() - i,
{
    if i < 0 || i >= t.len() {
        t.len() as int
    } else if t[i] == '}' || t[i] == ':' {
        i
    } else {
        first_stop(t, i + 1)
    }
}

/// The placeholder that starts at `p`, if one does.
pub open spec fn span_at(t: Seq<char>, p: int) -> Option<Span> {
    if 0 <= p && p + 1 < t.len() && t[p] == '{' && t[p + 1] == '{' {
        let e = first_stop(t, p + 2);
        if e <= p + 2 || e >= t.len() {
            None
        } else if t[e] == '}' {
            if e + 1 < t.len() && t[e + 1] == '}' {
                Some(Span { start: p, name_end: e, has_default: false, default_end: e, end: e + 2 })
            } else {
                None
            }
        } else {
            let f = find_char_from(t, '}', e + 1);
            if f > e + 1 && f < t.len() && f + 1 < t.len() && t[f + 1] == '}' {
                Some(Span { start: p, name_end: e, has_default: true, default_end: f, end: f + 2 })
            } else {
                None
            }
        }
    } else {
        None
    }
}

/// The placeholders of `t` found by scanning from `i`.
pub open spec fn spans_from(t: Seq<char>, i: int) -> Seq<Span>
    decreases t.len() - i,
{
    if i < 0 || i >= t.len() {
        seq![]
    } else {
        match span_at(t, i) {
            Some(sp) => {
                proof {
                    lemma_span_at_bounds(t, i);
                }
                seq![sp] + spans_from(t, sp.end)
            },
            None => spans_from(t, i + 1),
        }
    }
}

/// All placeholders of `t`, from left to right.
pub open spec fn spans(t: Seq<char>) -> Seq<Span> {
    spans_from(t, 0)
}

/// The (trimmed) name of a placeholder.
pub open spec fn span_name(t: Seq<char>, sp: Span) -> Seq<char> {
    trim(t.subrange(sp.start + 2, sp.name_end))
}

/// The (trimmed) default value of a placeholder, if it has one.
pub open spec fn span_default(t: Seq<char>, sp: Span) -> Option<Seq<char>> {
    if sp.has_default {
        Some(trim(t.subrange(sp.name_end + 1, sp.default_end)))
    } else {
        None
    }
}

/// The names of all placeholders, with repetitions, in order.
pub open spec fn placeholder_names(t: Seq<char>) -> Seq<Seq<char>> {
    spans(t).map_values(|sp: Span| span_name(t, sp))
}

/// The first occurrence of each element, in order of first occurrence.
pub open spec fn dedup<A>(s: Seq<A>) -> Seq<A>
    decreases s.len(),
{
    if s.len() == 0 {
        seq![]
    } else if s.drop_last().contains(s.last()) {
        dedup(s.drop_last())
    } else {
        dedup(s.drop_last()).push(s.last())
    }
}

/// The view of a variable: its name and default value.
pub open spec fn variable_view(v: Variable) -> (Seq<char>, Option<Seq<char>>) {
    (v.name@, match v.default_value {
        Some(d) => Some(d@),
        None => None,
    })
}

/// The variables of `t` as `parse_variables_with_defaults` lists them, built
/// over the first `n` placeholders: one per distinct name, at its first
/// placeholder, with that placeholder's default.
pub open spec fn variables_upto(t: Seq<char>, n: int) -> Seq<(Seq<char>, Option<Seq<char>>)>
    decreases n,
{
    if n <= 0 {
        seq![]
    } else {
        let prev = variables_upto(t, n - 1);
        let sp = spans(t)[n - 1];
        if placeholder_names(t).take(n - 1).contains(span_name(t, sp)) {
            prev
        } else {
            prev.push((span_name(t, sp), span_default(t, sp)))
        }
    }
}

/// The variables of `t`, one per distinct name, in order of first use.
pub open spec fn variables_of(t: Seq<char>) -> Seq<(Seq<char>, Option<Seq<char>>)> {
    variables_upto(t, spans(t).len() as int)
}

/// What a placeholder is replaced with: the provided value, else its
/// default, else the fallback text given for it.
pub open spec fn replacement(
    t: Seq<char>,
    sp: Span,
    values: Map<Seq<char>, Seq<char>>,
    fallback: Seq<char>,
) -> Seq<char> {
    if values.contains_key(span_name(t, sp)) {
        values[span_name(t, sp)]
    } else {
        match span_default(t, sp) {
            Some(d) => d,
            None => fallback,
        }
    }
}

/// `t` with its first `n` placeholders replaced by `pieces[0..n]`, up to the end of the
/// `n`-th placeholder (or the start of `t` when `n == 0`).
pub open spec fn rendered_upto(t: Seq<char>, pieces: Seq<Seq<char>>, n: int) -> Seq<char>
    decreases n,
{
    if n <= 0 {
        seq![]
    } else {
        let prev_end = if n == 1 {
            0
        } else {
            spans(t)[n - 2].end
        };
        rendered_upto(t, pieces, n - 1) + t.subrange(prev_end, spans(t)[n - 1].start) + pieces[n
            - 1]
    }
}

/// `t` with every placeholder replaced by the corresponding piece.
pub open spec fn rendered(t: Seq<char>, pieces: Seq<Seq<char>>) -> Seq<char> {
    let n = spans(t).len() as int;
    let last_end = if n == 0 {
        0
    } else {
        spans(t)[n - 1].end
    };
    rendered_upto(t, pieces, n) + t.subrange(last_end, t.len() as int)
}

/// A placeholder name is valid: not empty, and without `:` or `}`.
pub open spec fn valid_variable_name(name: Seq<char>) -> bool {
    name.len() > 0 && !name.contains(':') && !name.contains('}')
}

// ---------------------------------------------------------------------------
// Lemmas
// ---------------------------------------------------------------------------
pub proof fn lemma_first_stop_bounds(t: Seq<char>, i: int)
    requires
        0 <= i <= t.len(),
    ensures
        i <= first_stop(t, i) <= t.len(),
        first_stop(t, i) < t.len() ==> (t[first_stop(t, i)] == '}' || t[first_stop(t, i)] == ':'),
        forall|j: int| i <= j < first_stop(t, i) ==> #[trigger] t[j] != '}' && t[j] != ':',
    decreases t.len() - i,
{
    if i < t.len() && !(t[i] == '}' || t[i] == ':') {
        lemma_first_stop_bounds(t, i + 1);
    }
}

pub proof fn lemma_span_at_bounds(t: Seq<char>, p: int)
    requires
        span_at(t, p) is Some,
    ensures
        ({
            let sp = span_at(t, p)->0;
            &&& sp.start == p
            &&& p + 2 < sp.name_end
            &&& sp.name_end < sp.end <= t.len()
            &&& sp.has_default ==> sp.name_end + 1 < sp.default_end && sp.default_end + 2
                == sp.end
            &&& !sp.has_default ==> sp.name_end + 2 == sp.end
        }),
{
    lemma_first_stop_bounds(t, p + 2);
    let e = first_stop(t, p + 2);
    if t[e] != '}' {
        lemma_find_char_from_bounds(t, '}', e + 1);
    }
}

/// Scanning past the last two characters finds nothing.
pub proof fn lemma_spans_from_tail(t: Seq<char>, i: int)
    requires
        i + 1 >= t.len(),
    ensures
        spans_from(t, i) == Seq::<Span>::empty(),
    decreases t.len() - i,
{
    if 0 <= i < t.len() {
        assert(span_at(t, i) is None);
        lemma_spans_from_tail(t, i + 1);
    }
}

/// Every span found from `i` lies within `t` and after `i`, in increasing order.
pub proof fn lemma_spans_from_ordered(t: Seq<char>, i: int)
    requires
        0 <= i,
    ensures
        forall|k: int|
            0 <= k < spans_from(t, i).len() ==> {
                let sp = #[trigger] spans_from(t, i)[k];
                &&& span_at(t, sp.start) == Some(sp)
                &&& i <= sp.start
                &&& sp.end <= t.len()
            },
        forall|k: int|
            0 <= k < spans_from(t, i).len() - 1 ==> #[trigger] spans_from(t, i)[k].end
                <= spans_from(t, i)[k + 1].start,
    decreases t.len() - i,
{
    if i < t.len() {
        match span_at(t, i) {
            Some(sp) => {
                lemma_span_at_bounds(t, i);
                lemma_spans_from_ordered(t, sp.end);
                let rest = spans_from(t, sp.end);
                assert(spans_from(t, i) == seq![sp] + rest);
                assert forall|k: int|
                    0 <= k < spans_from(t, i).len() - 1 implies #[trigger] spans_from(t, i)[k].end
                    <= spans_from(t, i)[k + 1].start by {
                    if k > 0 {
                        assert(spans_from(t, i)[k] == rest[k - 1]);
                        assert(spans_from(t, i)[k + 1] == rest[k]);
                    } else {
                        assert(spans_from(t, i)[1] == rest[0]);
                    }
                }
                assert forall|k: int| 0 <= k < spans_from(t, i).len() implies {
                    let sp2 = #[trigger] spans_from(t, i)[k];
                    &&& span_at(t, sp2.start) == Some(sp2)
                    &&& i <= sp2.start
                    &&& sp2.end <= t.len()
                } by {
                    if k > 0 {
                        assert(spans_from(t, i)[k] == rest[k - 1]);
                    }
                }
            },
            None => {
                lemma_spans_from_ordered(t, i + 1);
            },
        }
    }
}

/// Membership in a sequence extended by one element.
pub proof fn lemma_push_contains<A>(s: Seq<A>, a: A, x: A)
    ensures
        s.push(a).contains(x) <==> (s.contains(x) || a == x),
{
    if s.push(a).contains(x) {
        let j = choose|j: int| 0 <= j < s.push(a).len() && s.push(a)[j] == x;
        if j < s.len() {
            assert(s[j] == x);
        }
    }
    if s.contains(x) {
        let j = choose|j: int| 0 <= j < s.len() && s[j] == x;
        assert(s.push(a)[j] == x);
    }
    if a == x {
        assert(s.push(a)[s.len() as int] == x);
    }
}


/// De-duplicating a prefix gives a prefix of the de-duplicated sequence.
pub proof fn lemma_dedup_of_prefix<A>(a: Seq<A>, b: Seq<A>)
    requires
        a.is_prefix_of(b),
    ensures
        dedup(a).is_prefix_of(dedup(b)),
    decreases b.len(),
{
    if a.len() == b.len() {
        assert(a =~= b);
    } else {
        assert(a.is_prefix_of(b.drop_last()));
        lemma_dedup_of_prefix(a, b.drop_last());
    }
}

/// An element is in the de-duplicated sequence exactly when it is in the sequence.
pub proof fn lemma_dedup_contains<A>(s: Seq<A>, x: A)
    ensures
        dedup(s).contains(x) <==> s.contains(x),
    decreases s.len(),
{
    if s.len() > 0 {
        let dl = s.drop_last();
        lemma_dedup_contains(dl, x);
        lemma_dedup_contains(dl, s.last());
        assert(s =~= dl.push(s.last()));
        lemma_push_contains(dl, s.last(), x);
        if !dl.contains(s.last()) {
            lemma_push_contains(dedup(dl), s.last(), x);
        }
    }
}

/// The de-duplicated sequence has no repeated element.
pub proof fn lemma_dedup_no_duplicates<A>(s: Seq<A>)
    ensures
        dedup(s).no_duplicates(),
    decreases s.len(),
{
    if s.len() > 0 {
        lemma_dedup_no_duplicates(s.drop_last());
        lemma_dedup_contains(s.drop_last(), s.last());
    }
}

/// The names of `variables_upto` are the de-duplicated names of the same placeholders.
pub proof fn lemma_variables_upto_names(t: Seq<char>, n: int)
    requires
        0 <= n <= spans(t).len(),
    ensures
        variables_upto(t, n).map_values(|v: (Seq<char>, Option<Seq<char>>)| v.0) == dedup(
            placeholder_names(t).take(n),
        ),
    decreases n,
{
    if n > 0 {
        lemma_variables_upto_names(t, n - 1);
        let names = placeholder_names(t);
        assert(names.take(n).drop_last() =~= names.take(n - 1));
        assert(names.take(n).last() == span_name(t, spans(t)[n - 1]));
        let prev = variables_upto(t, n - 1);
        let sp = spans(t)[n - 1];
        assert(prev.push((span_name(t, sp), span_default(t, sp))).map_values(
            |v: (Seq<char>, Option<Seq<char>>)| v.0,
        ) =~= prev.map_values(|v: (Seq<char>, Option<Seq<char>>)| v.0).push(span_name(t, sp)));
    } else {
        assert(variables_upto(t, n).map_values(|v: (Seq<char>, Option<Seq<char>>)| v.0)
            =~= Seq::<Seq<char>>::empty());
    }
}

/// `rendered_upto` only reads the first `n` pieces.
pub proof fn lemma_rendered_upto_prefix(
    t: Seq<char>,
    p1: Seq<Seq<char>>,
    p2: Seq<Seq<char>>,
    n: int,
)
    requires
        0 <= n <= p1.len(),
        n <= p2.len(),
        forall|k: int| 0 <= k < n ==> p1[k] == p2[k],
    ensures
        rendered_upto(t, p1, n) == rendered_upto(t, p2, n),
    decreases n,
{
    if n > 0 {
        lemma_rendered_upto_prefix(t, p1, p2, n - 1);
    }
}

/// The facts about the `k`-th placeholder that the executable code relies on.
pub proof fn lemma_span_facts(t: Seq<char>, k: int)
    requires
        0 <= k < spans(t).len(),
    ensures
        ({
            let sp = spans(t)[k];
            &&& span_at(t, sp.start) == Some(sp)
            &&& 0 <= sp.start
            &&& sp.start + 2 < sp.name_end < sp.end <= t.len()
            &&& sp.has_default ==> sp.name_end + 1 < sp.default_end && sp.default_end + 2 == sp.end
            &&& k > 0 ==> spans(t)[k - 1].end <= sp.start
        }),
{
    lemma_spans_from_ordered(t, 0);
    let sp = spans(t)[k];
    lemma_span_at_bounds(t, sp.start);
    if k > 0 {
        assert(spans(t)[k - 1].end <= spans(t)[k - 1 + 1].start);
    }
}

// ---------------------------------------------------------------------------
// Executable code
// ---------------------------------------------------------------------------
/// The position of one placeholder, as found by the scanner.
pub struct PlaceholderMatch {
    pub start: usize,
    pub name_end: usize,
    pub has_default: bool,
    pub default_end: usize,
    pub end: usize,
}

impl PlaceholderMatch {
    pub open spec fn span(self) -> Span {
        Span {
            start: self.start as int,
            name_end: self.name_end as int,
            has_default: self.has_default,
            default_end: self.default_end as int,
            end: self.end as int,
        }
    }
}

pub open spec fn spans_of(ms: Seq<PlaceholderMatch>) -> Seq<Span> {
    ms.map_values(|m: PlaceholderMatch| m.span())
}

/// The placeholder that starts at `p`, if one does.
fn match_at(t: &[char], p: usize) -> (r: Option<PlaceholderMatch>)
    requires
        p + 1 < t.len(),
    ensures
        match r {
            Some(m) => span_at(t@, p as int) == Some(m.span()),
            None => span_at(t@, p as int) is None,
        },
{
    if !(t[p] == '{' && t[p + 1] == '{') {
        return None;
    }
    let mut e = p + 2;
    while e < t.len() && t[e] != '}' && t[e] != ':'
        invariant
            p + 2 <= e <= t.len(),
            p + 1 < t.len(),
            first_stop(t@, p + 2) == first_stop(t@, e as int),
        decreases t.len() - e,
    {
        e = e + 1;
    }
    if e == p + 2 || e >= t.len() {
        return None;
    }
    if t[e] == '}' {
        if e + 1 < t.len() && t[e + 1] == '}' {
            return Some(
                PlaceholderMatch { start: p, name_end: e, has_default: false, default_end: e, end: e + 2 },
            );
        } else {
            return None;
        }
    }
    let mut f = e + 1;
    while f < t.len() && t[f] != '}'
        invariant
            e + 1 <= f <= t.len(),
            e < t.len(),
            find_char_from(t@, '}', e + 1) == find_char_from(t@, '}', f as int),
        decreases t.len() - f,
    {
        f = f + 1;
    }
    if f > e + 1 && f < t.len() && f + 1 < t.len() && t[f + 1] == '}' {
        Some(PlaceholderMatch { start: p, name_end: e, has_default: true, default_end: f, end: f + 2 })
    } else {
        None
    }
}

/// All placeholders of `t`, from left to right.
pub fn scan_placeholders(t: &[char]) -> (r: Vec<PlaceholderMatch>)
    ensures
        spans_of(r@) == spans(t@),
{
    let mut r: Vec<PlaceholderMatch> = Vec::new();
    let mut i: usize = 0;
    while i < t.len() && i + 1 < t.len()
        invariant
            i <= t.len(),
            spans_of(r@) + spans_from(t@, i as int) == spans(t@),
        decreases t.len() - i,
    {
        match match_at(t, i) {
            Some(m) => {
                proof {
                    lemma_span_at_bounds(t@, i as int);
                    assert(spans_from(t@, i as int) == seq![m.span()] + spans_from(t@, m.end as int));
                    assert(spans_of(r@.push(m)) =~= spans_of(r@).push(m.span()));
                    assert(spans_of(r@.push(m)) + spans_from(t@, m.end as int) =~= spans_of(r@) + (seq![m.span()] + spans_from(t@, m.end as int)));
                }
                i = m.end;
                r.push(m);
            },
            None => {
                i = i + 1;
            },
        }
    }
    proof {
        lemma_spans_from_tail(t@, i as int);
        assert(spans_of(r@) + spans_from(t@, i as int) =~= spans_of(r@));
    }
    r
}

/// The (trimmed) name of the placeholder `m`.
fn name_of(t: &[char], m: &PlaceholderMatch) -> (r: String)
    requires
        span_at(t@, m.start as int) == Some(m.span()),
    ensures
        r@ == span_name(t@, m.span()),
{
    proof {
        lemma_span_at_bounds(t@, m.start as int);
    }
    let (a, b) = trim_bounds(t, m.start + 2, m.name_end);
    string_of_range(t, a, b)
}

/// The (trimmed) default value of the placeholder `m`, if it has one.
fn default_of(t: &[char], m: &PlaceholderMatch) -> (r: Option<String>)
    requires
        span_at(t@, m.start as int) == Some(m.span()),
    ensures
        match r {
            Some(d) => span_default(t@, m.span()) == Some(d@),
            None => span_default(t@, m.span()) is None,
        },
{
    proof {
        lemma_span_at_bounds(t@, m.start as int);
    }
    if m.has_default {
        let (a, b) = trim_bounds(t, m.name_end + 1, m.default_end);
        Some(string_of_range(t, a, b))
    } else {
        None
    }
}

/// The names of all placeholders in `content`, with repetitions, in order.
pub fn placeholder_name_list(content: &str) -> (r: Vec<String>)
    ensures
        r@.map_values(|s: String| s@) == placeholder_names(content@),
{
    let t = chars_of(content);
    let ms = scan_placeholders(&t);
    let ghost names = placeholder_names(t@);
    let mut r: Vec<String> = Vec::new();
    let mut k: usize = 0;
    while k < ms.len()
        invariant
            t@ == content@,
            spans_of(ms@) == spans(t@),
            names == placeholder_names(t@),
            k <= ms@.len(),
            r@.map_values(|s: String| s@) == names.take(k as int),
        decreases ms@.len() - k,
    {
        proof {
            lemma_span_facts(t@, k as int);
            assert(spans(t@)[k as int] == ms@[k as int].span());
        }
        let name = name_of(&t, &ms[k]);
        let ghost prev = r@;
        r.push(name);
        assert(r@.map_values(|s: String| s@) =~= prev.map_values(|s: String| s@).push(names[k as int]));
        assert(names.take(k + 1) =~= names.take(k as int).push(names[k as int]));
        k = k + 1;
    }
    assert(names.take(ms@.len() as int) =~= names);
    r
}

/// The distinct names of the placeholders in `content`, in order of first use.
pub fn parse_variables(content: &str) -> (r: Vec<String>)
    ensures
        r@.map_values(|s: String| s@) == dedup(placeholder_names(content@)),
{
    let t = chars_of(content);
    let ms = scan_placeholders(&t);
    let ghost names = placeholder_names(t@);
    let mut r: Vec<String> = Vec::new();
    let mut k: usize = 0;
    while k < ms.len()
        invariant
            t@ == content@,
            spans_of(ms@) == spans(t@),
            names == placeholder_names(t@),
            k <= ms@.len(),
            r@.map_values(|s: String| s@) == dedup(names.take(k as int)),
        decreases ms@.len() - k,
    {
        proof {
            lemma_span_facts(t@, k as int);
            assert(spans(t@)[k as int] == ms@[k as int].span());
        }
        let name = name_of(&t, &ms[k]);
        proof {
            assert(names.take(k + 1).drop_last() =~= names.take(k as int));
            assert(names.take(k + 1).last() == name@);
            lemma_dedup_contains(names.take(k as int), name@);
        }
        if !contains_string(&r, &name) {
            let ghost prev = r@;
            r.push(name);
            assert(r@.map_values(|s: String| s@) =~= prev.map_values(|s: String| s@).push(r@.last()@));
        }
        k = k + 1;
    }
    assert(names.take(ms@.len() as int) =~= names);
    r
}

/// The variables of `content`: one per distinct name, in order of first use,
/// each with the default value written at its first placeholder.
pub fn parse_variables_with_defaults(content: &str) -> (r: Vec<Variable>)
    ensures
        r@.map_values(|v: Variable| variable_view(v)) == variables_of(content@),
{
    let t = chars_of(content);
    let ms = scan_placeholders(&t);
    let ghost names = placeholder_names(t@);
    let mut seen: Vec<String> = Vec::new();
    let mut r: Vec<Variable> = Vec::new();
    let mut k: usize = 0;
    while k < ms.len()
        invariant
            t@ == content@,
            spans_of(ms@) == spans(t@),
            names == placeholder_names(t@),
            k <= ms@.len(),
            seen@.map_values(|s: String| s@) == dedup(names.take(k as int)),
            r@.map_values(|v: Variable| variable_view(v)) == variables_upto(t@, k as int),
        decreases ms@.len() - k,
    {
        proof {
            lemma_span_facts(t@, k as int);
            assert(spans(t@)[k as int] == ms@[k as int].span());
        }
        let name = name_of(&t, &ms[k]);
        proof {
            assert(names.take(k + 1).drop_last() =~= names.take(k as int));
            assert(names.take(k + 1).last() == name@);
            lemma_dedup_contains(names.take(k as int), name@);
            assert(names.take(k as int) =~= placeholder_names(t@).take(k + 1 - 1));
        }
        if !contains_string(&seen, &name) {
            let default_value = default_of(&t, &ms[k]);
            let name_copy = name.clone();
            let ghost prev_seen = seen@;
            let ghost prev_r = r@;
            seen.push(name);
            let v = Variable { name: name_copy, default_value };
            r.push(v);
            assert(seen@.map_values(|s: String| s@) =~= prev_seen.map_values(|s: String| s@).push(seen@.last()@));
            assert(r@.map_values(|v: Variable| variable_view(v)) =~= prev_r.map_values(|v: Variable| variable_view(v)).push(variable_view(v)));
        }
        k = k + 1;
    }
    r
}

/// Whether a fallback produces `piece` for `name`.
pub open spec fn fallback_gives<F: Fn(&str) -> String>(f: F, name: Seq<char>, piece: Seq<char>) -> bool {
    exists|arg: &str, out: String| arg@ == name && call_ensures(f, (arg,), out) && out@ == piece
}

/// The piece that replaces placeholder `sp`: the provided value, else its
/// default, else what the fallback gives for its name.
pub open spec fn piece_for<F: Fn(&str) -> String>(
    t: Seq<char>,
    sp: Span,
    values: Map<Seq<char>, Seq<char>>,
    f: F,
    piece: Seq<char>,
) -> bool {
    if values.contains_key(span_name(t, sp)) {
        piece == values[span_name(t, sp)]
    } else {
        match span_default(t, sp) {
            Some(d) => piece == d,
            None => fallback_gives(f, span_name(t, sp), piece),
        }
    }
}

/// `content` with every placeholder replaced: by the provided value for its
/// name, else by its default, else by what `fallback` gives for its name.
pub fn replace_variables<F: Fn(&str) -> String>(
    content: &str,
    variable_values: &ValueMap,
    fallback: F,
) -> (r: String)
    requires
        forall|s: &str| fallback.requires((s,)),
    ensures
        exists|pieces: Seq<Seq<char>>|
            {
                &&& pieces.len() == spans(content@).len()
                &&& r@ == rendered(content@, pieces)
                &&& forall|k: int|
                    0 <= k < pieces.len() ==> piece_for(
                        content@,
                        #[trigger] spans(content@)[k],
                        variable_values.view(),
                        fallback,
                        pieces[k],
                    )
            },
{
    let t = chars_of(content);
    let ms = scan_placeholders(&t);
    let mut out = String::new();
    let ghost mut pieces: Seq<Seq<char>> = seq![];
    let mut prev_end: usize = 0;
    let mut k: usize = 0;
    while k < ms.len()
        invariant
            t@ == content@,
            spans_of(ms@) == spans(t@),
            k <= ms@.len(),
            pieces.len() == k,
            prev_end <= t@.len(),
            prev_end == (if k == 0 { 0 } else { spans(t@)[k - 1].end }),
            out@ == rendered_upto(t@, pieces, k as int),
            forall|s: &str| fallback.requires((s,)),
            forall|j: int|
                0 <= j < k ==> piece_for(
                    t@,
                    #[trigger] spans(t@)[j],
                    variable_values.view(),
                    fallback,
                    pieces[j],
                ),
        decreases ms@.len() - k,
    {
        proof {
            lemma_span_facts(t@, k as int);
            assert(spans(t@)[k as int] == ms@[k as int].span());
        }
        let m = &ms[k];
        push_range(&mut out, &t, prev_end, m.start);
        let name = name_of(&t, m);
        let piece: String = match variable_values.get(name.as_str()) {
            Some(v) => v.clone(),
            None => match default_of(&t, m) {
                Some(d) => d,
                None => {
                    let o = fallback(name.as_str());
                    assert(fallback_gives(fallback, name@, o@));
                    o
                },
            },
        };
        let ghost old_pieces = pieces;
        proof {
            pieces = pieces.push(piece@);
            lemma_rendered_upto_prefix(t@, old_pieces, pieces, k as int);
        }
        push_str(&mut out, piece.as_str());
        prev_end = m.end;
        k = k + 1;
    }
    push_range(&mut out, &t, prev_end, t.len());
    assert(out@ == rendered(content@, pieces));
    assert(forall|k: int|
        0 <= k < pieces.len() ==> piece_for(
            content@,
            #[trigger] spans(content@)[k],
            variable_values.view(),
            fallback,
            pieces[k],
        ));
    out
}

/// Whether `name` can name a variable: it is not empty and holds neither `:` nor `}`.
pub fn validate_variable_name(name: &str) -> (r: bool)
    ensures
        r == valid_variable_name(name@),
{
    let cs = chars_of(name);
    cs.len() > 0 && !has_char(&cs, ':') && !has_char(&cs, '}')
}

} // verus!
