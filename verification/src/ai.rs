//! Compressing a template into one reusable script with a language model: the
//! prompt that asks for it, locating the JSON answer in the model's reply, and
//! checking the answer into a preview.
use vstd::prelude::*;
use crate::sort::{sort_texts, strictly_sorted};
use crate::text::{
    byte_len, chars_of, contains, contains_exec, contains_string, decimal, find_char_from,
    find_seq_exec, find_seq_from, is_blank, join, join_strings, occurs_at_exec, push_decimal,
    push_str, starts_with,
    string_of_range, take_chars, take_chars_exec, trim, trim_bounds, trim_string, views,
};
use crate::value_map::{pair_keys, ValueMap};
use crate::variable::{
    dedup, lemma_dedup_contains, lemma_dedup_no_duplicates, lemma_push_contains, parse_variables,
    parse_variables_with_defaults, placeholder_name_list, variable_view, variables_of, Variable,
    placeholder_names, spans, valid_variable_name, validate_variable_name,
};

verus! {

// ---------------------------------------------------------------------------
// Locating the JSON object in a reply
// ---------------------------------------------------------------------------
/// A Markdown code fence.
pub open spec fn fence() -> Seq<char> {
    seq!['`', '`', '`']
}

/// `s` without the prefix `p`, when it begins with it.
pub open spec fn strip_prefix(s: Seq<char>, p: Seq<char>) -> Seq<char> {
    if starts_with(s, p) {
        s.subrange(p.len() as int, s.len() as int)
    } else {
        s
    }
}

/// `s` without its leading line breaks (`\n` and `\r`).
pub open spec fn strip_leading_newlines(s: Seq<char>) -> Seq<char>
    decreases s.len(),
{
    if s.len() > 0 && (s[0] == '\n' || s[0] == '\r') {
        strip_leading_newlines(s.drop_first())
    } else {
        s
    }
}

/// The text after the first fence: without a `json` and then a `JSON`
/// language word, and without leading line breaks.
pub open spec fn after_fence(input: Seq<char>, st: int) -> Seq<char> {
    strip_leading_newlines(
        strip_prefix(
            strip_prefix(input.subrange(st + 3, input.len() as int), seq!['j', 's', 'o', 'n']),
            seq!['J', 'S', 'O', 'N'],
        ),
    )
}

/// The trimmed text between the first fence and the next one.
pub open spec fn fenced_json(input: Seq<char>) -> Option<Seq<char>> {
    match find_seq_from(input, fence(), 0) {
        None => None,
        Some(st) => {
            let rest = after_fence(input, st);
            match find_seq_from(rest, fence(), 0) {
                None => None,
                Some(e) => Some(trim(rest.subrange(0, e))),
            }
        },
    }
}

/// Scanning `s` from `i` with brace depth `depth`, inside a string literal or
/// not, after a backslash in one or not: the index just past the `}` that
/// brings the depth back to zero. Braces inside string literals do not count.
pub open spec fn json_scan(s: Seq<char>, i: int, depth: nat, in_str: bool, esc: bool) -> Option<int>
    decreases s.len() - i,
{
    if i < 0 || i >= s.len() {
        None
    } else {
        let c = s[i];
        if in_str {
            if esc {
                json_scan(s, i + 1, depth, true, false)
            } else if c == '\\' {
                json_scan(s, i + 1, depth, true, true)
            } else if c == '"' {
                json_scan(s, i + 1, depth, false, false)
            } else {
                json_scan(s, i + 1, depth, true, false)
            }
        } else if c == '"' {
            json_scan(s, i + 1, depth, true, esc)
        } else if c == '{' {
            json_scan(s, i + 1, depth + 1, false, esc)
        } else if c == '}' {
            let d: nat = if depth == 0 {
                0
            } else {
                (depth - 1) as nat
            };
            if d == 0 {
                Some(i + 1)
            } else {
                json_scan(s, i + 1, d, false, esc)
            }
        } else {
            json_scan(s, i + 1, depth, false, esc)
        }
    }
}

/// The first balanced `{ ... }` of `input`, from its first `{`.
pub open spec fn first_json_object(input: Seq<char>) -> Option<Seq<char>> {
    let st = find_char_from(input, '{', 0);
    if st >= input.len() {
        None
    } else {
        match json_scan(input, st, 0, false, false) {
            Some(e) => Some(input.subrange(st, e)),
            None => None,
        }
    }
}

/// Where the JSON object of a reply is: the error when there is none.
pub open spec fn located_json(raw: Seq<char>) -> Result<Seq<char>, Seq<char>> {
    let t = trim(raw);
    if t.len() == 0 {
        Err("Model response was empty"@)
    } else if fenced_json(t) is Some {
        Ok(fenced_json(t)->0)
    } else if t[0] == '{' && t.last() == '}' {
        Ok(t)
    } else if first_json_object(t) is Some {
        Ok(first_json_object(t)->0)
    } else {
        Err("Could not locate a JSON object in model response. Response started with: "@ + take_chars(t, 240))
    }
}

/// The characters `s[lo..hi]`.
fn slice_chars(s: &[char], lo: usize, hi: usize) -> (r: Vec<char>)
    requires
        lo <= hi <= s.len(),
    ensures
        r@ == s@.subrange(lo as int, hi as int),
{
    let mut r: Vec<char> = Vec::new();
    let mut i = lo;
    while i < hi
        invariant
            lo <= i <= hi <= s.len(),
            r@ == s@.subrange(lo as int, i as int),
        decreases hi - i,
    {
        r.push(s[i]);
        assert(s@.subrange(lo as int, i + 1) =~= s@.subrange(lo as int, i as int).push(s@[i as int]));
        i = i + 1;
    }
    r
}

/// `s` without the prefix `p`, when it begins with it.
fn strip_prefix_chars(s: &[char], p: &[char]) -> (r: Vec<char>)
    ensures
        r@ == strip_prefix(s@, p@),
{
    if occurs_at_exec(s, p, 0) {
        slice_chars(s, p.len(), s.len())
    } else {
        slice_chars(s, 0, s.len())
    }
}

/// `s` without its leading line breaks.
fn strip_leading_newlines_chars(s: &[char]) -> (r: Vec<char>)
    ensures
        r@ == strip_leading_newlines(s@),
{
    let n = s.len();
    let mut lo: usize = 0;
    assert(s@.subrange(0, n as int) =~= s@);
    while lo < n && (s[lo] == '\n' || s[lo] == '\r')
        invariant
            n == s@.len(),
            lo <= n,
            strip_leading_newlines(s@) == strip_leading_newlines(s@.subrange(lo as int, n as int)),
        decreases n - lo,
    {
        assert(s@.subrange(lo as int, n as int).drop_first() =~= s@.subrange(lo + 1, n as int));
        lo = lo + 1;
    }
    slice_chars(s, lo, n)
}

/// The trimmed text between the first fence and the next one.
pub fn extract_fenced_json(input: &str) -> (r: Option<String>)
    ensures
        match r {
            Some(v) => fenced_json(input@) == Some(v@),
            None => fenced_json(input@) is None,
        },
{
    let t = chars_of(input);
    let fc: Vec<char> = vec!['`', '`', '`'];
    assert(fc@ =~= fence());
    let found = find_seq_exec(&t, &fc, 0);
    let st = match found {
        Some(st) => st,
        None => {
            return None;
        },
    };
    assert(fc@.len() == 3);
    let n = t.len();
    assert(st + 3 <= n);
    let rest0 = slice_chars(&t, st + 3, n);
    let lower: Vec<char> = vec!['j', 's', 'o', 'n'];
    let upper: Vec<char> = vec!['J', 'S', 'O', 'N'];
    assert(lower@ =~= seq!['j', 's', 'o', 'n']);
    assert(upper@ =~= seq!['J', 'S', 'O', 'N']);
    let rest1 = strip_prefix_chars(&rest0, &lower);
    let rest2 = strip_prefix_chars(&rest1, &upper);
    let rest = strip_leading_newlines_chars(&rest2);
    assert(rest@ == after_fence(input@, st as int));
    match find_seq_exec(&rest, &fc, 0) {
        Some(e) => {
            let (a, b) = trim_bounds(&rest, 0, e);
            Some(string_of_range(&rest, a, b))
        },
        None => None,
    }
}

/// The first balanced `{ ... }` of `input`, from its first `{`, skipping
/// braces inside string literals.
pub fn extract_first_json_object(input: &str) -> (r: Option<String>)
    ensures
        match r {
            Some(v) => first_json_object(input@) == Some(v@),
            None => first_json_object(input@) is None,
        },
{
    let t = chars_of(input);
    let n = t.len();
    let mut start: usize = 0;
    while start < n && t[start] != '{'
        invariant
            n == t@.len(),
            start <= n,
            find_char_from(t@, '{', 0) == find_char_from(t@, '{', start as int),
        decreases n - start,
    {
        start = start + 1;
    }
    if start >= n {
        return None;
    }
    let mut depth: usize = 0;
    let mut in_string = false;
    let mut escaped = false;
    let mut i = start;
    while i < n
        invariant
            n == t@.len(),
            t@ == input@,
            start < n,
            start <= i <= n,
            depth <= i - start,
            find_char_from(t@, '{', 0) == start,
            json_scan(t@, start as int, 0, false, false) == json_scan(t@, i as int, depth as nat, in_string, escaped),
        decreases n - i,
    {
        let ch = t[i];
        if in_string {
            if escaped {
                escaped = false;
            } else if ch == '\\' {
                escaped = true;
            } else if ch == '"' {
                in_string = false;
            }
        } else if ch == '"' {
            in_string = true;
        } else if ch == '{' {
            depth = depth + 1;
        } else if ch == '}' {
            depth = if depth == 0 { 0 } else { depth - 1 };
            if depth == 0 {
                return Some(string_of_range(&t, start, i + 1));
            }
        }
        i = i + 1;
    }
    None
}

/// The JSON object of a model reply: the text between the first code fences
/// when there are some, else the whole trimmed reply when it is braced, else
/// its first balanced object; otherwise an error.
pub fn sanitize_model_json_response(raw_response: &str) -> (r: Result<String, String>)
    ensures
        match r {
            Ok(v) => located_json(raw_response@) == Ok::<Seq<char>, Seq<char>>(v@),
            Err(e) => located_json(raw_response@) == Err::<Seq<char>, Seq<char>>(e@),
        },
{
    let trimmed = trim_string(raw_response);
    if trimmed.as_str().is_empty() {
        return Err("Model response was empty".to_owned());
    }
    match extract_fenced_json(trimmed.as_str()) {
        Some(fenced) => {
            return Ok(fenced);
        },
        None => {},
    }
    let tc = chars_of(trimmed.as_str());
    if tc[0] == '{' && tc[tc.len() - 1] == '}' {
        return Ok(trimmed);
    }
    match extract_first_json_object(trimmed.as_str()) {
        Some(obj) => {
            return Ok(obj);
        },
        None => {},
    }
    let mut m = "Could not locate a JSON object in model response. Response started with: ".to_owned();
    let head = take_chars_exec(trimmed.as_str(), 240);
    push_str(&mut m, head.as_str());
    Err(m)
}

/// The message for a reply whose JSON could not be read: the reader's error
/// and the first 240 characters of the trimmed reply.
pub fn invalid_json_message(error: &str, raw_response: &str) -> (r: String)
    ensures
        r@ == "Model response was not valid JSON: "@ + error@ + ". Response started with: "@ + take_chars(
            trim(raw_response@),
            240,
        ),
{
    let mut m = "Model response was not valid JSON: ".to_owned();
    push_str(&mut m, error);
    push_str(&mut m, ". Response started with: ");
    let trimmed = trim_string(raw_response);
    let head = take_chars_exec(trimmed.as_str(), 240);
    push_str(&mut m, head.as_str());
    m
}

// ---------------------------------------------------------------------------
// Checking a compressed result
// ---------------------------------------------------------------------------
/// What the user asked of a compression.
#[derive(Debug, Clone)]
pub struct CompressionRequestOptions {
    pub suggested_name: Option<String>,
    pub suggested_tags: Option<String>,
    pub preserve_variables: bool,
}

/// The result part of a model's answer.
#[derive(Debug, Clone)]
pub struct CompressionResponseResult {
    pub script_name: String,
    pub tags: String,
    pub content: String,
    pub variable_defaults: ValueMap,
    pub summary: String,
}

/// A model's answer: a format version and the result.
#[derive(Debug)]
pub struct CompressionResponseEnvelope {
    pub version: String,
    pub result: CompressionResponseResult,
}

/// A checked compression, ready to be shown before it is saved as a script.
#[derive(Debug, Clone)]
pub struct CompressionPreview {
    pub source_template_id: String,
    pub source_template_name: String,
    pub source_tags: String,
    pub source_variable_names: Vec<String>,
    pub output_variable_names: Vec<String>,
    pub removed_variables: Vec<String>,
    pub added_variables: Vec<String>,
    pub script_name: String,
    pub tags: String,
    pub content: String,
    pub summary: String,
    pub variable_defaults: ValueMap,
    pub warnings: Vec<String>,
    pub source_length: usize,
    pub output_length: usize,
}

/// The first name of `names` that is not a valid variable name.
pub open spec fn first_invalid(names: Seq<Seq<char>>) -> Option<Seq<char>>
    decreases names.len(),
{
    if names.len() == 0 {
        None
    } else if !valid_variable_name(names[0]) {
        Some(names[0])
    } else {
        first_invalid(names.drop_first())
    }
}

/// What is wrong with the placeholders of compressed content, if anything: a
/// placeholder with an invalid name (the first one), or `{{` without any
/// well-formed placeholder.
pub open spec fn placeholder_problem(t: Seq<char>) -> Option<Seq<char>> {
    match first_invalid(placeholder_names(t)) {
        Some(n) => Some("Invalid variable name '"@ + n + "' in compressed content"@),
        None => if contains(t, seq!['{', '{']) && spans(t).len() == 0 {
            Some("Compressed content contains malformed variable placeholders"@)
        } else {
            None
        },
    }
}

/// The first of `keys` that is not among `names`.
pub open spec fn first_missing(keys: Seq<Seq<char>>, names: Seq<Seq<char>>) -> Option<Seq<char>>
    decreases keys.len(),
{
    if keys.len() == 0 {
        None
    } else if !names.contains(keys[0]) {
        Some(keys[0])
    } else {
        first_missing(keys.drop_first(), names)
    }
}

/// Why a model's answer is refused, if it is: checked in this order.
pub open spec fn preview_error(source: Seq<char>, parsed: CompressionResponseEnvelope) -> Option<Seq<char>> {
    let content = trim(parsed.result.content@);
    if trim(parsed.version@) != seq!['1'] {
        Some("Unsupported compression response version"@)
    } else if trim(parsed.result.script_name@).len() == 0 {
        Some("Compressed script name cannot be empty"@)
    } else if content.len() == 0 {
        Some("Compressed content cannot be empty"@)
    } else if placeholder_problem(content) is Some {
        placeholder_problem(content)
    } else {
        match first_missing(pair_keys(parsed.result.variable_defaults.entries_view()), placeholder_names(content)) {
            Some(k) => Some("variable_defaults contains '"@ + k + "' but the variable is missing from content"@),
            None => None,
        }
    }
}

/// `r` lists, in increasing order, the names in `a` that are not in `b`.
pub open spec fn sorted_difference(r: Seq<Seq<char>>, a: Seq<Seq<char>>, b: Seq<Seq<char>>) -> bool {
    &&& strictly_sorted(r)
    &&& forall|x: Seq<char>| #[trigger] r.contains(x) <==> (a.contains(x) && !b.contains(x))
}

/// The warnings of a preview, in order.
pub open spec fn preview_warnings(
    removed: Seq<Seq<char>>,
    added: Seq<Seq<char>>,
    preserve: bool,
    not_shorter: bool,
) -> Seq<Seq<char>> {
    let w1: Seq<Seq<char>> = if removed.len() > 0 {
        seq!["Removed variables: "@ + join(removed, ", "@)]
    } else {
        seq![]
    };
    let w2: Seq<Seq<char>> = if added.len() > 0 {
        seq!["Added variables: "@ + join(added, ", "@)]
    } else {
        seq![]
    };
    let w3: Seq<Seq<char>> = if preserve && removed.len() > 0 {
        seq!["Variable preservation was requested, but some source variables were removed."@]
    } else {
        seq![]
    };
    let w4: Seq<Seq<char>> = if not_shorter {
        seq!["Compressed result is not shorter than the source content."@]
    } else {
        seq![]
    };
    w1 + w2 + w3 + w4
}

/// The suggestion when it is given and not blank, else `fallback`.
pub open spec fn suggestion_or(suggestion: Option<String>, fallback: Seq<char>) -> Seq<char> {
    if suggestion is Some && trim(suggestion->0@).len() > 0 {
        suggestion->0@
    } else {
        fallback
    }
}

/// The tags of the compressed script: the answer's, else the suggested ones,
/// else the template's.
pub open spec fn preview_tags(answer_tags: Seq<char>, options: CompressionRequestOptions, template_tags: Seq<char>) -> Seq<char> {
    if trim(answer_tags).len() > 0 {
        trim(answer_tags)
    } else {
        suggestion_or(options.suggested_tags, template_tags)
    }
}

/// The summary of the compressed script: the answer's, else a default one.
pub open spec fn preview_summary(answer_summary: Seq<char>) -> Seq<char> {
    if trim(answer_summary).len() == 0 {
        "Compressed template into a reusable script."@
    } else {
        trim(answer_summary)
    }
}

proof fn lemma_first_invalid(names: Seq<Seq<char>>, i: int)
    requires
        0 <= i <= names.len(),
        forall|j: int| 0 <= j < i ==> valid_variable_name(#[trigger] names[j]),
    ensures
        first_invalid(names) == first_invalid(names.skip(i)),
    decreases i,
{
    if i > 0 {
        lemma_first_invalid(names, i - 1);
        let s = names.skip(i - 1);
        assert(s[0] == names[i - 1]);
        assert(s.drop_first() =~= names.skip(i));
    } else {
        assert(names.skip(0) =~= names);
    }
}

proof fn lemma_first_missing(keys: Seq<Seq<char>>, names: Seq<Seq<char>>, i: int)
    requires
        0 <= i <= keys.len(),
        forall|j: int| 0 <= j < i ==> names.contains(#[trigger] keys[j]),
    ensures
        first_missing(keys, names) == first_missing(keys.skip(i), names),
    decreases i,
{
    if i > 0 {
        lemma_first_missing(keys, names, i - 1);
        let s = keys.skip(i - 1);
        assert(s[0] == keys[i - 1]);
        assert(s.drop_first() =~= keys.skip(i));
    } else {
        assert(keys.skip(0) =~= keys);
    }
}

/// Checks the placeholders of compressed content (see `placeholder_problem`).
pub fn validate_template_placeholders(content: &str) -> (r: Result<(), String>)
    ensures
        match r {
            Ok(()) => placeholder_problem(content@) is None,
            Err(e) => placeholder_problem(content@) == Some(e@),
        },
{
    let names = placeholder_name_list(content);
    let ghost nv = names@.map_values(|s: String| s@);
    let mut i: usize = 0;
    while i < names.len()
        invariant
            i <= names@.len(),
            nv == names@.map_values(|s: String| s@),
            nv == placeholder_names(content@),
            forall|j: int| 0 <= j < i ==> valid_variable_name(#[trigger] nv[j]),
        decreases names@.len() - i,
    {
        if !validate_variable_name(names[i].as_str()) {
            proof {
                lemma_first_invalid(nv, i as int);
                assert(nv.skip(i as int)[0] == nv[i as int]);
            }
            let mut m = "Invalid variable name '".to_owned();
            push_str(&mut m, names[i].as_str());
            push_str(&mut m, "' in compressed content");
            return Err(m);
        }
        i = i + 1;
    }
    proof {
        lemma_first_invalid(nv, i as int);
        assert(nv.skip(i as int).len() == 0);
    }
    let t = chars_of(content);
    let open: Vec<char> = vec!['{', '{'];
    assert(open@ =~= seq!['{', '{']);
    if contains_exec(&t, &open) && names.len() == 0 {
        return Err("Compressed content contains malformed variable placeholders".to_owned());
    }
    Ok(())
}

/// The names of `a` that are not in `b`, in increasing order.
fn difference_sorted(a: &Vec<String>, b: &Vec<String>) -> (r: Vec<String>)
    requires
        views(a@).no_duplicates(),
    ensures
        sorted_difference(views(r@), views(a@), views(b@)),
{
    let ghost av = views(a@);
    let ghost bv = views(b@);
    let mut d: Vec<String> = Vec::new();
    let mut i: usize = 0;
    while i < a.len()
        invariant
            i <= a@.len(),
            av == views(a@),
            bv == views(b@),
            av.no_duplicates(),
            views(d@).no_duplicates(),
            forall|x: Seq<char>| #[trigger] views(d@).contains(x) <==> (av.take(i as int).contains(x) && !bv.contains(x)),
        decreases a@.len() - i,
    {
        let ghost prev = d@;
        let keep = !contains_string(b, &a[i]);
        proof {
            assert(views(b@) =~= b@.map_values(|x: String| x@));
            assert(av[i as int] == a@[i as int]@);
            assert(av.take(i + 1) =~= av.take(i as int).push(av[i as int]));
            if av.take(i as int).contains(av[i as int]) {
                let j = choose|j: int| 0 <= j < i && av.take(i as int)[j] == av[i as int];
                assert(av[j] == av[i as int]);
            }
        }
        if keep {
            d.push(a[i].clone());
            proof {
                assert(views(d@) =~= views(prev).push(av[i as int]));
                assert(!views(prev).contains(av[i as int]));
                assert forall|x: Seq<char>| #[trigger] views(d@).contains(x) <==> (av.take(i + 1).contains(x) && !bv.contains(x)) by {
                    lemma_push_contains(views(prev), av[i as int], x);
                    lemma_push_contains(av.take(i as int), av[i as int], x);
                }
            }
        } else {
            proof {
                assert forall|x: Seq<char>| #[trigger] views(d@).contains(x) <==> (av.take(i + 1).contains(x) && !bv.contains(x)) by {
                    assert(views(d@) == views(prev));
                    lemma_push_contains(av.take(i as int), av[i as int], x);
                }
            }
        }
        i = i + 1;
    }
    assert(av.take(i as int) =~= av);
    sort_texts(&d)
}

/// Checks a model's answer against the template it compresses, and builds
/// the preview: the variables of the source and of the result, which were
/// removed and added (each in increasing order), the trimmed name, content and
/// summary, the tags, the warnings and the two lengths in characters.
pub fn build_preview_from_response(
    template_id: &str,
    template_name: &str,
    template_tags: &str,
    source_content: &str,
    options: &CompressionRequestOptions,
    parsed: CompressionResponseEnvelope,
) -> (r: Result<CompressionPreview, String>)
    ensures
        match r {
            Err(e) => preview_error(source_content@, parsed) == Some(e@),
            Ok(p) => {
                let content = trim(parsed.result.content@);
                let source_names = dedup(placeholder_names(source_content@));
                let output_names = dedup(placeholder_names(content));
                &&& preview_error(source_content@, parsed) is None
                &&& p.source_template_id@ == template_id@
                &&& p.source_template_name@ == template_name@
                &&& p.source_tags@ == template_tags@
                &&& views(p.source_variable_names@) == source_names
                &&& views(p.output_variable_names@) == output_names
                &&& sorted_difference(views(p.removed_variables@), source_names, output_names)
                &&& sorted_difference(views(p.added_variables@), output_names, source_names)
                &&& p.script_name@ == trim(parsed.result.script_name@)
                &&& p.tags@ == preview_tags(parsed.result.tags@, *options, template_tags@)
                &&& p.content@ == content
                &&& p.summary@ == preview_summary(parsed.result.summary@)
                &&& p.variable_defaults.view() == parsed.result.variable_defaults.view()
                &&& p.variable_defaults.entries_view() == parsed.result.variable_defaults.entries_view()
                &&& views(p.warnings@) == preview_warnings(
                    views(p.removed_variables@),
                    views(p.added_variables@),
                    options.preserve_variables,
                    byte_len(content) >= byte_len(source_content@),
                )
                &&& p.source_length == source_content@.len()
                &&& p.output_length == parsed.result.content@.len()
            },
        },
{
    let version = trim_string(parsed.version.as_str());
    let vc = chars_of(version.as_str());
    if !(vc.len() == 1 && vc[0] == '1') {
        proof {
            if trim(parsed.version@) == seq!['1'] {
                assert(vc@[0] == '1');
            }
        }
        return Err("Unsupported compression response version".to_owned());
    }
    assert(vc@ =~= seq!['1']);
    let script_name = trim_string(parsed.result.script_name.as_str());
    if script_name.as_str().is_empty() {
        return Err("Compressed script name cannot be empty".to_owned());
    }
    let content = trim_string(parsed.result.content.as_str());
    if content.as_str().is_empty() {
        return Err("Compressed content cannot be empty".to_owned());
    }
    match validate_template_placeholders(content.as_str()) {
        Ok(()) => {},
        Err(e) => {
            return Err(e);
        },
    }
    let source_variable_names = parse_variables(source_content);
    let output_variable_names = parse_variables(content.as_str());
    let ghost sv = views(source_variable_names@);
    let ghost ov = views(output_variable_names@);
    proof {
        assert(sv == dedup(placeholder_names(source_content@)));
        assert(ov == dedup(placeholder_names(content@)));
        lemma_dedup_no_duplicates(placeholder_names(source_content@));
        lemma_dedup_no_duplicates(placeholder_names(content@));
    }
    // every default must belong to a variable of the content
    let defaults = &parsed.result.variable_defaults;
    let ghost keys = pair_keys(defaults.entries_view());
    let mut i: usize = 0;
    while i < defaults.len()
        invariant
            i <= keys.len(),
            keys == pair_keys(defaults.entries_view()),
            ov == dedup(placeholder_names(content@)),
            ov == views(output_variable_names@),
            forall|j: int| 0 <= j < i ==> placeholder_names(content@).contains(#[trigger] keys[j]),
            trim(parsed.version@) == seq!['1'],
            trim(parsed.result.script_name@).len() > 0,
            content@ == trim(parsed.result.content@),
            content@.len() > 0,
            placeholder_problem(content@) is None,
            defaults == &parsed.result.variable_defaults,
        decreases keys.len() - i,
    {
        let key = defaults.key_at(i);
        assert(key@ == keys[i as int]);
        proof {
            lemma_dedup_contains(placeholder_names(content@), key@);
        }
        let present = contains_string(&output_variable_names, key);
        proof {
            assert(ov =~= output_variable_names@.map_values(|x: String| x@));
        }
        if !present {
            proof {
                lemma_first_missing(keys, placeholder_names(content@), i as int);
                assert(keys.skip(i as int)[0] == keys[i as int]);
                assert(!ov.contains(key@));
                assert(!placeholder_names(content@).contains(key@));
                assert(first_missing(keys.skip(i as int), placeholder_names(content@)) == Some(key@));
                assert(content@ == trim(parsed.result.content@));
                assert(placeholder_problem(content@) is None);
            }
            let mut m = "variable_defaults contains '".to_owned();
            push_str(&mut m, key.as_str());
            push_str(&mut m, "' but the variable is missing from content");
            return Err(m);
        }
        i = i + 1;
    }
    proof {
        lemma_first_missing(keys, placeholder_names(content@), i as int);
        assert(keys.skip(i as int).len() == 0);
    }
    let removed_variables = difference_sorted(&source_variable_names, &output_variable_names);
    let added_variables = difference_sorted(&output_variable_names, &source_variable_names);
    let mut warnings: Vec<String> = Vec::new();
    let ghost rv = views(removed_variables@);
    let ghost adv = views(added_variables@);
    let ghost w0 = views(warnings@);
    if removed_variables.len() > 0 {
        let mut w = "Removed variables: ".to_owned();
        let j = join_strings(&removed_variables, ", ");
        push_str(&mut w, j.as_str());
        warnings.push(w);
    }
    let ghost w1 = views(warnings@);
    if added_variables.len() > 0 {
        let mut w = "Added variables: ".to_owned();
        let j = join_strings(&added_variables, ", ");
        push_str(&mut w, j.as_str());
        warnings.push(w);
    }
    let ghost w2 = views(warnings@);
    if options.preserve_variables && removed_variables.len() > 0 {
        warnings.push("Variable preservation was requested, but some source variables were removed.".to_owned());
    }
    let ghost w3 = views(warnings@);
    let not_shorter = content.as_str().len() >= source_content.len();
    if not_shorter {
        warnings.push("Compressed result is not shorter than the source content.".to_owned());
    }
    proof {
        let p1: Seq<Seq<char>> = if rv.len() > 0 {
            seq!["Removed variables: "@ + join(rv, ", "@)]
        } else {
            seq![]
        };
        assert(w1 =~= p1);
        let p2: Seq<Seq<char>> = if adv.len() > 0 {
            seq!["Added variables: "@ + join(adv, ", "@)]
        } else {
            seq![]
        };
        assert(w2 =~= p1 + p2);
        let p3: Seq<Seq<char>> = if options.preserve_variables && rv.len() > 0 {
            seq!["Variable preservation was requested, but some source variables were removed."@]
        } else {
            seq![]
        };
        assert(w3 =~= p1 + p2 + p3);
        assert(views(warnings@) =~= preview_warnings(rv, adv, options.preserve_variables, not_shorter));
    }
    let answer_tags = trim_string(parsed.result.tags.as_str());
    let tags = if answer_tags.as_str().is_empty() {
        match &options.suggested_tags {
            Some(s) => {
                if is_blank(s.as_str()) {
                    template_tags.to_owned()
                } else {
                    s.clone()
                }
            },
            None => template_tags.to_owned(),
        }
    } else {
        answer_tags
    };
    let summary = if is_blank(parsed.result.summary.as_str()) {
        "Compressed template into a reusable script.".to_owned()
    } else {
        trim_string(parsed.result.summary.as_str())
    };
    let source_length = chars_of(source_content).len();
    let output_length = chars_of(parsed.result.content.as_str()).len();
    let CompressionResponseEnvelope { version: _, result } = parsed;
    let CompressionResponseResult { script_name: _, tags: _, content: _, variable_defaults, summary: _ } = result;
    Ok(CompressionPreview {
        source_template_id: template_id.to_owned(),
        source_template_name: template_name.to_owned(),
        source_tags: template_tags.to_owned(),
        source_variable_names,
        output_variable_names,
        removed_variables,
        added_variables,
        script_name,
        tags,
        content,
        summary,
        variable_defaults,
        warnings,
        source_length,
        output_length,
    })
}

// ---------------------------------------------------------------------------
// Provider errors
// ---------------------------------------------------------------------------
/// What an HTTP status from the model provider most likely means.
pub open spec fn provider_hint(status: u16) -> Seq<char> {
    if status == 400 {
        "Bad request. Check model name and request fields."@
    } else if status == 401 {
        "Authentication failed. Check the API key."@
    } else if status == 402 {
        "Insufficient Poe credits or subscription points."@
    } else if status == 403 {
        "Request was forbidden by the provider."@
    } else if status == 404 {
        "Endpoint or model was not found. For Poe use base URL https://api.poe.com/v1 and a valid model name."@
    } else if status == 408 {
        "The provider timed out before the model started."@
    } else if status == 413 {
        "The request was too large for the model context window."@
    } else if status == 429 {
        "The provider rate limit was hit. Try again shortly."@
    } else if status == 500 {
        "Provider returned an internal error, which can also happen for invalid upstream requests."@
    } else if status == 502 {
        "Upstream model backend was unavailable."@
    } else if status == 529 {
        "Provider is temporarily overloaded."@
    } else {
        "Provider returned an unexpected error."@
    }
}

fn provider_hint_text(status: u16) -> (r: &'static str)
    ensures
        r@ == provider_hint(status),
{
    if status == 400 {
        "Bad request. Check model name and request fields."
    } else if status == 401 {
        "Authentication failed. Check the API key."
    } else if status == 402 {
        "Insufficient Poe credits or subscription points."
    } else if status == 403 {
        "Request was forbidden by the provider."
    } else if status == 404 {
        "Endpoint or model was not found. For Poe use base URL https://api.poe.com/v1 and a valid model name."
    } else if status == 408 {
        "The provider timed out before the model started."
    } else if status == 413 {
        "The request was too large for the model context window."
    } else if status == 429 {
        "The provider rate limit was hit. Try again shortly."
    } else if status == 500 {
        "Provider returned an internal error, which can also happen for invalid upstream requests."
    } else if status == 502 {
        "Upstream model backend was unavailable."
    } else if status == 529 {
        "Provider is temporarily overloaded."
    } else {
        "Provider returned an unexpected error."
    }
}

/// The message for a failed request to the model provider: the status, the
/// address, what the status likely means, and the trimmed response body when
/// there is one.
pub fn format_provider_error(status: u16, url: &str, body: &str) -> (r: String)
    ensures
        r@ == "AI request failed with status "@ + decimal(status as nat) + " at "@ + url@ + ". "@
            + provider_hint(status) + (if trim(body@).len() == 0 {
            Seq::<char>::empty()
        } else {
            " Response: "@ + trim(body@)
        }),
{
    let mut m = "AI request failed with status ".to_owned();
    push_decimal(&mut m, status as u64);
    push_str(&mut m, " at ");
    push_str(&mut m, url);
    push_str(&mut m, ". ");
    push_str(&mut m, provider_hint_text(status));
    let compact_body = trim_string(body);
    if !compact_body.as_str().is_empty() {
        push_str(&mut m, " Response: ");
        push_str(&mut m, compact_body.as_str());
    } else {
        assert(m@ =~= m@ + Seq::<char>::empty());
    }
    m
}

// ---------------------------------------------------------------------------
// The compression prompt
// ---------------------------------------------------------------------------
/// The fixed instructions that open the compression prompt, up to the value
/// of `preserve_variables`.
pub const COMPRESSION_INSTRUCTIONS: &'static str = "You compress prompt templates into shorter reusable prompts.\nPreserve the original task intent.\nUse double-curly placeholders like {{name}} or {{name:default}} when variables are still needed.\nDo not include markdown fences or any text outside JSON.\nReturn valid JSON with this exact schema:\n{\n  \"version\": \"1\",\n  \"result\": {\n    \"script_name\": \"string\",\n    \"tags\": \"string\",\n    \"content\": \"string\",\n    \"variable_defaults\": { \"name\": \"default\" },\n    \"summary\": \"string\"\n  }\n}\n\nCompression requirements:\n- Produce one final compressed prompt only.\n- Keep it reusable and concise.\n- Do not invent unnecessary variables.\n- If a variable is removed from content, omit it from variable_defaults.\n- Prefer the suggested name when it is provided.\n- preserve_variables = ";

/// The lower-case hexadecimal digit of `d` (`0 <= d < 16`).
pub open spec fn hex_digit(d: int) -> char {
    if d < 10 {
        (48 + d) as char
    } else {
        (87 + d) as char
    }
}

/// One character inside a JSON string literal: `"` and `\` escaped with a
/// backslash, the control characters backspace, tab, line feed, form feed and
/// carriage return as `\b`, `\t`, `\n`, `\f`, `\r`, the other characters
/// below U+0020 as `\u00XX` (lower-case hexadecimal), any other character as it is.
pub open spec fn json_char(c: char) -> Seq<char> {
    let v = c as u32;
    if c == '"' {
        seq!['\\', '"']
    } else if c == '\\' {
        seq!['\\', '\\']
    } else if v == 8 {
        seq!['\\', 'b']
    } else if v == 9 {
        seq!['\\', 't']
    } else if v == 10 {
        seq!['\\', 'n']
    } else if v == 12 {
        seq!['\\', 'f']
    } else if v == 13 {
        seq!['\\', 'r']
    } else if v < 32 {
        seq!['\\', 'u', '0', '0', hex_digit((v / 16) as int), hex_digit((v % 16) as int)]
    } else {
        seq![c]
    }
}

/// The characters of `s`, each as it stands inside a JSON string literal.
pub open spec fn json_chars(s: Seq<char>) -> Seq<char>
    decreases s.len(),
{
    if s.len() == 0 {
        seq![]
    } else {
        json_chars(s.drop_last()) + json_char(s.last())
    }
}

/// The JSON string literal of `s`, as `serde_json::to_string` writes a
/// string: `s` between double quotes, each character as `json_char` gives it.
pub open spec fn json_string(s: Seq<char>) -> Seq<char> {
    seq!['"'] + json_chars(s) + seq!['"']
}

/// `serde_json::to_string` on a string slice (which cannot fail for one): the
/// escaping of its compact formatter (`format_escaped_str`), as `json_string`
/// states it.
#[verifier::external_body]
fn json_quote(s: &str) -> (r: String)
    ensures
        r@ == json_string(s@),
{
    match serde_json::to_string(s) {
        Ok(v) => v,
        Err(_) => String::new(),
    }
}

/// One source script in the prompt, numbered from one.
pub open spec fn script_entry(i: int, name: Seq<char>, content: Seq<char>) -> Seq<char> {
    "Script "@ + decimal((i + 1) as nat) + "\nName: "@ + name + "\nContent:\n"@ + content
}

/// The source scripts of the prompt, in order.
pub open spec fn script_entries(scripts: Seq<(String, String)>) -> Seq<Seq<char>> {
    Seq::new(scripts.len(), |i: int| script_entry(i, scripts[i].0@, scripts[i].1@))
}

/// One variable as an indented JSON object, from its quoted name and quoted
/// default (`null` when it has none).
pub open spec fn variable_entry(q: (Seq<char>, Option<Seq<char>>)) -> Seq<char> {
    "  {\n    \"name\": "@ + q.0 + ",\n    \"default_value\": "@ + (match q.1 {
        Some(d) => d,
        None => "null"@,
    }) + "\n  }"@
}

/// A JSON array of the given entries, one per line (`[]` when there are none).
pub open spec fn pretty_list(entries: Seq<Seq<char>>) -> Seq<char> {
    if entries.len() == 0 {
        "[]"@
    } else {
        "[\n"@ + join(entries, ",\n"@) + "\n]"@
    }
}

/// The view of a quoted variable.
pub open spec fn quoted_view(q: (String, Option<String>)) -> (Seq<char>, Option<Seq<char>>) {
    (q.0@, match q.1 {
        Some(d) => Some(d@),
        None => None,
    })
}

/// The quoted form of a variable of content.
pub open spec fn quoted_variable(v: (Seq<char>, Option<Seq<char>>)) -> (Seq<char>, Option<Seq<char>>) {
    (json_string(v.0), match v.1 {
        Some(d) => Some(json_string(d)),
        None => None,
    })
}

/// The whole compression prompt.
pub open spec fn compression_prompt(
    preserve: bool,
    template_name: Seq<char>,
    template_tags: Seq<char>,
    suggested_name: Seq<char>,
    suggested_tags: Seq<char>,
    script_section: Seq<char>,
    composed: Seq<char>,
    variable_section: Seq<char>,
) -> Seq<char> {
    COMPRESSION_INSTRUCTIONS@ + (if preserve {
        "true"@
    } else {
        "false"@
    }) + ".\n\nTemplate name: "@ + template_name + "\nTemplate tags: "@ + template_tags
        + "\nSuggested script name: "@ + suggested_name + "\nSuggested tags: "@ + suggested_tags
        + "\n\nOrdered source scripts:\n"@ + script_section + "\n\nComposed prompt:\n"@ + composed
        + "\n\nParsed source variables:\n"@ + variable_section + "\n"@
}

/// The variables as a JSON array, one indented object per variable, from
/// their quoted names and defaults.
pub fn pretty_variables(quoted: &Vec<(String, Option<String>)>) -> (r: String)
    ensures
        r@ == pretty_list(quoted@.map_values(|q: (String, Option<String>)| variable_entry(quoted_view(q)))),
{
    let ghost es = quoted@.map_values(|q: (String, Option<String>)| variable_entry(quoted_view(q)));
    if quoted.len() == 0 {
        return "[]".to_owned();
    }
    let mut r = "[\n".to_owned();
    let ghost r0 = r@;
    let mut i: usize = 0;
    while i < quoted.len()
        invariant
            i <= quoted@.len(),
            quoted@.len() > 0,
            es == quoted@.map_values(|q: (String, Option<String>)| variable_entry(quoted_view(q))),
            r@ == r0 + join(es.take(i as int), ",\n"@),
        decreases quoted@.len() - i,
    {
        if i > 0 {
            push_str(&mut r, ",\n");
        }
        push_str(&mut r, "  {\n    \"name\": ");
        push_str(&mut r, quoted[i].0.as_str());
        push_str(&mut r, ",\n    \"default_value\": ");
        match &quoted[i].1 {
            Some(d) => push_str(&mut r, d.as_str()),
            None => push_str(&mut r, "null"),
        }
        push_str(&mut r, "\n  }");
        proof {
            let t = es.take(i + 1);
            assert(t.drop_last() =~= es.take(i as int));
            assert(t.last() == es[i as int]);
            if i == 0 {
                assert(join(t, ",\n"@) == t[0]);
            }
        }
        i = i + 1;
    }
    assert(es.take(i as int) =~= es);
    push_str(&mut r, "\n]");
    r
}

/// The source scripts, each numbered with its name and content, separated by blank lines.
fn script_section(ordered_scripts: &[(String, String)]) -> (r: String)
    ensures
        r@ == join(script_entries(ordered_scripts@), "\n\n"@),
{
    let ghost es = script_entries(ordered_scripts@);
    let mut r = String::new();
    let mut i: usize = 0;
    while i < ordered_scripts.len()
        invariant
            i <= ordered_scripts@.len(),
            es == script_entries(ordered_scripts@),
            r@ == join(es.take(i as int), "\n\n"@),
        decreases ordered_scripts@.len() - i,
    {
        if i > 0 {
            push_str(&mut r, "\n\n");
        }
        push_str(&mut r, "Script ");
        let number = i + 1;
        push_decimal(&mut r, number as u64);
        push_str(&mut r, "\nName: ");
        push_str(&mut r, ordered_scripts[i].0.as_str());
        push_str(&mut r, "\nContent:\n");
        push_str(&mut r, ordered_scripts[i].1.as_str());
        proof {
            let t = es.take(i + 1);
            assert(t.drop_last() =~= es.take(i as int));
            assert(t.last() == es[i as int]);
            if i == 0 {
                assert(join(t, "\n\n"@) == t[0]);
            }
        }
        i = i + 1;
    }
    assert(es.take(i as int) =~= es);
    r
}

/// The suggestion when it is given and not blank, else `fallback`.
fn suggestion_or_exec(suggestion: &Option<String>, fallback: &str) -> (r: String)
    ensures
        r@ == suggestion_or(*suggestion, fallback@),
{
    match suggestion {
        Some(s) => {
            if is_blank(s.as_str()) {
                fallback.to_owned()
            } else {
                s.clone()
            }
        },
        None => fallback.to_owned(),
    }
}

/// The compression prompt for a template, given the text of its parsed
/// variables: the fixed instructions, the template's name and tags, the
/// suggested name (`(none)` when none is given) and tags (the template's when
/// none are given), the numbered source scripts, the composed content and the
/// variable text.
pub fn compose_compression_prompt(
    template_name: &str,
    template_tags: &str,
    ordered_scripts: &[(String, String)],
    composed_content: &str,
    options: &CompressionRequestOptions,
    variable_section: &str,
) -> (r: String)
    ensures
        r@ == compression_prompt(
            options.preserve_variables,
            template_name@,
            template_tags@,
            suggestion_or(options.suggested_name, "(none)"@),
            suggestion_or(options.suggested_tags, template_tags@),
            join(script_entries(ordered_scripts@), "\n\n"@),
            composed_content@,
            variable_section@,
        ),
{
    let scripts = script_section(ordered_scripts);
    let suggested_name = suggestion_or_exec(&options.suggested_name, "(none)");
    let suggested_tags = suggestion_or_exec(&options.suggested_tags, template_tags);
    let mut r = COMPRESSION_INSTRUCTIONS.to_owned();
    push_str(&mut r, if options.preserve_variables { "true" } else { "false" });
    push_str(&mut r, ".\n\nTemplate name: ");
    push_str(&mut r, template_name);
    push_str(&mut r, "\nTemplate tags: ");
    push_str(&mut r, template_tags);
    push_str(&mut r, "\nSuggested script name: ");
    push_str(&mut r, suggested_name.as_str());
    push_str(&mut r, "\nSuggested tags: ");
    push_str(&mut r, suggested_tags.as_str());
    push_str(&mut r, "\n\nOrdered source scripts:\n");
    push_str(&mut r, scripts.as_str());
    push_str(&mut r, "\n\nComposed prompt:\n");
    push_str(&mut r, composed_content);
    push_str(&mut r, "\n\nParsed source variables:\n");
    push_str(&mut r, variable_section);
    push_str(&mut r, "\n");
    r
}

/// The variables with their names and defaults quoted as JSON strings.
fn quote_variables(vars: &Vec<Variable>) -> (r: Vec<(String, Option<String>)>)
    ensures
        r@.map_values(|q: (String, Option<String>)| quoted_view(q)) == vars@.map_values(
            |v: Variable| quoted_variable(variable_view(v)),
        ),
{
    let ghost target = vars@.map_values(|v: Variable| quoted_variable(variable_view(v)));
    let mut r: Vec<(String, Option<String>)> = Vec::new();
    let mut i: usize = 0;
    while i < vars.len()
        invariant
            i <= vars@.len(),
            target == vars@.map_values(|v: Variable| quoted_variable(variable_view(v))),
            r@.map_values(|q: (String, Option<String>)| quoted_view(q)) == target.take(i as int),
        decreases vars@.len() - i,
    {
        let name = json_quote(vars[i].name.as_str());
        let default = match &vars[i].default_value {
            Some(d) => Some(json_quote(d.as_str())),
            None => None,
        };
        let ghost prev = r@;
        let q = (name, default);
        r.push(q);
        assert(quoted_view(q) == target[i as int]);
        assert(r@.map_values(|q: (String, Option<String>)| quoted_view(q)) =~= prev.map_values(
            |q: (String, Option<String>)| quoted_view(q),
        ).push(quoted_view(q)));
        assert(target.take(i + 1) =~= target.take(i as int).push(target[i as int]));
        i = i + 1;
    }
    assert(target.take(i as int) =~= target);
    r
}

/// The compression prompt for a template (see `compose_compression_prompt`),
/// with the variables parsed from the composed content written as a JSON
/// array of `name` and `default_value`.
pub fn build_compression_prompt(
    template_name: &str,
    template_tags: &str,
    ordered_scripts: &[(String, String)],
    composed_content: &str,
    options: &CompressionRequestOptions,
) -> (r: String)
    ensures
        r@ == compression_prompt(
            options.preserve_variables,
            template_name@,
            template_tags@,
            suggestion_or(options.suggested_name, "(none)"@),
            suggestion_or(options.suggested_tags, template_tags@),
            join(script_entries(ordered_scripts@), "\n\n"@),
            composed_content@,
            pretty_list(
                variables_of(composed_content@).map_values(
                    |v: (Seq<char>, Option<Seq<char>>)| variable_entry(quoted_variable(v)),
                ),
            ),
        ),
{
    let vars = parse_variables_with_defaults(composed_content);
    let quoted = quote_variables(&vars);
    let section = pretty_variables(&quoted);
    proof {
        let a = quoted@.map_values(|q: (String, Option<String>)| variable_entry(quoted_view(q)));
        let b = variables_of(composed_content@).map_values(
            |v: (Seq<char>, Option<Seq<char>>)| variable_entry(quoted_variable(v)),
        );
        let qv = quoted@.map_values(|q: (String, Option<String>)| quoted_view(q));
        let tv = vars@.map_values(|v: Variable| quoted_variable(variable_view(v)));
        let vv = vars@.map_values(|v: Variable| variable_view(v));
        assert(vv == variables_of(composed_content@));
        assert(qv == tv);
        assert(qv.len() == quoted@.len() && tv.len() == vars@.len() && vv.len() == vars@.len());
        assert forall|i: int| 0 <= i < a.len() implies a[i] == b[i] by {
            assert(qv[i] == quoted_view(quoted@[i]));
            assert(tv[i] == quoted_variable(variable_view(vars@[i])));
            assert(vv[i] == variable_view(vars@[i]));
        }
        assert(a =~= b);
    }
    compose_compression_prompt(template_name, template_tags, ordered_scripts, composed_content, options, section.as_str())
}

} // verus!
