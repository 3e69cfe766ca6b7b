//! Properties of the library as a whole, stated over the specifications that
//! the functions' contracts use.
use vstd::prelude::*;
use std::sync::Arc;
use crate::ai::{first_json_object, json_scan, sorted_difference};
use crate::data::{tag_segments, ids_view, same_script, same_template, without, Script, Template};
use crate::history::{after_push, bounded, ids_of_kind, recent_ids, UsageRecord};
use crate::search::{fuzzy, highlighted, script_search_keys, template_search_keys};
use crate::ai::{preview_tags, CompressionRequestOptions};
use crate::validator::{forbidden_name_char, name_problem, open_state, unclosed};
use crate::data::tag_matches;
use crate::sort::{key_lt, text_lt, lemma_text_lt_irreflexive, permuted, stably_sorted, KeyView};
use crate::storage::{id_moves, import_ids, lemma_import_ids_len, merged, moved, script_ids_of, template_ids_of};
use crate::tags::{
    arc_script_tags, arc_template_tags, has_segment, is_descendant, lemma_rename_pieces, rename_pieces, rename_segment, prefixed, sanitized, select, suggestion_keys, valid_tag,
    lemma_sanitize_valid_is_identity, lemma_sanitized_is_valid, lemma_select_all, some_under, counts_descending, child_entry, count_under, full_path_of, is_prefix, lemma_occurrences_contains, lemma_tag_counts_contains, occurrences, script_tags, tag_counts, template_tags, collapse_slashes, segment_char, strip_leading_slashes, strip_trailing_slashes,
};
use crate::text::{byte_len, lowercase, words, split_char, contains, find_char_from, find_seq_from, non_empty, occurs_at, starts_with, trim, trim_end, trim_start};
use crate::variable::{
    dedup, replacement, Span, lemma_dedup_contains, lemma_dedup_no_duplicates, lemma_first_stop_bounds, lemma_span_facts,
    lemma_variables_upto_names, placeholder_names, rendered, rendered_upto, span_name, spans, variables_of,
};

verus! {

// ---------------------------------------------------------------------------
// Placeholders
// ---------------------------------------------------------------------------
/// `parse_variables` names each variable once.
pub proof fn law_parsed_names_distinct(content: Seq<char>)
    ensures
        dedup(placeholder_names(content)).no_duplicates(),
{
    lemma_dedup_no_duplicates(placeholder_names(content));
}

/// `parse_variables` and `parse_variables_with_defaults` find the same
/// variables, in the same order.
pub proof fn law_parse_forms_agree(content: Seq<char>)
    ensures
        variables_of(content).map_values(|v: (Seq<char>, Option<Seq<char>>)| v.0) == dedup(
            placeholder_names(content),
        ),
{
    lemma_variables_upto_names(content, spans(content).len() as int);
    assert(placeholder_names(content).take(spans(content).len() as int) =~= placeholder_names(content));
}

/// Trimming keeps only characters of the text.
pub proof fn lemma_trim_within(s: Seq<char>, c: char)
    ensures
        trim(s).contains(c) ==> s.contains(c),
{
    lemma_trim_start_within(s, c);
    lemma_trim_end_within(trim_start(s), c);
}

proof fn lemma_trim_start_within(s: Seq<char>, c: char)
    ensures
        trim_start(s).contains(c) ==> s.contains(c),
    decreases s.len(),
{
    if s.len() > 0 && crate::text::is_white_space(s[0]) {
        lemma_trim_start_within(s.drop_first(), c);
        if s.drop_first().contains(c) {
            let j = choose|j: int| 0 <= j < s.drop_first().len() && s.drop_first()[j] == c;
            assert(s[j + 1] == c);
        }
    }
}

proof fn lemma_trim_end_within(s: Seq<char>, c: char)
    ensures
        trim_end(s).contains(c) ==> s.contains(c),
    decreases s.len(),
{
    if s.len() > 0 && crate::text::is_white_space(s.last()) {
        lemma_trim_end_within(s.drop_last(), c);
        if s.drop_last().contains(c) {
            let j = choose|j: int| 0 <= j < s.drop_last().len() && s.drop_last()[j] == c;
            assert(s[j] == c);
        }
    }
}

/// A placeholder name never holds `:` or `}`.
pub proof fn law_names_without_separators(content: Seq<char>, k: int)
    requires
        0 <= k < placeholder_names(content).len(),
    ensures
        !placeholder_names(content)[k].contains(':'),
        !placeholder_names(content)[k].contains('}'),
{
    lemma_span_facts(content, k);
    let sp = spans(content)[k];
    lemma_first_stop_bounds(content, sp.start + 2);
    let body = content.subrange(sp.start + 2, sp.name_end);
    assert(sp.name_end == crate::variable::first_stop(content, sp.start + 2));
    assert forall|c: char| body.contains(c) implies c != ':' && c != '}' by {
        let j = choose|j: int| 0 <= j < body.len() && body[j] == c;
        assert(body[j] == content[sp.start + 2 + j]);
    }
    lemma_trim_within(body, ':');
    lemma_trim_within(body, '}');
    assert(placeholder_names(content)[k] == span_name(content, sp));
}

/// Content without placeholders is left as it is by replacement.
pub proof fn law_no_placeholders_unchanged(content: Seq<char>, pieces: Seq<Seq<char>>)
    requires
        spans(content).len() == 0,
    ensures
        rendered(content, pieces) == content,
{
    assert(rendered_upto(content, pieces, 0) == Seq::<char>::empty());
    assert(content.subrange(0, content.len() as int) =~= content);
    assert(Seq::<char>::empty() + content =~= content);
}

// ---------------------------------------------------------------------------
// Tags
// ---------------------------------------------------------------------------
/// `sanitize_tag` always gives a tag that `validate_tag` accepts.
pub proof fn law_sanitized_tag_is_valid(tag: Seq<char>)
    ensures
        valid_tag(sanitized(tag)),
{
    lemma_sanitized_is_valid(tag);
}

/// `sanitize_tag` leaves a tag that `validate_tag` accepts as it is, so
/// cleaning twice is cleaning once.
pub proof fn law_sanitize_idempotent(tag: Seq<char>)
    ensures
        valid_tag(tag) ==> sanitized(tag) == tag,
        sanitized(sanitized(tag)) == sanitized(tag),
{
    if valid_tag(tag) {
        lemma_sanitize_valid_is_identity(tag);
    }
    lemma_sanitized_is_valid(tag);
    lemma_sanitize_valid_is_identity(sanitized(tag));
}

/// The elements that `select` keeps satisfy the condition and come from the sequence.
pub proof fn lemma_select_keeps<A>(s: Seq<A>, keep: spec_fn(A) -> bool, x: A)
    ensures
        select(s, keep).contains(x) ==> keep(x) && s.contains(x),
    decreases s.len(),
{
    if s.len() > 0 {
        lemma_select_keeps(s.drop_last(), keep, x);
        let d = select(s.drop_last(), keep);
        if select(s, keep).contains(x) {
            if keep(s.last()) {
                crate::variable::lemma_push_contains(d, s.last(), x);
            }
            if d.contains(x) {
                let j = choose|j: int| 0 <= j < s.drop_last().len() && s.drop_last()[j] == x;
                assert(s[j] == x);
            }
        }
    }
}

proof fn lemma_non_empty_within(a: Seq<Seq<char>>, x: Seq<char>)
    ensures
        non_empty(a).contains(x) ==> a.contains(x),
    decreases a.len(),
{
    if a.len() > 0 {
        lemma_non_empty_within(a.drop_last(), x);
        let d = non_empty(a.drop_last());
        if non_empty(a).contains(x) {
            if a.last().len() > 0 {
                crate::variable::lemma_push_contains(d, a.last(), x);
            }
            if d.contains(x) {
                let j = choose|j: int| 0 <= j < a.drop_last().len() && a.drop_last()[j] == x;
                assert(a[j] == x);
            }
        }
    }
}

/// After `cascade_delete_tag` removes the scripts and templates at or below
/// `tag`, no tag that is left lies at or below it.
pub proof fn law_cascade_leaves_no_descendant(
    scripts: Seq<Arc<Script>>,
    templates: Seq<Arc<Template>>,
    tag: &str,
    t: Seq<char>,
)
    requires
        non_empty(
            arc_script_tags(select(scripts, |s: Arc<Script>| !is_descendant(s.tags@, tag@)))
                + arc_template_tags(select(templates, |t: Arc<Template>| !is_descendant(t.tags@, tag@))),
        ).contains(t),
    ensures
        !is_descendant(t, tag@),
{
    let ks = select(scripts, |s: Arc<Script>| !is_descendant(s.tags@, tag@));
    let kt = select(templates, |t: Arc<Template>| !is_descendant(t.tags@, tag@));
    let all = arc_script_tags(ks) + arc_template_tags(kt);
    lemma_non_empty_within(all, t);
    let j = choose|j: int| 0 <= j < all.len() && all[j] == t;
    if j < ks.len() {
        assert(arc_script_tags(ks)[j] == ks[j].tags@);
        lemma_select_keeps(scripts, |s: Arc<Script>| !is_descendant(s.tags@, tag@), ks[j]);
        assert(ks.contains(ks[j]));
    } else {
        let i = j - ks.len();
        assert(all[j] == arc_template_tags(kt)[i]);
        assert(arc_template_tags(kt)[i] == kt[i].tags@);
        lemma_select_keeps(templates, |t: Arc<Template>| !is_descendant(t.tags@, tag@), kt[i]);
        assert(kt.contains(kt[i]));
    }
}

/// Every tag suggestion begins with the partial tag and is a known tag.
pub proof fn law_suggestions_are_prefixed(
    counts: Seq<(Seq<char>, nat)>,
    partial: Seq<char>,
    p: Seq<int>,
    k: int,
)
    requires
        stably_sorted(suggestion_keys(prefixed(counts, partial)), p),
        0 <= k < prefixed(counts, partial).len(),
    ensures
        starts_with(permuted(prefixed(counts, partial), p)[k].0, partial),
        counts.contains(permuted(prefixed(counts, partial), p)[k]),
{
    let f = prefixed(counts, partial);
    assert(suggestion_keys(f).len() == f.len());
    let x = f[p[k]];
    assert(f.contains(x));
    lemma_select_keeps(counts, |e: (Seq<char>, nat)| starts_with(e.0, partial), x);
}

// ---------------------------------------------------------------------------
// Templates and scripts
// ---------------------------------------------------------------------------
/// After a script is deleted, no template lists its id.
pub proof fn law_deleted_script_unreferenced(ids: Seq<Seq<char>>, id: Seq<char>)
    ensures
        !without(ids, id).contains(id),
    decreases ids.len(),
{
    if ids.len() > 0 {
        law_deleted_script_unreferenced(ids.drop_last(), id);
        let d = without(ids.drop_last(), id);
        if ids.last() != id {
            crate::variable::lemma_push_contains(d, ids.last(), id);
        }
    }
}

/// A shared value set on a template is the value read back for that name.
pub proof fn law_set_then_get(values: Map<Seq<char>, Seq<char>>, name: Seq<char>, value: Seq<char>)
    ensures
        values.insert(name, value).contains_key(name),
        values.insert(name, value)[name] == value,
{
}

// ---------------------------------------------------------------------------
// History
// ---------------------------------------------------------------------------
/// Recording a use never lets the history grow past its limit.
pub proof fn law_history_bounded(records: Seq<UsageRecord>, r: UsageRecord, max: nat)
    requires
        records.len() <= max,
    ensures
        after_push(records, r, max).len() <= max,
        after_push(records, r, max)[0] == r || max == 0,
{
    if records.len() + 1 > max {
        assert(max == records.len());
    }
}

/// Importing records never lets the history grow past its limit.
pub proof fn law_import_bounded(records: Seq<UsageRecord>, max: nat)
    ensures
        bounded(records, max).len() <= max,
{
}

/// The recently used ids are distinct, and there are at most as many as asked
/// for (one when zero is asked for).
pub proof fn law_recent_ids_distinct(records: Seq<UsageRecord>, kind: Seq<char>, count: nat)
    ensures
        recent_ids(records, kind, count).no_duplicates(),
        recent_ids(records, kind, count).len() <= (if count == 0 {
            1
        } else {
            count
        }),
{
    let d = dedup(ids_of_kind(records, kind));
    lemma_dedup_no_duplicates(ids_of_kind(records, kind));
    let n: nat = if count == 0 {
        1
    } else {
        count
    };
    if d.len() >= n {
        assert forall|i: int, j: int| 0 <= i < j < d.take(n as int).len() implies d.take(n as int)[i] != d.take(
            n as int,
        )[j] by {
            assert(d.take(n as int)[i] == d[i]);
            assert(d.take(n as int)[j] == d[j]);
        }
    }
}

// ---------------------------------------------------------------------------
// Compression
// ---------------------------------------------------------------------------
/// No variable is reported both removed and added.
pub proof fn law_removed_and_added_disjoint(
    removed: Seq<Seq<char>>,
    added: Seq<Seq<char>>,
    source: Seq<Seq<char>>,
    output: Seq<Seq<char>>,
    x: Seq<char>,
)
    requires
        sorted_difference(removed, source, output),
        sorted_difference(added, output, source),
    ensures
        !(removed.contains(x) && added.contains(x)),
{
}

proof fn lemma_scan_ends_at_brace(s: Seq<char>, i: int, depth: nat, in_str: bool, esc: bool)
    requires
        json_scan(s, i, depth, in_str, esc) is Some,
    ensures
        ({
            let e = json_scan(s, i, depth, in_str, esc)->0;
            &&& i < e <= s.len()
            &&& s[e - 1] == '}'
        }),
    decreases s.len() - i,
{
    if 0 <= i < s.len() {
        let c = s[i];
        if in_str {
            if esc {
                lemma_scan_ends_at_brace(s, i + 1, depth, true, false);
            } else if c == '\\' {
                lemma_scan_ends_at_brace(s, i + 1, depth, true, true);
            } else if c == '"' {
                lemma_scan_ends_at_brace(s, i + 1, depth, false, false);
            } else {
                lemma_scan_ends_at_brace(s, i + 1, depth, true, false);
            }
        } else if c == '"' {
            lemma_scan_ends_at_brace(s, i + 1, depth, true, esc);
        } else if c == '{' {
            lemma_scan_ends_at_brace(s, i + 1, depth + 1, false, esc);
        } else if c == '}' {
            let d: nat = if depth == 0 {
                0
            } else {
                (depth - 1) as nat
            };
            if d != 0 {
                lemma_scan_ends_at_brace(s, i + 1, d, false, esc);
            }
        } else {
            lemma_scan_ends_at_brace(s, i + 1, depth, false, esc);
        }
    }
}

/// The JSON object found in a reply begins with `{` and ends with `}`.
pub proof fn law_json_object_braced(input: Seq<char>)
    requires
        first_json_object(input) is Some,
    ensures
        ({
            let o = first_json_object(input)->0;
            &&& o.len() >= 1
            &&& o[0] == '{'
            &&& o.last() == '}'
        }),
{
    crate::text::lemma_find_char_from_bounds(input, '{', 0);
    let st = find_char_from(input, '{', 0);
    lemma_scan_ends_at_brace(input, st, 0, false, false);
}

// ---------------------------------------------------------------------------
// Search
// ---------------------------------------------------------------------------
proof fn lemma_find_none(s: Seq<char>, q: Seq<char>, i: int)
    requires
        0 <= i,
        q.len() > 0,
        !contains(s, q),
    ensures
        find_seq_from(s, q, i) is None,
    decreases s.len() + 1 - i,
{
    if i + q.len() <= s.len() {
        assert(!occurs_at(s, q, i));
        lemma_find_none(s, q, i + 1);
    }
}

/// Highlighting a query that does not occur leaves the text as it is.
pub proof fn law_highlight_without_match(text: Seq<char>, query: Seq<char>)
    requires
        !contains(text, query),
    ensures
        highlighted(text, query) == text,
{
    if query.len() > 0 {
        lemma_find_none(text, query, 0);
    }
}

// ---------------------------------------------------------------------------
// Renaming back
// ---------------------------------------------------------------------------
/// Splitting joined pieces that do not hold the separator gives the pieces back.
pub proof fn lemma_split_of_join(parts: Seq<Seq<char>>, sep: char)
    requires
        parts.len() >= 1,
        forall|i: int| 0 <= i < parts.len() ==> !(#[trigger] parts[i]).contains(sep),
    ensures
        crate::text::split_char(crate::text::join(parts, seq![sep]), sep) == parts,
    decreases parts.len(),
{
    let first = parts[0];
    if parts.len() == 1 {
        let s = crate::text::join(parts, seq![sep]);
        assert(s == first);
        crate::text::lemma_find_char_from_bounds(s, sep, 0);
        let i = find_char_from(s, sep, 0);
        if i < s.len() {
            assert(s[i] == sep);
            assert(s.contains(sep));
        }
        assert(crate::text::split_char(s, sep) =~= seq![s]);
    } else {
        let rest = parts.drop_first();
        assert(parts =~= seq![first] + rest);
        assert forall|i: int| 0 <= i < rest.len() implies !(#[trigger] rest[i]).contains(sep) by {
            assert(rest[i] == parts[i + 1]);
        }
        lemma_split_of_join(rest, sep);
        crate::text::lemma_join_prepend(first, rest, seq![sep]);
        let r = crate::text::join(rest, seq![sep]);
        let s = first + seq![sep] + r;
        assert(crate::text::join(parts, seq![sep]) == s);
        crate::text::lemma_find_char_from_bounds(s, sep, 0);
        let i = find_char_from(s, sep, 0);
        assert(s[first.len() as int] == sep);
        if i < first.len() {
            assert(s[i] == first[i]);
            assert(first.contains(sep));
        }
        assert(i == first.len());
        assert(s.take(i) =~= first);
        assert(s.skip(i + 1) =~= r);
        assert(crate::text::split_char(s, sep) == seq![s.take(i)] + crate::text::split_char(s.skip(i + 1), sep));
    }
}

/// Renaming a segment and then renaming it back restores a tag path that did
/// not hold the new segment, when neither segment holds `/`.
pub proof fn law_rename_segment_back(p: Seq<char>, a: Seq<char>, b: Seq<char>)
    requires
        !has_segment(p, b),
        !a.contains('/'),
        !b.contains('/'),
    ensures
        rename_segment(rename_segment(p, a, b), b, a) == p,
{
    let parts = crate::text::split_char(p, '/');
    crate::text::lemma_split_join(p, '/');
    let m1 = rename_pieces(parts, a, b);
    lemma_rename_pieces(parts, a, b);
    assert forall|i: int| 0 <= i < m1.len() implies !(#[trigger] m1[i]).contains('/') by {
        assert(m1[i] == (if parts[i] == a { b } else { parts[i] }));
    }
    lemma_split_of_join(m1, '/');
    let m2 = rename_pieces(m1, b, a);
    lemma_rename_pieces(m1, b, a);
    assert forall|i: int| 0 <= i < parts.len() implies #[trigger] m2[i] == parts[i] by {
        assert(m1[i] == (if parts[i] == a { b } else { parts[i] }));
        if parts[i] == b {
            assert(parts.contains(b));
        }
    }
    assert(m2 =~= parts);
}

/// The items a rename preview counts are exactly those the rename changes:
/// a tag path holds the old segment if and only if renaming it to a
/// different segment without `/` changes it.
pub proof fn law_rename_changes_exactly_matches(p: Seq<char>, a: Seq<char>, b: Seq<char>)
    requires
        a != b,
        !b.contains('/'),
    ensures
        has_segment(p, a) <==> rename_segment(p, a, b) != p,
{
    let parts = crate::text::split_char(p, '/');
    crate::text::lemma_split_join(p, '/');
    let m = rename_pieces(parts, a, b);
    lemma_rename_pieces(parts, a, b);
    if !has_segment(p, a) {
        assert forall|i: int| 0 <= i < parts.len() implies #[trigger] m[i] == parts[i] by {
            if parts[i] == a {
                assert(parts.contains(a));
            }
        }
        assert(m =~= parts);
    } else {
        let i = choose|i: int| 0 <= i < parts.len() && parts[i] == a;
        assert forall|j: int| 0 <= j < m.len() implies !(#[trigger] m[j]).contains('/') by {
            assert(m[j] == (if parts[j] == a { b } else { parts[j] }));
        }
        lemma_split_of_join(m, '/');
        if rename_segment(p, a, b) == p {
            assert(crate::text::split_char(p, '/') == m);
            assert(m[i] == b);
        }
    }
}

// ---------------------------------------------------------------------------
// Import
// ---------------------------------------------------------------------------
/// Each id an import gives out is the item's own id or the fresh id given
/// for it: the `k`-th one comes from the item at the index returned.
pub proof fn lemma_import_ids_from(used: Seq<Seq<char>>, ids: Seq<Seq<char>>, fresh: Seq<Seq<char>>, k: int) -> (j: int)
    requires
        0 <= k < ids.len(),
    ensures
        import_ids(used, ids, fresh).len() == ids.len(),
        0 <= j <= k,
        import_ids(used, ids, fresh)[k] == ids[j] || import_ids(used, ids, fresh)[k] == fresh[j],
    decreases ids.len(),
{
    lemma_import_ids_len(used, ids, fresh);
    let n = ids.len() - 1;
    let d = ids.drop_last();
    lemma_import_ids_len(used, d, fresh);
    if k < n {
        let j = lemma_import_ids_from(used, d, fresh, k);
        assert(d[j] == ids[j]);
        j
    } else {
        k
    }
}

/// Importing never gives two items the same id: when the stored ids are
/// distinct and the fresh ids are distinct and differ from every stored and
/// imported id, the stored ids followed by the ids the imported items keep
/// or get are all distinct.
pub proof fn law_import_ids_distinct(used: Seq<Seq<char>>, ids: Seq<Seq<char>>, fresh: Seq<Seq<char>>)
    requires
        fresh.len() == ids.len(),
        used.no_duplicates(),
        fresh.no_duplicates(),
        forall|i: int, j: int| 0 <= i < fresh.len() && 0 <= j < used.len() ==> fresh[i] != used[j],
        forall|i: int, j: int| 0 <= i < fresh.len() && 0 <= j < ids.len() ==> fresh[i] != ids[j],
    ensures
        (used + import_ids(used, ids, fresh)).no_duplicates(),
    decreases ids.len(),
{
    if ids.len() == 0 {
        assert(used + import_ids(used, ids, fresh) =~= used);
    } else {
        let n = ids.len() - 1;
        let d = ids.drop_last();
        let f = fresh.drop_last();
        law_import_ids_distinct(used, d, f);
        lemma_import_ids_len(used, d, f);
        lemma_import_ids_len(used, d, fresh);
        lemma_import_ids_same(used, d, fresh, f);
        let prev = import_ids(used, d, fresh);
        let x = if (used + prev).contains(ids[n]) { fresh[n] } else { ids[n] };
        assert(import_ids(used, ids, fresh) == prev.push(x));
        assert(used + prev.push(x) =~= (used + prev).push(x));
        if (used + prev).contains(ids[n]) {
            assert(!(used + prev).contains(fresh[n])) by {
                if (used + prev).contains(fresh[n]) {
                    let i = choose|i: int| 0 <= i < (used + prev).len() && (used + prev)[i] == fresh[n];
                    if i < used.len() {
                        assert(used[i] == fresh[n]);
                    } else {
                        let k = i - used.len();
                        let j = lemma_import_ids_from(used, d, f, k);
                        assert(d[j] == ids[j]);
                        assert(f[j] == fresh[j]);
                    }
                }
            }
        }
        assert forall|a: int, b: int| 0 <= a < b < (used + prev).push(x).len() implies (used + prev).push(x)[a] != (used + prev).push(x)[b] by {
            if b == (used + prev).len() {
                assert((used + prev).contains((used + prev)[a]));
            }
        }
    }
}

/// The ids an import gives out do not depend on the fresh ids beyond its items.
proof fn lemma_import_ids_same(used: Seq<Seq<char>>, ids: Seq<Seq<char>>, fresh: Seq<Seq<char>>, f: Seq<Seq<char>>)
    requires
        f.len() >= ids.len(),
        fresh.len() >= ids.len(),
        forall|i: int| 0 <= i < ids.len() ==> fresh[i] == f[i],
    ensures
        import_ids(used, ids, fresh) == import_ids(used, ids, f),
    decreases ids.len(),
{
    if ids.len() > 0 {
        lemma_import_ids_same(used, ids.drop_last(), fresh, f);
        assert(fresh[ids.len() - 1] == f[ids.len() - 1]);
    }
}

// ---------------------------------------------------------------------------
// Deleting a branch of tags
// ---------------------------------------------------------------------------
proof fn lemma_script_branch_split(scripts: Seq<Arc<Script>>, tag: &str)
    ensures
        select(arc_script_tags(scripts), |t: Seq<char>| is_descendant(t, tag@)).len() + select(
            scripts,
            |s: Arc<Script>| !is_descendant(s.tags@, tag@),
        ).len() == scripts.len(),
    decreases scripts.len(),
{
    if scripts.len() > 0 {
        let d = scripts.drop_last();
        lemma_script_branch_split(d, tag);
        assert(arc_script_tags(scripts).drop_last() =~= arc_script_tags(d));
        assert(arc_script_tags(scripts).last() == scripts.last().tags@);
    }
}

proof fn lemma_template_branch_split(templates: Seq<Arc<Template>>, tag: &str)
    ensures
        select(arc_template_tags(templates), |t: Seq<char>| is_descendant(t, tag@)).len() + select(
            templates,
            |t: Arc<Template>| !is_descendant(t.tags@, tag@),
        ).len() == templates.len(),
    decreases templates.len(),
{
    if templates.len() > 0 {
        let d = templates.drop_last();
        lemma_template_branch_split(d, tag);
        assert(arc_template_tags(templates).drop_last() =~= arc_template_tags(d));
        assert(arc_template_tags(templates).last() == templates.last().tags@);
    }
}

/// The delete preview counts exactly what a cascade delete removes: the
/// scripts (and templates) it counts are those that `cascade_delete_tag`
/// leaves out, and the delete happens (answers `true`) exactly when the
/// preview counts something; in particular it happens whenever some item's
/// tags are `tag` itself.
pub proof fn law_delete_preview_matches_cascade(
    scripts: Seq<Arc<Script>>,
    templates: Seq<Arc<Template>>,
    tag: &str,
)
    ensures
        select(arc_script_tags(scripts), |t: Seq<char>| is_descendant(t, tag@)).len() == scripts.len() - select(
            scripts,
            |s: Arc<Script>| !is_descendant(s.tags@, tag@),
        ).len(),
        select(arc_template_tags(templates), |t: Seq<char>| is_descendant(t, tag@)).len() == templates.len()
            - select(templates, |t: Arc<Template>| !is_descendant(t.tags@, tag@)).len(),
        some_under(arc_script_tags(scripts) + arc_template_tags(templates), tag@) <==> (select(
            arc_script_tags(scripts),
            |t: Seq<char>| is_descendant(t, tag@),
        ).len() + select(arc_template_tags(templates), |t: Seq<char>| is_descendant(t, tag@)).len() > 0),
        (arc_script_tags(scripts) + arc_template_tags(templates)).contains(tag@) ==> some_under(
            arc_script_tags(scripts) + arc_template_tags(templates),
            tag@,
        ),
{
    let all0 = arc_script_tags(scripts) + arc_template_tags(templates);
    if all0.contains(tag@) {
        let k = choose|k: int| 0 <= k < all0.len() && all0[k] == tag@;
        assert(is_descendant(all0[k], tag@));
    }
    lemma_script_branch_split(scripts, tag);
    lemma_template_branch_split(templates, tag);
    lemma_select_all(scripts, |s: Arc<Script>| !is_descendant(s.tags@, tag@));
    lemma_select_all(templates, |t: Arc<Template>| !is_descendant(t.tags@, tag@));
    let all = arc_script_tags(scripts) + arc_template_tags(templates);
    let ns = scripts.len();
    if some_under(all, tag@) {
        let i = choose|i: int| 0 <= i < all.len() && is_descendant(#[trigger] all[i], tag@);
        if i < ns {
            assert(all[i] == scripts[i].tags@);
            assert(!(!is_descendant(scripts[i].tags@, tag@)));
        } else {
            assert(all[i] == templates[i - ns].tags@);
            assert(!(!is_descendant(templates[i - ns].tags@, tag@)));
        }
    }
    if select(scripts, |s: Arc<Script>| !is_descendant(s.tags@, tag@)).len() < ns {
        let i = choose|i: int| 0 <= i < ns && !(!is_descendant(#[trigger] scripts[i].tags@, tag@));
        assert(all[i] == scripts[i].tags@);
        assert(is_descendant(all[i], tag@));
    }
    if select(templates, |t: Arc<Template>| !is_descendant(t.tags@, tag@)).len() < templates.len() {
        let i = choose|i: int| 0 <= i < templates.len() && !(!is_descendant(#[trigger] templates[i].tags@, tag@));
        assert(all[ns + i] == templates[i].tags@);
        assert(is_descendant(all[ns + i], tag@));
    }
}

// ---------------------------------------------------------------------------
// Cleaning tags keeps the allowed characters
// ---------------------------------------------------------------------------
/// The characters of `t` that a tag segment may hold, in order.
pub open spec fn segment_chars(t: Seq<char>) -> Seq<char>
    decreases t.len(),
{
    if t.len() == 0 {
        seq![]
    } else if segment_char(t.last()) {
        segment_chars(t.drop_last()).push(t.last())
    } else {
        segment_chars(t.drop_last())
    }
}

proof fn lemma_segment_chars_append(a: Seq<char>, b: Seq<char>)
    ensures
        segment_chars(a + b) == segment_chars(a) + segment_chars(b),
    decreases b.len(),
{
    if b.len() == 0 {
        assert(a + b =~= a);
        assert(segment_chars(a) + segment_chars(b) =~= segment_chars(a));
    } else {
        lemma_segment_chars_append(a, b.drop_last());
        assert((a + b).drop_last() =~= a + b.drop_last());
        assert((a + b).last() == b.last());
        if segment_char(b.last()) {
            assert(segment_chars(a) + segment_chars(b) =~= (segment_chars(a) + segment_chars(b.drop_last())).push(b.last()));
        }
    }
}

proof fn lemma_collapse_keeps_segment_chars(t: Seq<char>)
    ensures
        segment_chars(collapse_slashes(t)) == segment_chars(t),
    decreases t.len(),
{
    if t.len() > 0 {
        lemma_collapse_keeps_segment_chars(t.drop_last());
        let r = collapse_slashes(t.drop_last());
        let c = t.last();
        if segment_char(c) || (c == '/' && !(r.len() > 0 && r.last() == '/')) {
            assert(r.push(c).drop_last() =~= r);
        }
    }
}

proof fn lemma_strip_leading_keeps_segment_chars(s: Seq<char>)
    ensures
        segment_chars(strip_leading_slashes(s)) == segment_chars(s),
    decreases s.len(),
{
    if s.len() > 0 && s[0] == '/' {
        lemma_strip_leading_keeps_segment_chars(s.drop_first());
        assert(s =~= seq!['/'] + s.drop_first());
        lemma_segment_chars_append(seq!['/'], s.drop_first());
        assert(seq!['/'].drop_last() =~= Seq::<char>::empty());
        assert(seq!['/'].last() == '/');
        assert(!segment_char('/'));
        assert(segment_chars(Seq::<char>::empty()) =~= Seq::<char>::empty());
        assert(segment_chars(seq!['/']) =~= Seq::<char>::empty());
        assert(Seq::<char>::empty() + segment_chars(s.drop_first()) =~= segment_chars(s.drop_first()));
    }
}

proof fn lemma_strip_trailing_keeps_segment_chars(s: Seq<char>)
    ensures
        segment_chars(strip_trailing_slashes(s)) == segment_chars(s),
    decreases s.len(),
{
    if s.len() > 0 && s.last() == '/' {
        lemma_strip_trailing_keeps_segment_chars(s.drop_last());
    }
}

/// `sanitize_tag` keeps every character a tag segment may hold (letters and
/// digits, `_`, `-`), none lost and none reordered; it only drops the others
/// and adjusts the `/` between them.
pub proof fn law_sanitize_keeps_allowed_chars(tag: Seq<char>)
    ensures
        segment_chars(sanitized(tag)) == segment_chars(tag),
{
    lemma_collapse_keeps_segment_chars(tag);
    lemma_strip_leading_keeps_segment_chars(collapse_slashes(tag));
    lemma_strip_trailing_keeps_segment_chars(strip_leading_slashes(collapse_slashes(tag)));
}

// ---------------------------------------------------------------------------
// Importing into empty storage
// ---------------------------------------------------------------------------
proof fn lemma_import_ids_fresh_store(ids: Seq<Seq<char>>, fresh: Seq<Seq<char>>)
    requires
        ids.no_duplicates(),
    ensures
        import_ids(Seq::<Seq<char>>::empty(), ids, fresh) == ids,
    decreases ids.len(),
{
    if ids.len() > 0 {
        let d = ids.drop_last();
        assert forall|a: int, b: int| 0 <= a < b < d.len() implies d[a] != d[b] by {
            assert(d[a] == ids[a] && d[b] == ids[b]);
        }
        lemma_import_ids_fresh_store(d, fresh);
        let e = Seq::<Seq<char>>::empty();
        assert(e + d =~= d);
        assert(!d.contains(ids.last())) by {
            if d.contains(ids.last()) {
                let j = choose|j: int| 0 <= j < d.len() && d[j] == ids.last();
                assert(ids[j] == ids[ids.len() - 1]);
            }
        }
        assert(d.push(ids.last()) =~= ids);
    }
}

proof fn lemma_moves_to_themselves(ids: Seq<Seq<char>>, x: Seq<char>)
    ensures
        moved(id_moves(ids, ids), x) == x,
    decreases ids.len(),
{
    if ids.len() > 0 {
        lemma_moves_to_themselves(ids.drop_last(), x);
    }
}

/// Importing into empty storage keeps every imported script and template as
/// it is, in order: the same ids, the same script ids and the same fields,
/// when the imported scripts' ids are distinct and so are the templates'
/// (as in a file that export wrote).
pub proof fn law_import_into_empty_keeps_everything(
    is: Seq<Script>,
    it: Seq<Template>,
    fs: Seq<Seq<char>>,
    ft: Seq<Seq<char>>,
    rs: Seq<Script>,
    rt: Seq<Template>,
)
    requires
        script_ids_of(is).no_duplicates(),
        template_ids_of(it).no_duplicates(),
        fs.len() == is.len(),
        ft.len() == it.len(),
        merged(Seq::<Script>::empty(), Seq::<Template>::empty(), is, it, fs, ft, rs, rt),
    ensures
        rs.len() == is.len(),
        forall|i: int| 0 <= i < is.len() ==> same_script(#[trigger] rs[i], is[i]),
        rt.len() == it.len(),
        forall|i: int| 0 <= i < it.len() ==> same_template(#[trigger] rt[i], it[i]),
{
    let es = Seq::<Script>::empty();
    let et = Seq::<Template>::empty();
    assert(script_ids_of(es) =~= Seq::<Seq<char>>::empty());
    assert(template_ids_of(et) =~= Seq::<Seq<char>>::empty());
    lemma_import_ids_fresh_store(script_ids_of(is), fs);
    lemma_import_ids_fresh_store(template_ids_of(it), ft);
    let moves = id_moves(script_ids_of(is), script_ids_of(is));
    assert forall|i: int| 0 <= i < is.len() implies same_script(#[trigger] rs[i], is[i]) by {
        assert(rs[0 + i] == rs[i]);
        assert(script_ids_of(is)[i] == is[i].id@);
    }
    assert forall|i: int| 0 <= i < it.len() implies same_template(#[trigger] rt[i], it[i]) by {
        assert(rt[0 + i] == rt[i]);
        assert(template_ids_of(it)[i] == it[i].id@);
        let v = ids_view(it[i].script_ids@);
        let w = v.map_values(|x: Seq<char>| moved(moves, x));
        assert forall|k: int| 0 <= k < v.len() implies #[trigger] w[k] == v[k] by {
            lemma_moves_to_themselves(script_ids_of(is), v[k]);
        }
        assert(w =~= v);
    }
}

// ---------------------------------------------------------------------------
// Tag counts
// ---------------------------------------------------------------------------
proof fn lemma_non_empty_occurrences(a: Seq<Seq<char>>, t: Seq<char>)
    requires
        t.len() > 0,
    ensures
        occurrences(non_empty(a), t) == occurrences(a, t),
    decreases a.len(),
{
    if a.len() > 0 {
        lemma_non_empty_occurrences(a.drop_last(), t);
        let d = non_empty(a.drop_last());
        if a.last().len() > 0 {
            assert(d.push(a.last()).drop_last() =~= d);
        }
    }
}

/// The tag counts of the tree built from scripts and templates (what
/// `get_all_tags` lists) are exactly the non-empty tag paths of the items,
/// each with the number of items that carry it, at least one.
pub proof fn law_tag_counts_are_occurrences(scripts: Seq<Script>, templates: Seq<Template>, t: Seq<char>, c: nat)
    ensures
        ({
            let all = script_tags(scripts) + template_tags(templates);
            tag_counts(non_empty(all)).contains((t, c)) <==> (t.len() > 0 && all.contains(t) && c == occurrences(
                all,
                t,
            ))
        }),
        tag_counts(non_empty(script_tags(scripts) + template_tags(templates))).contains((t, c)) ==> c >= 1,
{
    let all = script_tags(scripts) + template_tags(templates);
    let h = non_empty(all);
    lemma_tag_counts_contains(h, t, c);
    lemma_non_empty_within(all, t);
    lemma_occurrences_contains(h, t);
    if t.len() > 0 {
        lemma_non_empty_occurrences(all, t);
        lemma_occurrences_contains(all, t);
    } else {
        if h.contains(t) {
            lemma_non_empty_items(all, t);
        }
    }
}

proof fn lemma_non_empty_items(a: Seq<Seq<char>>, x: Seq<char>)
    ensures
        non_empty(a).contains(x) ==> x.len() > 0,
    decreases a.len(),
{
    if a.len() > 0 {
        lemma_non_empty_items(a.drop_last(), x);
        if a.last().len() > 0 {
            crate::variable::lemma_push_contains(non_empty(a.drop_last()), a.last(), x);
        }
    }
}

// ---------------------------------------------------------------------------
// Order of tag suggestions
// ---------------------------------------------------------------------------
/// In a stable sort of the matching tags by suggestion order (the order
/// `get_tag_suggestions` lists its first `n` entries in), each entry is no
/// longer (in bytes) than the next, or as long and used at least as often;
/// and every entry past the first `n` comes no earlier than the `n`-th.
pub proof fn law_suggestions_ordered(fv: Seq<(Seq<char>, nat)>, p: Seq<int>, n: int)
    requires
        stably_sorted(suggestion_keys(fv), p),
        0 <= n <= fv.len(),
    ensures
        forall|a: int, b: int|
            0 <= a < b < n ==> {
                let x = #[trigger] fv[p[a]];
                let y = #[trigger] fv[p[b]];
                byte_len(x.0) < byte_len(y.0) || (byte_len(x.0) == byte_len(y.0) && x.1 >= y.1)
            },
        n > 0 ==> forall|j: int|
            n <= j < fv.len() ==> {
                let z = fv[p[n - 1]];
                let t = #[trigger] fv[p[j]];
                byte_len(t.0) > byte_len(z.0) || (byte_len(t.0) == byte_len(z.0) && t.1 <= z.1)
            },
{
    let ks = suggestion_keys(fv);
    assert forall|a: int, b: int| 0 <= a < b < n implies {
        let x = #[trigger] fv[p[a]];
        let y = #[trigger] fv[p[b]];
        byte_len(x.0) < byte_len(y.0) || (byte_len(x.0) == byte_len(y.0) && x.1 >= y.1)
    } by {
        assert(!key_lt(ks[p[b]], ks[p[a]]));
        assert(ks[p[a]] == (byte_len(fv[p[a]].0), u64::MAX - fv[p[a]].1, Seq::<char>::empty()));
        assert(ks[p[b]] == (byte_len(fv[p[b]].0), u64::MAX - fv[p[b]].1, Seq::<char>::empty()));
        lemma_text_lt_irreflexive(Seq::<char>::empty());
    }
    if n > 0 {
        assert forall|j: int| n <= j < fv.len() implies {
            let z = fv[p[n - 1]];
            let t = #[trigger] fv[p[j]];
            byte_len(t.0) > byte_len(z.0) || (byte_len(t.0) == byte_len(z.0) && t.1 <= z.1)
        } by {
            assert(!key_lt(ks[p[j]], ks[p[n - 1]]));
            assert(ks[p[n - 1]] == (byte_len(fv[p[n - 1]].0), u64::MAX - fv[p[n - 1]].1, Seq::<char>::empty()));
            assert(ks[p[j]] == (byte_len(fv[p[j]].0), u64::MAX - fv[p[j]].1, Seq::<char>::empty()));
            lemma_text_lt_irreflexive(Seq::<char>::empty());
        }
    }
}

// ---------------------------------------------------------------------------
// What the tag manager lists after a rebuild from items
// ---------------------------------------------------------------------------
/// `get_all_tags` after `build_tag_tree(scripts, templates)` (whose tags are
/// then `non_empty(all)`): every entry is a non-empty tag path of the items
/// with the number of items that carry it, at least one; every such path is
/// listed; each path once; and the counts never increase along the list. The
/// requirements are what `get_all_tags` ensures of its result `rv`.
pub proof fn law_get_all_tags_after_build(scripts: Seq<Script>, templates: Seq<Template>, rv: Seq<(Seq<char>, nat)>)
    requires
        ({
            let tc = tag_counts(non_empty(script_tags(scripts) + template_tags(templates)));
            &&& rv.len() == tc.len()
            &&& rv.no_duplicates()
            &&& forall|x: (Seq<char>, nat)| rv.contains(x) <==> tc.contains(x)
            &&& counts_descending(rv)
        }),
    ensures
        forall|t: Seq<char>, c: nat|
            #[trigger] rv.contains((t, c)) <==> (t.len() > 0 && (script_tags(scripts) + template_tags(templates)).contains(t)
                && c == occurrences(script_tags(scripts) + template_tags(templates), t)),
        forall|t: Seq<char>, c: nat| #[trigger] rv.contains((t, c)) ==> c >= 1,
        forall|i: int, j: int| 0 <= i < j < rv.len() ==> (#[trigger] rv[i]).0 != (#[trigger] rv[j]).0,
        forall|i: int, j: int| 0 <= i < j < rv.len() ==> (#[trigger] rv[i]).1 >= (#[trigger] rv[j]).1,
{
    let all = script_tags(scripts) + template_tags(templates);
    assert forall|t: Seq<char>, c: nat| #[trigger] rv.contains((t, c)) <==> (t.len() > 0 && all.contains(t) && c == occurrences(all, t)) by {
        law_tag_counts_are_occurrences(scripts, templates, t, c);
    }
    assert forall|t: Seq<char>, c: nat| #[trigger] rv.contains((t, c)) implies c >= 1 by {
        law_tag_counts_are_occurrences(scripts, templates, t, c);
    }
    assert forall|i: int, j: int| 0 <= i < j < rv.len() implies (#[trigger] rv[i]).0 != (#[trigger] rv[j]).0 by {
        if rv[i].0 == rv[j].0 {
            assert(rv.contains(rv[i]));
            assert(rv.contains(rv[j]));
            assert(rv.contains((rv[i].0, rv[i].1)));
            assert(rv.contains((rv[j].0, rv[j].1)));
            assert(rv[i].1 == rv[j].1);
            assert(rv[i] == rv[j]);
        }
    }
}

proof fn lemma_count_under_non_empty(a: Seq<Seq<char>>, q: Seq<Seq<char>>)
    requires
        q.len() > 0,
    ensures
        count_under(non_empty(a), q) == count_under(a, q),
    decreases a.len(),
{
    if a.len() > 0 {
        lemma_count_under_non_empty(a.drop_last(), q);
        let d = non_empty(a.drop_last());
        if a.last().len() > 0 {
            assert(d.push(a.last()).drop_last() =~= d);
        } else {
            assert(a.last() =~= Seq::<char>::empty());
            assert(find_char_from(a.last(), '/', 0) >= a.last().len());
            assert(split_char(a.last(), '/') == seq![a.last()]);
            let one = seq![a.last()];
            assert(one.drop_last() =~= Seq::<Seq<char>>::empty());
            assert(one.last().len() == 0);
            assert(non_empty(Seq::<Seq<char>>::empty()) =~= Seq::<Seq<char>>::empty());
            assert(non_empty(one) == non_empty(one.drop_last()));
            assert(non_empty(one) =~= Seq::<Seq<char>>::empty());
            assert(!is_prefix(q, tag_segments(a.last())));
        }
    }
}

/// `get_child_tags` after `build_tag_tree(scripts, templates)`: its entries
/// (see `child_entry`) are the same whether counted over the rebuilt tags or
/// over the items' own tag paths: for each segment `g` that some item's path
/// continues the parent path `p` with, the full path of `p` and `g`, and the
/// number of items whose segments begin with `p` and `g`. Below a non-empty
/// path the rebuilt count is the number of items under it.
pub proof fn law_get_child_tags_after_build(
    scripts: Seq<Script>,
    templates: Seq<Template>,
    p: Seq<Seq<char>>,
    x: (Seq<char>, nat),
)
    ensures
        child_entry(non_empty(script_tags(scripts) + template_tags(templates)), p, x) <==> child_entry(
            script_tags(scripts) + template_tags(templates),
            p,
            x,
        ),
        p.len() > 0 ==> count_under(non_empty(script_tags(scripts) + template_tags(templates)), p) == count_under(
            script_tags(scripts) + template_tags(templates),
            p,
        ),
{
    let all = script_tags(scripts) + template_tags(templates);
    let h = non_empty(all);
    if p.len() > 0 {
        lemma_count_under_non_empty(all, p);
    }
    if child_entry(h, p, x) {
        let g = choose|g: Seq<char>| #![trigger count_under(h, p.push(g))] count_under(h, p.push(g)) > 0 && x == (full_path_of(p.push(g)), count_under(h, p.push(g)));
        lemma_count_under_non_empty(all, p.push(g));
        assert(count_under(all, p.push(g)) > 0);
    }
    if child_entry(all, p, x) {
        let g = choose|g: Seq<char>| #![trigger count_under(all, p.push(g))] count_under(all, p.push(g)) > 0 && x == (full_path_of(p.push(g)), count_under(all, p.push(g)));
        lemma_count_under_non_empty(all, p.push(g));
        assert(count_under(h, p.push(g)) > 0);
    }
}

/// The keys of `s` are distinct.
pub open spec fn distinct_keys(s: Seq<(Seq<char>, nat)>) -> bool {
    forall|i: int, j: int| 0 <= i < j < s.len() ==> (#[trigger] s[i]).0 != (#[trigger] s[j]).0
}

proof fn lemma_select_distinct_keys(s: Seq<(Seq<char>, nat)>, keep: spec_fn((Seq<char>, nat)) -> bool)
    requires
        distinct_keys(s),
    ensures
        distinct_keys(select(s, keep)),
    decreases s.len(),
{
    if s.len() > 0 {
        let d = s.drop_last();
        assert(distinct_keys(d)) by {
            assert forall|i: int, j: int| 0 <= i < j < d.len() implies (#[trigger] d[i]).0 != (#[trigger] d[j]).0 by {
                assert(d[i] == s[i] && d[j] == s[j]);
            }
        }
        lemma_select_distinct_keys(d, keep);
        let sd = select(d, keep);
        if keep(s.last()) {
            let r = sd.push(s.last());
            assert forall|i: int, j: int| 0 <= i < j < r.len() implies (#[trigger] r[i]).0 != (#[trigger] r[j]).0 by {
                if j == sd.len() {
                    assert(sd.contains(sd[i]));
                    lemma_select_keeps(d, keep, sd[i]);
                    let k = choose|k: int| 0 <= k < d.len() && d[k] == sd[i];
                    assert(s[k] == d[k]);
                } else {
                    assert(r[i] == sd[i] && r[j] == sd[j]);
                }
            }
        }
    }
}

/// `get_tag_suggestions` lists `min(10, M)` tags, where `M` is the number of
/// known tags that begin with the partial tag, each at most once: `r` is its
/// result, the tags of the first entries of a stable sort `p` of those tags
/// by suggestion order (see `law_suggestions_ordered` for the order and
/// `law_suggestions_are_prefixed` for where they come from).
pub proof fn law_suggestions_distinct(h: Seq<Seq<char>>, partial: Seq<char>, p: Seq<int>, r: Seq<Seq<char>>)
    requires
        stably_sorted(suggestion_keys(prefixed(tag_counts(h), partial)), p),
        r == permuted(prefixed(tag_counts(h), partial), p).map_values(|e: (Seq<char>, nat)| e.0).take(
            if prefixed(tag_counts(h), partial).len() < 10 {
                prefixed(tag_counts(h), partial).len() as int
            } else {
                10
            },
        ),
    ensures
        r.len() == (if prefixed(tag_counts(h), partial).len() < 10 {
            prefixed(tag_counts(h), partial).len() as int
        } else {
            10
        }),
        r.no_duplicates(),
{
    let tc = tag_counts(h);
    let fv = prefixed(tc, partial);
    lemma_dedup_no_duplicates(h);
    assert(distinct_keys(tc)) by {
        assert forall|i: int, j: int| 0 <= i < j < tc.len() implies (#[trigger] tc[i]).0 != (#[trigger] tc[j]).0 by {
            assert(tc[i].0 == dedup(h)[i] && tc[j].0 == dedup(h)[j]);
        }
    }
    lemma_select_distinct_keys(tc, |e: (Seq<char>, nat)| starts_with(e.0, partial));
    assert(suggestion_keys(fv).len() == fv.len());
    assert forall|i: int, j: int| 0 <= i < j < r.len() implies r[i] != r[j] by {
        assert(r[i] == fv[p[i]].0 && r[j] == fv[p[j]].0);
        assert(p[i] != p[j]);
        if p[i] < p[j] {
            assert(fv[p[i]].0 != fv[p[j]].0);
        } else {
            assert(fv[p[j]].0 != fv[p[i]].0);
        }
    }
}

/// The characters of `t` other than `/`, in order.
pub open spec fn non_slash_chars(t: Seq<char>) -> Seq<char>
    decreases t.len(),
{
    if t.len() == 0 {
        seq![]
    } else if t.last() != '/' {
        non_slash_chars(t.drop_last()).push(t.last())
    } else {
        non_slash_chars(t.drop_last())
    }
}

proof fn lemma_non_slash_of_tag_chars(t: Seq<char>)
    requires
        forall|i: int| 0 <= i < t.len() ==> segment_char(#[trigger] t[i]) || t[i] == '/',
    ensures
        non_slash_chars(t) == segment_chars(t),
    decreases t.len(),
{
    if t.len() > 0 {
        let d = t.drop_last();
        assert forall|i: int| 0 <= i < d.len() implies segment_char(#[trigger] d[i]) || d[i] == '/' by {
            assert(d[i] == t[i]);
        }
        lemma_non_slash_of_tag_chars(d);
        assert(segment_char(t[t.len() - 1]) || t[t.len() - 1] == '/');
    }
}

/// `sanitize_tag(tag)` is a tag that `validate_tag` accepts, cleaning it
/// again leaves it as it is, and its characters other than `/` are exactly
/// the characters of `tag` that a tag segment may hold (letters and digits,
/// `_`, `-`), none lost and none reordered.
pub proof fn law_sanitize_tag(tag: Seq<char>)
    ensures
        valid_tag(sanitized(tag)),
        sanitized(sanitized(tag)) == sanitized(tag),
        non_slash_chars(sanitized(tag)) == segment_chars(tag),
{
    let r = sanitized(tag);
    lemma_sanitized_is_valid(tag);
    lemma_sanitize_valid_is_identity(r);
    law_sanitize_keeps_allowed_chars(tag);
    if r.len() > 0 {
        assert forall|i: int| 0 <= i < r.len() implies segment_char(#[trigger] r[i]) || r[i] == '/' by {}
        lemma_non_slash_of_tag_chars(r);
    }
}

// ---------------------------------------------------------------------------
// Fuzzy matching
// ---------------------------------------------------------------------------
/// A text whose lower-cased form contains the lower-cased pattern matches it.
pub proof fn law_fuzzy_contained_matches(text: Seq<char>, pattern: Seq<char>)
    requires
        contains(lowercase(text), lowercase(pattern)),
    ensures
        fuzzy(text, pattern),
{
}

/// When the lower-cased pattern is not contained in the lower-cased text and
/// splits into several words, the text matches exactly when every one of
/// those words, the first included, occurs in the lower-cased text.
pub proof fn law_fuzzy_multiword_needs_every_word(text: Seq<char>, pattern: Seq<char>)
    requires
        !contains(lowercase(text), lowercase(pattern)),
        words(lowercase(pattern)).len() > 1,
    ensures
        fuzzy(text, pattern) <==> forall|i: int|
            0 <= i < words(lowercase(pattern)).len() ==> contains(lowercase(text), #[trigger] words(lowercase(pattern))[i]),
        fuzzy(text, pattern) ==> contains(lowercase(text), words(lowercase(pattern))[0]),
{
}

/// When the lower-cased pattern is not contained in the lower-cased text and
/// has at most one word, the text matches exactly when some word of the
/// lower-cased text begins with the lower-cased pattern.
pub proof fn law_fuzzy_single_word_is_word_prefix(text: Seq<char>, pattern: Seq<char>)
    requires
        !contains(lowercase(text), lowercase(pattern)),
        words(lowercase(pattern)).len() <= 1,
    ensures
        fuzzy(text, pattern) <==> exists|i: int|
            0 <= i < words(lowercase(text)).len() && {
                let w = #[trigger] words(lowercase(text))[i];
                let p = lowercase(pattern);
                p.len() <= w.len() && w.take(p.len() as int) == p
            },
{
}

// ---------------------------------------------------------------------------
// Tags of a compressed script
// ---------------------------------------------------------------------------
/// When the model's answer has non-blank tags, the preview's tags are those
/// answer tags, trimmed, whatever the suggested and the template's tags are;
/// only blank answer tags fall back to the suggested tags (when not blank),
/// else the template's.
pub proof fn law_preview_tags_prefer_answer(
    answer_tags: Seq<char>,
    options: CompressionRequestOptions,
    template_tags: Seq<char>,
)
    ensures
        trim(answer_tags).len() > 0 ==> preview_tags(answer_tags, options, template_tags) == trim(answer_tags),
        trim(answer_tags).len() == 0 && options.suggested_tags is Some && trim(options.suggested_tags->0@).len() > 0
            ==> preview_tags(answer_tags, options, template_tags) == options.suggested_tags->0@,
        trim(answer_tags).len() == 0 && (options.suggested_tags is None || trim(options.suggested_tags->0@).len() == 0)
            ==> preview_tags(answer_tags, options, template_tags) == template_tags,
{
}

// ---------------------------------------------------------------------------
// Names
// ---------------------------------------------------------------------------
/// A name is refused as blank when it trims to nothing; otherwise a name that
/// holds any of `<`, `>`, `&`, `"` or `\` is refused for an illegal character;
/// otherwise it is refused when longer than 100 bytes, and accepted if not.
pub proof fn law_name_check(name: Seq<char>)
    ensures
        trim(name).len() == 0 ==> name_problem(name) == Some("名称不能为空"@),
        trim(name).len() > 0 && (name.contains('<') || name.contains('>') || name.contains('&') || name.contains('"')
            || name.contains('\\')) ==> name_problem(name) == Some("名称包含非法字符"@),
        trim(name).len() > 0 && !(name.contains('<') || name.contains('>') || name.contains('&') || name.contains('"')
            || name.contains('\\')) ==> name_problem(name) == (if byte_len(name) > 100 {
            Some("名称长度不能超过100个字符"@)
        } else {
            None
        }),
{
    if name.contains('<') || name.contains('>') || name.contains('&') || name.contains('"') || name.contains('\\') {
        let i = choose|i: int| 0 <= i < name.len() && (name[i] == '<' || name[i] == '>' || name[i] == '&' || name[i] == '"' || name[i] == '\\');
        assert(forbidden_name_char(name[i]));
    } else {
        assert forall|i: int| 0 <= i < name.len() implies !forbidden_name_char(#[trigger] name[i]) by {
            assert(name[i] != '<' && name[i] != '>' && name[i] != '&' && name[i] != '"' && name[i] != '\\') by {
                if name[i] == '<' { assert(name.contains('<')); }
                if name[i] == '>' { assert(name.contains('>')); }
                if name[i] == '&' { assert(name.contains('&')); }
                if name[i] == '"' { assert(name.contains('"')); }
                if name[i] == '\\' { assert(name.contains('\\')); }
            }
        }
    }
}

// ---------------------------------------------------------------------------
// Removing a script id
// ---------------------------------------------------------------------------
/// Removing an id from a list of ids keeps every other id, in order: the
/// result is the list filtered to the ids different from it, so it never
/// holds the id, keeps every other element that was there, and is as long as
/// the list without that id's occurrences.
pub proof fn law_without_keeps_other_ids(s: Seq<Seq<char>>, x: Seq<char>)
    ensures
        without(s, x) == s.filter(|y: Seq<char>| y != x),
        !without(s, x).contains(x),
        forall|y: Seq<char>| y != x && s.contains(y) ==> #[trigger] without(s, x).contains(y),
    decreases s.len(),
{
    reveal(Seq::filter);
    broadcast use vstd::seq_lib::group_filter_ensures;
    if s.len() > 0 {
        law_without_keeps_other_ids(s.drop_last(), x);
    }
    let f = s.filter(|y: Seq<char>| y != x);
    assert forall|y: Seq<char>| y != x && s.contains(y) implies #[trigger] without(s, x).contains(y) by {
        let i = choose|i: int| 0 <= i < s.len() && s[i] == y;
        assert(f.contains(s[i]));
    }
}

// ---------------------------------------------------------------------------
// Tag filters
// ---------------------------------------------------------------------------
/// A non-empty tag filter matches a tag path exactly when the path equals the
/// filter or continues it after a `/`; in particular a proper ancestor of the
/// filter does not match it. The empty filter matches every path.
pub proof fn law_tag_filter_matches_path_and_below(tags: Seq<char>, filter: Seq<char>)
    ensures
        filter.len() == 0 ==> tag_matches(tags, filter),
        filter.len() > 0 ==> (tag_matches(tags, filter) <==> (tags == filter || (tags.len() > filter.len() && tags.take(
            filter.len() as int,
        ) == filter && tags[filter.len() as int] == '/'))),
        filter.len() > 0 && tags.len() < filter.len() ==> !tag_matches(tags, filter),
{
    if filter.len() > 0 {
        let fs = filter + seq!['/'];
        let n = filter.len() as int;
        if tags.len() > n && tags.take(n) == filter && tags[n] == '/' {
            assert forall|i: int| 0 <= i < n + 1 implies tags.subrange(0, n + 1)[i] == fs[i] by {
                if i < n {
                    assert(tags.take(n)[i] == tags[i]);
                }
            }
            assert(tags.subrange(0, n + 1) =~= fs);
        }
        if starts_with(tags, fs) {
            let sub = tags.subrange(0, n + 1);
            assert(sub == fs);
            assert(sub[n] == fs[n]);
            assert(tags[n] == '/');
            assert forall|i: int| 0 <= i < n implies tags.take(n)[i] == filter[i] by {
                assert(sub[i] == fs[i]);
            }
            assert(tags.take(n) =~= filter);
        }
    }
}

// ---------------------------------------------------------------------------
// Order of search results
// ---------------------------------------------------------------------------
/// Scripts listed in a stable sort `p` by search order come more used first;
/// among equally used ones, by name in increasing order; equal use and name
/// keep their order in the input.
pub proof fn law_script_search_order(found: Seq<Script>, p: Seq<int>)
    requires
        stably_sorted(script_search_keys(found), p),
    ensures
        forall|a: int, b: int|
            0 <= a < b < p.len() ==> {
                let x = #[trigger] found[p[a]];
                let y = #[trigger] found[p[b]];
                &&& x.use_count >= y.use_count
                &&& x.use_count == y.use_count ==> !text_lt(y.name@, x.name@)
                &&& (x.use_count == y.use_count && x.name@ == y.name@) ==> p[a] < p[b]
            },
{
    let ks = script_search_keys(found);
    assert forall|a: int, b: int| 0 <= a < b < p.len() implies {
        let x = #[trigger] found[p[a]];
        let y = #[trigger] found[p[b]];
        &&& x.use_count >= y.use_count
        &&& x.use_count == y.use_count ==> !text_lt(y.name@, x.name@)
        &&& (x.use_count == y.use_count && x.name@ == y.name@) ==> p[a] < p[b]
    } by {
        assert(!key_lt(ks[p[b]], ks[p[a]]));
        assert(ks[p[a]] == ((u32::MAX - found[p[a]].use_count) as int, 0int, found[p[a]].name@));
        assert(ks[p[b]] == ((u32::MAX - found[p[b]].use_count) as int, 0int, found[p[b]].name@));
        lemma_text_lt_irreflexive(found[p[a]].name@);
        if found[p[a]].use_count == found[p[b]].use_count && found[p[a]].name@ == found[p[b]].name@ {
            assert(!key_lt(ks[p[a]], ks[p[b]]));
        }
    }
}

/// Templates listed in a stable sort `p` by search order come more used
/// first; among equally used ones, by name in increasing order; equal use and
/// name keep their order in the input.
pub proof fn law_template_search_order(found: Seq<Template>, p: Seq<int>)
    requires
        stably_sorted(template_search_keys(found), p),
    ensures
        forall|a: int, b: int|
            0 <= a < b < p.len() ==> {
                let x = #[trigger] found[p[a]];
                let y = #[trigger] found[p[b]];
                &&& x.use_count >= y.use_count
                &&& x.use_count == y.use_count ==> !text_lt(y.name@, x.name@)
                &&& (x.use_count == y.use_count && x.name@ == y.name@) ==> p[a] < p[b]
            },
{
    let ks = template_search_keys(found);
    assert forall|a: int, b: int| 0 <= a < b < p.len() implies {
        let x = #[trigger] found[p[a]];
        let y = #[trigger] found[p[b]];
        &&& x.use_count >= y.use_count
        &&& x.use_count == y.use_count ==> !text_lt(y.name@, x.name@)
        &&& (x.use_count == y.use_count && x.name@ == y.name@) ==> p[a] < p[b]
    } by {
        assert(!key_lt(ks[p[b]], ks[p[a]]));
        assert(ks[p[a]] == ((u32::MAX - found[p[a]].use_count) as int, 0int, found[p[a]].name@));
        assert(ks[p[b]] == ((u32::MAX - found[p[b]].use_count) as int, 0int, found[p[b]].name@));
        lemma_text_lt_irreflexive(found[p[a]].name@);
        if found[p[a]].use_count == found[p[b]].use_count && found[p[a]].name@ == found[p[b]].name@ {
            assert(!key_lt(ks[p[a]], ks[p[b]]));
        }
    }
}

// ---------------------------------------------------------------------------
// Placeholders left open
// ---------------------------------------------------------------------------
proof fn lemma_open_state_opened_at_pair(s: Seq<char>, n: int)
    requires
        0 <= n <= s.len(),
    ensures
        open_state(s, n).0 ==> 0 <= open_state(s, n).1 < n && s[open_state(s, n).1] == '{' && s[open_state(s, n).1 + 1]
            == '{' && open_state(s, n).1 + 1 < s.len(),
        open_state(s, n).0 ==> forall|k: int|
            open_state(s, n).1 < k < n ==> !(s[k] == '}' && k + 1 < s.len() && #[trigger] s[k + 1] == '}'),
    decreases n,
{
    if n > 0 {
        lemma_open_state_opened_at_pair(s, n - 1);
    }
}

/// What `check_unclosed_variables` reports: nothing, or the rest of the
/// content from a `{{` after which no `}}` follows; nothing at all when the
/// content holds no `{{`.
pub proof fn law_unclosed_is_rest_from_open_pair(s: Seq<char>)
    ensures
        unclosed(s).len() <= 1,
        unclosed(s).len() == 1 ==> exists|k: int|
            0 <= k && k + 1 < s.len() && s[k] == '{' && s[k + 1] == '{' && #[trigger] s.subrange(k, s.len() as int)
                == unclosed(s)[0] && forall|j: int| k < j < s.len() ==> !(s[j] == '}' && j + 1 < s.len() && #[trigger] s[j
                + 1] == '}'),
        !contains(s, seq!['{', '{']) ==> unclosed(s).len() == 0,
{
    let n = s.len() as int;
    lemma_open_state_opened_at_pair(s, n);
    let st = open_state(s, n);
    if st.0 {
        let k = st.1;
        assert(s.subrange(k, n) == unclosed(s)[0]);
        assert(occurs_at(s, seq!['{', '{'], k)) by {
            assert(s.subrange(k, k + 2) =~= seq!['{', '{']);
        }
    }
}

// ---------------------------------------------------------------------------
// Filling a placeholder
// ---------------------------------------------------------------------------
/// A placeholder is filled with the value given for its name when there is
/// one, whatever its default; otherwise with its default when it has one,
/// whatever the fallback; only a placeholder with neither takes the fallback.
pub proof fn law_replacement_prefers_value_then_default(
    t: Seq<char>,
    sp: Span,
    values: Map<Seq<char>, Seq<char>>,
    fallback: Seq<char>,
)
    ensures
        values.contains_key(span_name(t, sp)) ==> replacement(t, sp, values, fallback) == values[span_name(t, sp)],
        !values.contains_key(span_name(t, sp)) && sp.has_default ==> replacement(t, sp, values, fallback) == trim(
            t.subrange(sp.name_end + 1, sp.default_end),
        ),
        !values.contains_key(span_name(t, sp)) && !sp.has_default ==> replacement(t, sp, values, fallback)
            == fallback,
{
}

} // verus!
