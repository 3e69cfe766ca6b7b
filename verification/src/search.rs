//! Searching scripts and templates: a loose, case-insensitive text match,
//! tag filters, ordering by use, and highlighting a query in text.
use vstd::prelude::*;
use crate::data::{tag_matches, Script, Template};
use crate::sort::{key_view, permuted, stable_order, stably_sorted, KeyView, SortKey};
use crate::tags::{is_descendant, select, TagManager};
use crate::text::{
    chars_of, contains, contains_exec, find_seq_exec, find_seq_from, lowercase, push_char, push_range,
    starts_with, starts_with_exec, to_lowercase, words, words_exec,
};

verus! {

/// The values behind a sequence of references.
pub open spec fn derefs<A>(s: Seq<&A>) -> Seq<A> {
    s.map_values(|x: &A| *x)
}

/// The loose match: the lower-cased `pattern` occurs in the lower-cased
/// `text`; or, when the pattern has several words, each of them occurs in it;
/// or, when it has at most one, some word of the text begins with the pattern.
pub open spec fn fuzzy(text: Seq<char>, pattern: Seq<char>) -> bool {
    let t = lowercase(text);
    let p = lowercase(pattern);
    contains(t, p) || if words(p).len() > 1 {
        forall|i: int| 0 <= i < words(p).len() ==> contains(t, #[trigger] words(p)[i])
    } else {
        exists|i: int| 0 <= i < words(t).len() && starts_with(#[trigger] words(t)[i], p)
    }
}

/// Whether `text` loosely matches `pattern` (see `fuzzy`).
pub fn fuzzy_match(text: &str, pattern: &str) -> (r: bool)
    ensures
        r == fuzzy(text@, pattern@),
{
    let tl = to_lowercase(text);
    let pl = to_lowercase(pattern);
    let t = chars_of(tl.as_str());
    let p = chars_of(pl.as_str());
    if contains_exec(&t, &p) {
        return true;
    }
    let pw = words_exec(&p);
    assert(crate::text::views(pw@).len() == pw@.len());
    if pw.len() > 1 {
        let mut i: usize = 0;
        while i < pw.len()
            invariant
                i <= pw@.len(),
                crate::text::views(pw@) == words(p@),
                t@ == lowercase(text@),
                p@ == lowercase(pattern@),
                !contains(t@, p@),
                words(p@).len() > 1,
                forall|j: int| 0 <= j < i ==> contains(t@, #[trigger] words(p@)[j]),
            decreases pw@.len() - i,
        {
            let w = chars_of(pw[i].as_str());
            assert(w@ == words(p@)[i as int]);
            if !contains_exec(&t, &w) {
                assert(!contains(t@, words(p@)[i as int]));
                return false;
            }
            i = i + 1;
        }
        return true;
    }
    let tw = words_exec(&t);
    assert(crate::text::views(tw@).len() == tw@.len());
    let mut i: usize = 0;
    while i < tw.len()
        invariant
            i <= tw@.len(),
            crate::text::views(tw@) == words(t@),
            t@ == lowercase(text@),
            p@ == lowercase(pattern@),
            !contains(t@, p@),
            words(p@).len() <= 1,
            forall|j: int| 0 <= j < i ==> !starts_with(#[trigger] words(t@)[j], p@),
        decreases tw@.len() - i,
    {
        let w = chars_of(tw[i].as_str());
        assert(w@ == words(t@)[i as int]);
        if starts_with_exec(&w, &p) {
            assert(starts_with(words(t@)[i as int], p@));
            return true;
        }
        i = i + 1;
    }
    false
}

/// A script passes the filter and the query.
pub open spec fn script_found(s: Script, query: Seq<char>, tag_filter: Option<Seq<char>>) -> bool {
    &&& (tag_filter is Some ==> tag_matches(s.tags@, tag_filter->0))
    &&& (query.len() == 0 || fuzzy(s.name@, query) || fuzzy(s.tags@, query) || fuzzy(s.content@, query))
}

/// A template's tags pass a filter: they begin with it.
pub open spec fn template_tags_pass(tags: Seq<char>, filter: Seq<char>) -> bool {
    starts_with(tags, filter) || tags == filter
}

/// Some name or value of the pairs loosely matches `query`.
pub open spec fn some_pair_fuzzy(pairs: Seq<(Seq<char>, Seq<char>)>, query: Seq<char>) -> bool {
    exists|i: int| #![trigger pairs[i]] 0 <= i < pairs.len() && (fuzzy(pairs[i].0, query) || fuzzy(pairs[i].1, query))
}

/// A template passes the filter and the query.
pub open spec fn template_found(t: Template, query: Seq<char>, tag_filter: Option<Seq<char>>) -> bool {
    &&& (tag_filter is Some ==> template_tags_pass(t.tags@, tag_filter->0))
    &&& (query.len() == 0 || fuzzy(t.name@, query) || fuzzy(t.tags@, query) || some_pair_fuzzy(
        t.variable_values.entries_view(),
        query,
    ))
}

/// The view of an optional filter.
pub open spec fn filter_view(f: Option<&str>) -> Option<Seq<char>> {
    match f {
        Some(s) => Some(s@),
        None => None,
    }
}

/// Search order: more used first, then by name.
pub open spec fn script_search_keys(s: Seq<Script>) -> Seq<KeyView> {
    s.map_values(|x: Script| ((u32::MAX - x.use_count) as int, 0int, x.name@))
}

/// Search order: more used first, then by name.
pub open spec fn template_search_keys(s: Seq<Template>) -> Seq<KeyView> {
    s.map_values(|x: Template| ((u32::MAX - x.use_count) as int, 0int, x.name@))
}

/// The scripts that pass `tag_filter` and loosely match `query`, more used
/// first and then by name (equal ones in their order); all scripts, in their
/// order, when there is neither a query nor a filter.
pub fn fuzzy_search_scripts<'a>(scripts: &'a [Script], query: &str, tag_filter: Option<&str>) -> (r: Vec<
    &'a Script,
>)
    ensures
        query@.len() == 0 && tag_filter is None ==> derefs(r@) == scripts@,
        !(query@.len() == 0 && tag_filter is None) ==> ({
            let found = select(scripts@, |s: Script| script_found(s, query@, filter_view(tag_filter)));
            exists|p: Seq<int>| stably_sorted(script_search_keys(found), p) && derefs(r@) == permuted(found, p)
        }),
{
    if query.is_empty() && tag_filter.is_none() {
        let mut all: Vec<&'a Script> = Vec::new();
        let mut i: usize = 0;
        while i < scripts.len()
            invariant
                i <= scripts@.len(),
                derefs(all@) == scripts@.take(i as int),
            decreases scripts@.len() - i,
        {
            let ghost prev = all@;
            all.push(&scripts[i]);
            assert(derefs(all@) =~= derefs(prev).push(scripts@[i as int]));
            assert(derefs(all@) =~= scripts@.take(i + 1));
            i = i + 1;
        }
        assert(scripts@.take(i as int) =~= scripts@);
        return all;
    }
    let ghost keep = |s: Script| script_found(s, query@, filter_view(tag_filter));
    let mut found: Vec<&'a Script> = Vec::new();
    let mut i: usize = 0;
    while i < scripts.len()
        invariant
            i <= scripts@.len(),
            keep == (|s: Script| script_found(s, query@, filter_view(tag_filter))),
            derefs(found@) == select(scripts@.take(i as int), keep),
        decreases scripts@.len() - i,
    {
        proof {
            assert(scripts@.take(i + 1).drop_last() =~= scripts@.take(i as int));
            assert(scripts@.take(i + 1).last() == scripts@[i as int]);
        }
        let s = &scripts[i];
        let pass_filter = match tag_filter {
            Some(f) => s.matches_tags(f),
            None => true,
        };
        let hit = pass_filter && (query.is_empty() || fuzzy_match(s.name.as_str(), query) || fuzzy_match(
            s.tags.as_str(),
            query,
        ) || fuzzy_match(s.content.as_str(), query));
        if hit {
            found.push(s);
        }
        i = i + 1;
    }
    assert(scripts@.take(i as int) =~= scripts@);
    let mut keys: Vec<SortKey> = Vec::new();
    let mut k: usize = 0;
    while k < found.len()
        invariant
            k <= found@.len(),
            keys@.map_values(|x: SortKey| key_view(x)) == script_search_keys(derefs(found@)).take(k as int),
        decreases found@.len() - k,
    {
        let ghost prev = keys@;
        let key = SortKey {
            major: (u32::MAX - found[k].use_count) as u64,
            minor: 0,
            text: chars_of(found[k].name.as_str()),
        };
        keys.push(key);
        assert(keys@.map_values(|x: SortKey| key_view(x)) =~= prev.map_values(|x: SortKey| key_view(x)).push(key_view(key)));
        assert(script_search_keys(derefs(found@)).take(k + 1) =~= script_search_keys(derefs(found@)).take(k as int).push(
            script_search_keys(derefs(found@))[k as int],
        ));
        k = k + 1;
    }
    assert(script_search_keys(derefs(found@)).take(k as int) =~= script_search_keys(derefs(found@)));
    let order = stable_order(&keys);
    let ghost pv = order@.map_values(|i: usize| i as int);
    let mut r: Vec<&'a Script> = Vec::new();
    let mut j: usize = 0;
    while j < order.len()
        invariant
            j <= order@.len(),
            order@.len() == found@.len(),
            pv == order@.map_values(|i: usize| i as int),
            stably_sorted(script_search_keys(derefs(found@)), pv),
            derefs(r@) == permuted(derefs(found@), pv.take(j as int)),
        decreases order@.len() - j,
    {
        let idx = order[j];
        assert(pv[j as int] == idx as int);
        r.push(found[idx]);
        assert(derefs(r@) =~= permuted(derefs(found@), pv.take(j as int)).push(*found@[idx as int]));
        assert(permuted(derefs(found@), pv.take(j + 1)) =~= permuted(derefs(found@), pv.take(j as int)).push(derefs(found@)[idx as int]));
        j = j + 1;
    }
    assert(pv.take(j as int) =~= pv);
    r
}

/// Whether some name or value of a template's variables loosely matches `query`.
fn some_pair_matches(t: &Template, query: &str) -> (r: bool)
    ensures
        r == some_pair_fuzzy(t.variable_values.entries_view(), query@),
{
    let n = t.variable_values.len();
    let mut i: usize = 0;
    while i < n
        invariant
            n == t.variable_values.entries_view().len(),
            i <= n,
            forall|j: int|
                #![trigger t.variable_values.entries_view()[j]]
                0 <= j < i ==> !(fuzzy(t.variable_values.entries_view()[j].0, query@) || fuzzy(
                    t.variable_values.entries_view()[j].1,
                    query@,
                )),
        decreases n - i,
    {
        let k = t.variable_values.key_at(i);
        let v = t.variable_values.value_at(i);
        let hk = fuzzy_match(k.as_str(), query);
        let hv = fuzzy_match(v.as_str(), query);
        if hk || hv {
            assert(fuzzy(t.variable_values.entries_view()[i as int].0, query@) || fuzzy(
                t.variable_values.entries_view()[i as int].1,
                query@,
            ));
            return true;
        }
        assert(!fuzzy(t.variable_values.entries_view()[i as int].0, query@));
        assert(!fuzzy(t.variable_values.entries_view()[i as int].1, query@));
        i = i + 1;
    }
    false
}

/// The templates whose tags begin with `tag_filter` and that loosely match
/// `query` in their name, tags, or a variable name or value; more used first
/// and then by name (equal ones in their order); all templates, in their
/// order, when there is neither a query nor a filter.
pub fn fuzzy_search_templates<'a>(templates: &'a [Template], query: &str, tag_filter: Option<&str>) -> (r: Vec<
    &'a Template,
>)
    ensures
        query@.len() == 0 && tag_filter is None ==> derefs(r@) == templates@,
        !(query@.len() == 0 && tag_filter is None) ==> ({
            let found = select(templates@, |t: Template| template_found(t, query@, filter_view(tag_filter)));
            exists|p: Seq<int>| stably_sorted(template_search_keys(found), p) && derefs(r@) == permuted(found, p)
        }),
{
    if query.is_empty() && tag_filter.is_none() {
        let mut all: Vec<&'a Template> = Vec::new();
        let mut i: usize = 0;
        while i < templates.len()
            invariant
                i <= templates@.len(),
                derefs(all@) == templates@.take(i as int),
            decreases templates@.len() - i,
        {
            let ghost prev = all@;
            all.push(&templates[i]);
            assert(derefs(all@) =~= derefs(prev).push(templates@[i as int]));
            assert(derefs(all@) =~= templates@.take(i + 1));
            i = i + 1;
        }
        assert(templates@.take(i as int) =~= templates@);
        return all;
    }
    let ghost keep = |t: Template| template_found(t, query@, filter_view(tag_filter));
    let mut found: Vec<&'a Template> = Vec::new();
    let mut i: usize = 0;
    while i < templates.len()
        invariant
            i <= templates@.len(),
            keep == (|t: Template| template_found(t, query@, filter_view(tag_filter))),
            derefs(found@) == select(templates@.take(i as int), keep),
        decreases templates@.len() - i,
    {
        proof {
            assert(templates@.take(i + 1).drop_last() =~= templates@.take(i as int));
            assert(templates@.take(i + 1).last() == templates@[i as int]);
        }
        let t = &templates[i];
        let pass_filter = match tag_filter {
            Some(f) => {
                let tc = chars_of(t.tags.as_str());
                let fc = chars_of(f);
                starts_with_exec(&tc, &fc) || crate::text::chars_eq(&tc, &fc)
            },
            None => true,
        };
        let hit = pass_filter && (query.is_empty() || fuzzy_match(t.name.as_str(), query) || fuzzy_match(
            t.tags.as_str(),
            query,
        ) || some_pair_matches(t, query));
        if hit {
            found.push(t);
        }
        i = i + 1;
    }
    assert(templates@.take(i as int) =~= templates@);
    let mut keys: Vec<SortKey> = Vec::new();
    let mut k: usize = 0;
    while k < found.len()
        invariant
            k <= found@.len(),
            keys@.map_values(|x: SortKey| key_view(x)) == template_search_keys(derefs(found@)).take(k as int),
        decreases found@.len() - k,
    {
        let ghost prev = keys@;
        let key = SortKey {
            major: (u32::MAX - found[k].use_count) as u64,
            minor: 0,
            text: chars_of(found[k].name.as_str()),
        };
        keys.push(key);
        assert(keys@.map_values(|x: SortKey| key_view(x)) =~= prev.map_values(|x: SortKey| key_view(x)).push(key_view(key)));
        assert(template_search_keys(derefs(found@)).take(k + 1) =~= template_search_keys(derefs(found@)).take(k as int).push(
            template_search_keys(derefs(found@))[k as int],
        ));
        k = k + 1;
    }
    assert(template_search_keys(derefs(found@)).take(k as int) =~= template_search_keys(derefs(found@)));
    let order = stable_order(&keys);
    let ghost pv = order@.map_values(|i: usize| i as int);
    let mut r: Vec<&'a Template> = Vec::new();
    let mut j: usize = 0;
    while j < order.len()
        invariant
            j <= order@.len(),
            order@.len() == found@.len(),
            pv == order@.map_values(|i: usize| i as int),
            stably_sorted(template_search_keys(derefs(found@)), pv),
            derefs(r@) == permuted(derefs(found@), pv.take(j as int)),
        decreases order@.len() - j,
    {
        let idx = order[j];
        assert(pv[j as int] == idx as int);
        r.push(found[idx]);
        assert(derefs(r@) =~= permuted(derefs(found@), pv.take(j as int)).push(*found@[idx as int]));
        assert(permuted(derefs(found@), pv.take(j + 1)) =~= permuted(derefs(found@), pv.take(j as int)).push(derefs(found@)[idx as int]));
        j = j + 1;
    }
    assert(pv.take(j as int) =~= pv);
    r
}

/// The scripts whose tags are `tag_prefix` or lie below it, in order; all
/// scripts when it is empty.
pub fn filter_scripts_by_tag_hierarchy<'a>(scripts: &'a [Script], tag_prefix: &str) -> (r: Vec<&'a Script>)
    ensures
        derefs(r@) == select(scripts@, |s: Script| tag_prefix@.len() == 0 || is_descendant(s.tags@, tag_prefix@)),
{
    let ghost keep = |s: Script| tag_prefix@.len() == 0 || is_descendant(s.tags@, tag_prefix@);
    let mut r: Vec<&'a Script> = Vec::new();
    let mut i: usize = 0;
    while i < scripts.len()
        invariant
            i <= scripts@.len(),
            keep == (|s: Script| tag_prefix@.len() == 0 || is_descendant(s.tags@, tag_prefix@)),
            derefs(r@) == select(scripts@.take(i as int), keep),
        decreases scripts@.len() - i,
    {
        proof {
            assert(scripts@.take(i + 1).drop_last() =~= scripts@.take(i as int));
            assert(scripts@.take(i + 1).last() == scripts@[i as int]);
        }
        if tag_prefix.is_empty() || TagManager::is_tag_descendant(scripts[i].tags.as_str(), tag_prefix) {
            r.push(&scripts[i]);
        }
        i = i + 1;
    }
    assert(scripts@.take(i as int) =~= scripts@);
    r
}

/// `text` with every occurrence of the non-empty `query`, from left to right
/// and without overlapping, put in square brackets.
pub open spec fn highlighted(text: Seq<char>, query: Seq<char>) -> Seq<char>
    decreases text.len(),
{
    if query.len() == 0 {
        text
    } else {
        match find_seq_from(text, query, 0) {
            None => text,
            Some(i) => {
                if 0 <= i && i + query.len() <= text.len() {
                    text.take(i) + seq!['['] + query + seq![']'] + highlighted(
                        text.skip(i + query.len()),
                        query,
                    )
                } else {
                    text
                }
            },
        }
    }
}

/// `text` with each occurrence of `query` put in square brackets (see `highlighted`).
pub fn highlight_match(text: &str, query: &str) -> (r: String)
    ensures
        r@ == highlighted(text@, query@),
{
    if query.is_empty() {
        return text.to_owned();
    }
    let t = chars_of(text);
    let q = chars_of(query);
    let mut out = String::new();
    let mut pos: usize = 0;
    assert(t@.skip(0) =~= t@);
    while pos <= t.len()
        invariant
            pos <= t@.len(),
            t@ == text@,
            q@ == query@,
            q@.len() > 0,
            out@ + highlighted(t@.skip(pos as int), q@) == highlighted(t@, q@),
        decreases t@.len() - pos,
    {
        match find_seq_exec(&t, &q, pos) {
            None => {
                proof {
                    lemma_find_shift(t@, q@, pos as int);
                    assert(highlighted(t@.skip(pos as int), q@) == t@.skip(pos as int));
                }
                push_range(&mut out, &t, pos, t.len());
                assert(out@ =~= highlighted(t@, q@));
                return out;
            },
            Some(i) => {
                let ghost rest = t@.skip(pos as int);
                proof {
                    lemma_find_shift(t@, q@, pos as int);
                    assert(rest.take(i - pos) =~= t@.subrange(pos as int, i as int));
                    assert(rest.skip(i - pos + q@.len()) =~= t@.skip(i + q@.len()));
                }
                let ghost before = out@;
                push_range(&mut out, &t, pos, i);
                push_char(&mut out, '[');
                crate::text::push_str(&mut out, query);
                push_char(&mut out, ']');
                assert(out@ =~= before + rest.take(i - pos) + seq!['['] + q@ + seq![']']);
                pos = i + q.len();
            },
        }
    }
    out
}

/// Finding from `pos` in `t` is finding from the start in `t` without its first `pos` characters.
pub proof fn lemma_find_shift(t: Seq<char>, q: Seq<char>, pos: int)
    requires
        0 <= pos <= t.len(),
        q.len() > 0,
    ensures
        match find_seq_from(t, q, pos) {
            Some(i) => find_seq_from(t.skip(pos), q, 0) == Some(i - pos),
            None => find_seq_from(t.skip(pos), q, 0) is None,
        },
{
    lemma_find_shift_from(t, q, pos, pos);
}

proof fn lemma_find_shift_from(t: Seq<char>, q: Seq<char>, pos: int, i: int)
    requires
        0 <= pos <= i,
        pos <= t.len(),
        q.len() > 0,
    ensures
        match find_seq_from(t, q, i) {
            Some(j) => find_seq_from(t.skip(pos), q, i - pos) == Some(j - pos),
            None => find_seq_from(t.skip(pos), q, i - pos) is None,
        },
    decreases t.len() + 1 - i,
{
    let s = t.skip(pos);
    if i + q.len() > t.len() {
    } else {
        assert(s.subrange(i - pos, i - pos + q.len()) =~= t.subrange(i, i + q.len()));
        if !crate::text::occurs_at(t, q, i) {
            lemma_find_shift_from(t, q, pos, i + 1);
        }
    }
}

} // verus!
