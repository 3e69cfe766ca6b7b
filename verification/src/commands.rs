//! What the application does on each request, on the state it holds: the
//! scripts, the templates, the tag manager and the use history. Reading and
//! saving that state, and the clipboard itself, are the caller's.
use vstd::prelude::*;
use crate::clock::is_uuid_v4_text;
use crate::clipboard::{answer_view, clipboard_outcome, clipboard_outcome_view, ClipboardResult};
use crate::data::{copy_script, copy_template, ids_view, same_script, same_template, without, Script, Template};
use crate::history::{after_push, HistoryManager, UsageRecord};
use crate::tags::{
    arc_script_tags, arc_template_tags, has_segment, is_descendant, rename_segment, same_but_tags, same_template_but_tags,
    script_tags, select, some_under, template_tags, TagManager,
};
use crate::sort::{
    key_lt, key_view, lemma_key_lt_facts, lemma_permuted_covers, lemma_permuted_within, lemma_text_lt_total,
    permuted, sort_texts, stable_order, stably_sorted, strictly_sorted, text_keys, text_lt, SortKey,
};
use crate::text::{chars_eq, chars_of, contains_string, non_empty, trim, trim_string, views};
use crate::variable::{
    dedup, lemma_dedup_contains, lemma_dedup_no_duplicates, lemma_push_contains, parse_variables,
    piece_for, placeholder_names, rendered, replace_variables, replacement, span_default, span_name, spans,
};
use std::sync::Arc;
use crate::value_map::ValueMap;

verus! {

/// `i` is the first index of a script with id `id`.
pub open spec fn first_script_at(s: Seq<Script>, id: Seq<char>, i: int) -> bool {
    &&& 0 <= i < s.len()
    &&& s[i].id@ == id
    &&& forall|j: int| 0 <= j < i ==> (#[trigger] s[j]).id@ != id
}

/// Some script has id `id`.
pub open spec fn has_script(s: Seq<Script>, id: Seq<char>) -> bool {
    exists|i: int| 0 <= i < s.len() && (#[trigger] s[i]).id@ == id
}

/// `i` is the first index of a template with id `id`.
pub open spec fn first_template_at(s: Seq<Template>, id: Seq<char>, i: int) -> bool {
    &&& 0 <= i < s.len()
    &&& s[i].id@ == id
    &&& forall|j: int| 0 <= j < i ==> (#[trigger] s[j]).id@ != id
}

/// Some template has id `id`.
pub open spec fn has_template(s: Seq<Template>, id: Seq<char>) -> bool {
    exists|i: int| 0 <= i < s.len() && (#[trigger] s[i]).id@ == id
}

/// `a` and `b` hold the same scripts except at index `i`.
pub open spec fn same_scripts_but(a: Seq<Script>, b: Seq<Script>, i: int) -> bool {
    &&& a.len() == b.len()
    &&& forall|j: int| 0 <= j < a.len() && j != i ==> same_script(#[trigger] a[j], b[j])
}

/// `a` and `b` hold the same templates except at index `i`.
pub open spec fn same_templates_but(a: Seq<Template>, b: Seq<Template>, i: int) -> bool {
    &&& a.len() == b.len()
    &&& forall|j: int| 0 <= j < a.len() && j != i ==> same_template(#[trigger] a[j], b[j])
}

/// The index of the first script with id `id`.
fn find_script(scripts: &Vec<Script>, id: &str) -> (r: Option<usize>)
    ensures
        match r {
            Some(i) => first_script_at(scripts@, id@, i as int),
            None => !has_script(scripts@, id@),
        },
{
    let target = chars_of(id);
    let mut i: usize = 0;
    while i < scripts.len()
        invariant
            i <= scripts@.len(),
            target@ == id@,
            forall|j: int| 0 <= j < i ==> (#[trigger] scripts@[j]).id@ != id@,
        decreases scripts@.len() - i,
    {
        let c = chars_of(scripts[i].id.as_str());
        if chars_eq(&c, &target) {
            return Some(i);
        }
        i = i + 1;
    }
    None
}

/// The index of the first template with id `id`.
fn find_template(templates: &Vec<Template>, id: &str) -> (r: Option<usize>)
    ensures
        match r {
            Some(i) => first_template_at(templates@, id@, i as int),
            None => !has_template(templates@, id@),
        },
{
    let target = chars_of(id);
    let mut i: usize = 0;
    while i < templates.len()
        invariant
            i <= templates@.len(),
            target@ == id@,
            forall|j: int| 0 <= j < i ==> (#[trigger] templates@[j]).id@ != id@,
        decreases templates@.len() - i,
    {
        let c = chars_of(templates[i].id.as_str());
        if chars_eq(&c, &target) {
            return Some(i);
        }
        i = i + 1;
    }
    None
}

/// Adds a new script (see `Script::new`) and rebuilds the tags from the scripts.
pub fn create_script(
    scripts: &mut Vec<Script>,
    tags: &mut TagManager,
    name: String,
    tag_path: String,
    content: String,
) -> (r: Script)
    requires
        old(scripts)@.len() + 1 < usize::MAX,
    ensures
        r.name@ == name@,
        r.tags@ == tag_path@,
        r.content@ == content@,
        is_uuid_v4_text(r.id@),
        r.use_count == 0,
        !r.is_favorite,
        final(scripts)@.len() == old(scripts)@.len() + 1,
        final(scripts)@.take(old(scripts)@.len() as int) == old(scripts)@,
        same_script(final(scripts)@.last(), r),
        final(tags).tag_history() == non_empty(script_tags(final(scripts)@)),
{
    let script = Script::new(name, tag_path, content);
    scripts.push(copy_script(&script));
    tags.update_from_scripts(scripts.as_slice());
    script
}

/// Updates the first script with id `id` (see `Script::update`) and rebuilds
/// the tags from the scripts; `Script not found` when there is none.
pub fn update_script(
    scripts: &mut Vec<Script>,
    tags: &mut TagManager,
    id: &str,
    name: Option<String>,
    tag_path: Option<String>,
    content: Option<String>,
) -> (r: Result<(), String>)
    requires
        old(scripts)@.len() < usize::MAX,
    ensures
        r is Err <==> !has_script(old(scripts)@, id@),
        r is Err ==> {
            &&& r->Err_0@ == "Script not found"@
            &&& final(scripts)@ == old(scripts)@
            &&& final(tags).tag_history() == old(tags).tag_history()
        },
        r is Ok ==> exists|i: int|
            {
                &&& first_script_at(old(scripts)@, id@, i)
                &&& same_scripts_but(final(scripts)@, old(scripts)@, i)
                &&& #[trigger] final(scripts)@[i].id@ == old(scripts)@[i].id@
                &&& final(scripts)@[i].name@ == (match name {
                    Some(n) => n@,
                    None => old(scripts)@[i].name@,
                })
                &&& final(scripts)@[i].tags@ == (match tag_path {
                    Some(t) => t@,
                    None => old(scripts)@[i].tags@,
                })
                &&& final(scripts)@[i].content@ == (match content {
                    Some(c) => c@,
                    None => old(scripts)@[i].content@,
                })
                &&& final(scripts)@[i].created_at@ == old(scripts)@[i].created_at@
                &&& final(scripts)@[i].use_count == old(scripts)@[i].use_count
                &&& final(scripts)@[i].last_used@ == old(scripts)@[i].last_used@
                &&& final(scripts)@[i].is_favorite == old(scripts)@[i].is_favorite
            },
        r is Ok ==> final(tags).tag_history() == non_empty(script_tags(final(scripts)@)),
{
    let i = match find_script(scripts, id) {
        Some(i) => i,
        None => {
            return Err("Script not found".to_owned());
        },
    };
    let ghost s0 = scripts@;
    let mut s = copy_script(&scripts[i]);
    s.update(name, tag_path, content);
    scripts.set(i, s);
    tags.update_from_scripts(scripts.as_slice());
    assert(same_scripts_but(scripts@, s0, i as int));
    assert(final(scripts)@[i as int].id@ == s0[i as int].id@);
    Ok(())
}

/// Removes the first script with id `id`, removes its id from every template,
/// and rebuilds the tags from the scripts; `Script not found` when there is none.
pub fn delete_script(
    scripts: &mut Vec<Script>,
    templates: &mut Vec<Template>,
    tags: &mut TagManager,
    id: &str,
) -> (r: Result<(), String>)
    ensures
        r is Err <==> !has_script(old(scripts)@, id@),
        r is Err ==> {
            &&& r->Err_0@ == "Script not found"@
            &&& final(scripts)@ == old(scripts)@
            &&& final(templates)@ == old(templates)@
            &&& final(tags).tag_history() == old(tags).tag_history()
        },
        r is Ok ==> {
            &&& exists|i: int| first_script_at(old(scripts)@, id@, i) && #[trigger] old(scripts)@.remove(i) == final(scripts)@
            &&& final(templates)@.len() == old(templates)@.len()
            &&& forall|j: int|
                0 <= j < old(templates)@.len() ==> {
                    let a = #[trigger] final(templates)@[j];
                    let b = old(templates)@[j];
                    &&& ids_view(a.script_ids@) == without(ids_view(b.script_ids@), id@)
                    &&& a.id == b.id
                    &&& a.name == b.name
                    &&& a.tags == b.tags
                    &&& a.variable_values == b.variable_values
                    &&& a.created_at == b.created_at
                    &&& a.use_count == b.use_count
                    &&& a.last_used == b.last_used
                    &&& a.is_favorite == b.is_favorite
                    &&& a.category == b.category
                }
            &&& final(tags).tag_history() == non_empty(script_tags(final(scripts)@))
        },
{
    let i = match find_script(scripts, id) {
        Some(i) => i,
        None => {
            return Err("Script not found".to_owned());
        },
    };
    let ghost s0 = scripts@;
    let n0 = scripts.len();
    scripts.remove(i);
    assert(s0.remove(i as int) == scripts@);
    assert(scripts@.len() == n0 - 1);
    let ghost t0 = templates@;
    let mut j: usize = 0;
    while j < templates.len()
        invariant
            j <= templates@.len(),
            templates@.len() == t0.len(),
            forall|k: int| j <= k < t0.len() ==> #[trigger] templates@[k] == t0[k],
            forall|k: int|
                0 <= k < j ==> {
                    let a = #[trigger] templates@[k];
                    let b = t0[k];
                    &&& ids_view(a.script_ids@) == without(ids_view(b.script_ids@), id@)
                    &&& a.id == b.id
                    &&& a.name == b.name
                    &&& a.tags == b.tags
                    &&& a.variable_values == b.variable_values
                    &&& a.created_at == b.created_at
                    &&& a.use_count == b.use_count
                    &&& a.last_used == b.last_used
                    &&& a.is_favorite == b.is_favorite
                    &&& a.category == b.category
                },
        decreases t0.len() - j,
    {
        let mut t = templates.remove(j);
        t.remove_script_id(id);
        templates.insert(j, t);
        j = j + 1;
    }
    tags.update_from_scripts(scripts.as_slice());
    Ok(())
}

/// Adds a new template (see `Template::new`) and adds the tags of all
/// templates to the tag manager.
pub fn create_template(
    templates: &mut Vec<Template>,
    tags: &mut TagManager,
    name: String,
    tag_path: String,
    script_ids: Vec<String>,
    variable_values: ValueMap,
) -> (r: Template)
    requires
        old(tags).tag_history().len() + old(templates)@.len() + 1 < usize::MAX,
    ensures
        r.name@ == name@,
        r.tags@ == tag_path@,
        r.script_ids@ == script_ids@,
        r.variable_values.view() == variable_values.view(),
        is_uuid_v4_text(r.id@),
        r.use_count == 0,
        !r.is_favorite,
        final(templates)@.len() == old(templates)@.len() + 1,
        final(templates)@.take(old(templates)@.len() as int) == old(templates)@,
        same_template(final(templates)@.last(), r),
        final(tags).tag_history() == old(tags).tag_history() + non_empty(template_tags(final(templates)@)),
{
    let template = Template::new(name, tag_path, script_ids, variable_values);
    templates.push(copy_template(&template));
    tags.update_from_templates(templates.as_slice());
    template
}

/// Updates the first template with id `id` (see `Template::update`) and adds
/// the tags of all templates to the tag manager; `Template not found` when
/// there is none.
pub fn update_template(
    templates: &mut Vec<Template>,
    tags: &mut TagManager,
    id: &str,
    name: Option<String>,
    tag_path: Option<String>,
    script_ids: Option<Vec<String>>,
    variable_values: Option<ValueMap>,
) -> (r: Result<(), String>)
    requires
        old(tags).tag_history().len() + old(templates)@.len() < usize::MAX,
    ensures
        r is Err <==> !has_template(old(templates)@, id@),
        r is Err ==> {
            &&& r->Err_0@ == "Template not found"@
            &&& final(templates)@ == old(templates)@
            &&& final(tags).tag_history() == old(tags).tag_history()
        },
        r is Ok ==> exists|i: int|
            {
                &&& first_template_at(old(templates)@, id@, i)
                &&& same_templates_but(final(templates)@, old(templates)@, i)
                &&& #[trigger] final(templates)@[i].id@ == old(templates)@[i].id@
                &&& final(templates)@[i].name@ == (match name {
                    Some(n) => n@,
                    None => old(templates)@[i].name@,
                })
                &&& final(templates)@[i].tags@ == (match tag_path {
                    Some(t) => t@,
                    None => old(templates)@[i].tags@,
                })
                &&& final(templates)@[i].script_ids@ == (match script_ids {
                    Some(s) => s@,
                    None => old(templates)@[i].script_ids@,
                })
                &&& final(templates)@[i].variable_values.view() == (match variable_values {
                    Some(v) => v.view(),
                    None => old(templates)@[i].variable_values.view(),
                })
                &&& final(templates)@[i].created_at@ == old(templates)@[i].created_at@
                &&& final(templates)@[i].use_count == old(templates)@[i].use_count
                &&& final(templates)@[i].last_used@ == old(templates)@[i].last_used@
                &&& final(templates)@[i].is_favorite == old(templates)@[i].is_favorite
                &&& final(templates)@[i].category@ == old(templates)@[i].category@
            },
        r is Ok ==> final(tags).tag_history() == old(tags).tag_history() + non_empty(
            template_tags(final(templates)@),
        ),
{
    let i = match find_template(templates, id) {
        Some(i) => i,
        None => {
            return Err("Template not found".to_owned());
        },
    };
    let ghost t0 = templates@;
    let mut t = templates.remove(i);
    t.update(name, tag_path, script_ids, variable_values);
    templates.insert(i, t);
    tags.update_from_templates(templates.as_slice());
    assert(same_templates_but(templates@, t0, i as int));
    assert(final(templates)@[i as int].id@ == t0[i as int].id@);
    Ok(())
}

/// Removes the first template with id `id` and adds the tags of the
/// remaining templates to the tag manager; `Template not found` when there is none.
pub fn delete_template(templates: &mut Vec<Template>, tags: &mut TagManager, id: &str) -> (r: Result<
    (),
    String,
>)
    requires
        old(tags).tag_history().len() + old(templates)@.len() < usize::MAX,
    ensures
        r is Err <==> !has_template(old(templates)@, id@),
        r is Err ==> {
            &&& r->Err_0@ == "Template not found"@
            &&& final(templates)@ == old(templates)@
            &&& final(tags).tag_history() == old(tags).tag_history()
        },
        r is Ok ==> {
            &&& exists|i: int| first_template_at(old(templates)@, id@, i) && #[trigger] old(templates)@.remove(i) == final(templates)@
            &&& final(tags).tag_history() == old(tags).tag_history() + non_empty(template_tags(final(templates)@))
        },
{
    let i = match find_template(templates, id) {
        Some(i) => i,
        None => {
            return Err("Template not found".to_owned());
        },
    };
    let ghost t0 = templates@;
    templates.remove(i);
    assert(t0.remove(i as int) == templates@);
    tags.update_from_templates(templates.as_slice());
    Ok(())
}

/// Flips the favourite mark of the first script with id `id`; `Script not
/// found` when there is none.
pub fn toggle_favorite_script(scripts: &mut Vec<Script>, id: &str) -> (r: Result<(), String>)
    ensures
        r is Err <==> !has_script(old(scripts)@, id@),
        r is Err ==> r->Err_0@ == "Script not found"@ && final(scripts)@ == old(scripts)@,
        r is Ok ==> exists|i: int|
            {
                &&& first_script_at(old(scripts)@, id@, i)
                &&& same_scripts_but(final(scripts)@, old(scripts)@, i)
                &&& #[trigger] final(scripts)@[i] == Script {
                    is_favorite: !old(scripts)@[i].is_favorite,
                    ..old(scripts)@[i]
                }
            },
{
    let i = match find_script(scripts, id) {
        Some(i) => i,
        None => {
            return Err("Script not found".to_owned());
        },
    };
    let ghost s0 = scripts@;
    let mut s = scripts.remove(i);
    s.is_favorite = !s.is_favorite;
    scripts.insert(i, s);
    assert(same_scripts_but(scripts@, s0, i as int));
    assert(final(scripts)@[i as int] == Script { is_favorite: !s0[i as int].is_favorite, ..s0[i as int] });
    Ok(())
}

/// Flips the favourite mark of the first template with id `id`; `Template
/// not found` when there is none.
pub fn toggle_favorite_template(templates: &mut Vec<Template>, id: &str) -> (r: Result<(), String>)
    ensures
        r is Err <==> !has_template(old(templates)@, id@),
        r is Err ==> r->Err_0@ == "Template not found"@ && final(templates)@ == old(templates)@,
        r is Ok ==> exists|i: int|
            {
                &&& first_template_at(old(templates)@, id@, i)
                &&& same_templates_but(final(templates)@, old(templates)@, i)
                &&& #[trigger] final(templates)@[i] == Template {
                    is_favorite: !old(templates)@[i].is_favorite,
                    ..old(templates)@[i]
                }
            },
{
    let i = match find_template(templates, id) {
        Some(i) => i,
        None => {
            return Err("Template not found".to_owned());
        },
    };
    let ghost t0 = templates@;
    let mut t = templates.remove(i);
    t.is_favorite = !t.is_favorite;
    templates.insert(i, t);
    assert(same_templates_but(templates@, t0, i as int));
    assert(final(templates)@[i as int] == Template { is_favorite: !t0[i as int].is_favorite, ..t0[i as int] });
    Ok(())
}

/// After a copy of the text of script `id` to the clipboard: when it
/// succeeded, counts a use of the first script with that id and records it in
/// the history (`Script not found` when there is none); otherwise the
/// clipboard's error.
pub fn finish_script_copy(
    copied: ClipboardResult,
    scripts: &mut Vec<Script>,
    history: &mut HistoryManager,
    id: &str,
) -> (r: Result<(), String>)
    requires
        forall|i: int| 0 <= i < old(scripts)@.len() && (#[trigger] old(scripts)@[i]).id@ == id@
            ==> old(scripts)@[i].use_count < u32::MAX,
    ensures
        !(copied is Success) ==> {
            &&& answer_view(r) == clipboard_outcome_view(copied)
            &&& final(scripts)@ == old(scripts)@
            &&& final(history).records() == old(history).records()
        },
        copied is Success ==> (r is Err <==> !has_script(old(scripts)@, id@)),
        copied is Success && r is Err ==> {
            &&& r->Err_0@ == "Script not found"@
            &&& final(scripts)@ == old(scripts)@
            &&& final(history).records() == old(history).records()
        },
        copied is Success && r is Ok ==> exists|i: int, rec: UsageRecord|
            #![trigger first_script_at(old(scripts)@, id@, i), after_push(old(history).records(), rec, old(history).max_records())]
            {
                &&& first_script_at(old(scripts)@, id@, i)
                &&& same_scripts_but(final(scripts)@, old(scripts)@, i)
                &&& final(scripts)@[i].use_count == old(scripts)@[i].use_count + 1
                &&& final(scripts)@[i].id == old(scripts)@[i].id
                &&& final(scripts)@[i].name == old(scripts)@[i].name
                &&& final(scripts)@[i].tags == old(scripts)@[i].tags
                &&& final(scripts)@[i].content == old(scripts)@[i].content
                &&& final(scripts)@[i].is_favorite == old(scripts)@[i].is_favorite
                &&& rec.id@ == id@
                &&& rec.item_type@ == "script"@
                &&& rec.duration_ms is None
                &&& final(history).records() == after_push(old(history).records(), rec, old(history).max_records())
            },
{
    match copied {
        ClipboardResult::Success => {},
        other => {
            return clipboard_outcome(other);
        },
    }
    let i = match find_script(scripts, id) {
        Some(i) => i,
        None => {
            return Err("Script not found".to_owned());
        },
    };
    let ghost s0 = scripts@;
    let mut s = scripts.remove(i);
    s.increment_use_count();
    history.record_script_usage(&s, None);
    scripts.insert(i, s);
    assert(same_scripts_but(scripts@, s0, i as int));
    assert(final(scripts)@[i as int].use_count == s0[i as int].use_count + 1);
    Ok(())
}

/// After a copy of a preview of template `id` to the clipboard: when it
/// succeeded, counts a use of the first template with that id and records it
/// in the history (`Template not found` when there is none); otherwise the
/// clipboard's error.
pub fn finish_template_copy(
    copied: ClipboardResult,
    templates: &mut Vec<Template>,
    history: &mut HistoryManager,
    id: &str,
) -> (r: Result<(), String>)
    requires
        forall|i: int| 0 <= i < old(templates)@.len() && (#[trigger] old(templates)@[i]).id@ == id@
            ==> old(templates)@[i].use_count < u32::MAX,
    ensures
        !(copied is Success) ==> {
            &&& answer_view(r) == clipboard_outcome_view(copied)
            &&& final(templates)@ == old(templates)@
            &&& final(history).records() == old(history).records()
        },
        copied is Success ==> (r is Err <==> !has_template(old(templates)@, id@)),
        copied is Success && r is Err ==> {
            &&& r->Err_0@ == "Template not found"@
            &&& final(templates)@ == old(templates)@
            &&& final(history).records() == old(history).records()
        },
        copied is Success && r is Ok ==> exists|i: int, rec: UsageRecord|
            #![trigger first_template_at(old(templates)@, id@, i), after_push(old(history).records(), rec, old(history).max_records())]
            {
                &&& first_template_at(old(templates)@, id@, i)
                &&& same_templates_but(final(templates)@, old(templates)@, i)
                &&& final(templates)@[i].use_count == old(templates)@[i].use_count + 1
                &&& final(templates)@[i].id == old(templates)@[i].id
                &&& final(templates)@[i].name == old(templates)@[i].name
                &&& final(templates)@[i].tags == old(templates)@[i].tags
                &&& final(templates)@[i].script_ids == old(templates)@[i].script_ids
                &&& final(templates)@[i].is_favorite == old(templates)@[i].is_favorite
                &&& rec.id@ == id@
                &&& rec.item_type@ == "template"@
                &&& rec.duration_ms is None
                &&& final(history).records() == after_push(old(history).records(), rec, old(history).max_records())
            },
{
    match copied {
        ClipboardResult::Success => {},
        other => {
            return clipboard_outcome(other);
        },
    }
    let i = match find_template(templates, id) {
        Some(i) => i,
        None => {
            return Err("Template not found".to_owned());
        },
    };
    let ghost t0 = templates@;
    let mut t = templates.remove(i);
    t.increment_use_count();
    history.record_template_usage(&t, None);
    templates.insert(i, t);
    assert(same_templates_but(templates@, t0, i as int));
    assert(final(templates)@[i as int].use_count == t0[i as int].use_count + 1);
    Ok(())
}

// ---------------------------------------------------------------------------
// Tag maintenance on the stored scripts and templates
// ---------------------------------------------------------------------------
/// The scripts behind shared pointers.
pub open spec fn script_values(s: Seq<Arc<Script>>) -> Seq<Script> {
    s.map_values(|a: Arc<Script>| *a)
}

/// Two sequences of templates hold the same values, in order.
pub open spec fn same_templates(a: Seq<Template>, b: Seq<Template>) -> bool {
    &&& a.len() == b.len()
    &&& forall|i: int| 0 <= i < a.len() ==> same_template(#[trigger] a[i], b[i])
}

/// The templates behind shared pointers.
pub open spec fn template_values(s: Seq<Arc<Template>>) -> Seq<Template> {
    s.map_values(|a: Arc<Template>| *a)
}

/// The scripts whose tags do not lie at or below `tag`, in order.
pub open spec fn scripts_outside(s: Seq<Script>, tag: Seq<char>) -> Seq<Script>
    decreases s.len(),
{
    if s.len() == 0 {
        seq![]
    } else if !is_descendant(s.last().tags@, tag) {
        scripts_outside(s.drop_last(), tag).push(s.last())
    } else {
        scripts_outside(s.drop_last(), tag)
    }
}

/// The templates whose tags do not lie at or below `tag`, in order.
pub open spec fn templates_outside(s: Seq<Template>, tag: Seq<char>) -> Seq<Template>
    decreases s.len(),
{
    if s.len() == 0 {
        seq![]
    } else if !is_descendant(s.last().tags@, tag) {
        templates_outside(s.drop_last(), tag).push(s.last())
    } else {
        templates_outside(s.drop_last(), tag)
    }
}

fn to_script_arcs(scripts: &Vec<Script>) -> (r: Vec<Arc<Script>>)
    ensures
        script_values(r@) == scripts@,
{
    let mut r: Vec<Arc<Script>> = Vec::new();
    let mut i: usize = 0;
    while i < scripts.len()
        invariant
            i <= scripts@.len(),
            script_values(r@) == scripts@.take(i as int),
        decreases scripts@.len() - i,
    {
        let ghost prev = r@;
        r.push(Arc::new(copy_script(&scripts[i])));
        assert(script_values(r@) =~= script_values(prev).push(scripts@[i as int]));
        assert(scripts@.take(i + 1) =~= scripts@.take(i as int).push(scripts@[i as int]));
        i = i + 1;
    }
    assert(scripts@.take(i as int) =~= scripts@);
    r
}

fn from_script_arcs(arcs: &Vec<Arc<Script>>) -> (r: Vec<Script>)
    ensures
        r@ == script_values(arcs@),
{
    let mut r: Vec<Script> = Vec::new();
    let mut i: usize = 0;
    while i < arcs.len()
        invariant
            i <= arcs@.len(),
            r@ == script_values(arcs@).take(i as int),
        decreases arcs@.len() - i,
    {
        let s: &Script = &arcs[i];
        r.push(copy_script(s));
        assert(script_values(arcs@).take(i + 1) =~= script_values(arcs@).take(i as int).push(*arcs@[i as int]));
        i = i + 1;
    }
    assert(script_values(arcs@).take(i as int) =~= script_values(arcs@));
    r
}

fn to_template_arcs(templates: &Vec<Template>) -> (r: Vec<Arc<Template>>)
    ensures
        same_templates(template_values(r@), templates@),
{
    let mut r: Vec<Arc<Template>> = Vec::new();
    let mut i: usize = 0;
    while i < templates.len()
        invariant
            i <= templates@.len(),
            r@.len() == i,
            forall|j: int| 0 <= j < i ==> same_template(*(#[trigger] r@[j]), templates@[j]),
        decreases templates@.len() - i,
    {
        r.push(Arc::new(copy_template(&templates[i])));
        i = i + 1;
    }
    r
}

fn from_template_arcs(arcs: &Vec<Arc<Template>>) -> (r: Vec<Template>)
    ensures
        same_templates(r@, template_values(arcs@)),
{
    let mut r: Vec<Template> = Vec::new();
    let mut i: usize = 0;
    while i < arcs.len()
        invariant
            i <= arcs@.len(),
            r@.len() == i,
            forall|j: int| 0 <= j < i ==> same_template(#[trigger] r@[j], *arcs@[j]),
        decreases arcs@.len() - i,
    {
        let t: &Template = &arcs[i];
        r.push(copy_template(t));
        i = i + 1;
    }
    r
}

/// Keeping the shared scripts outside a tag keeps the same scripts as keeping them directly.
pub proof fn lemma_scripts_outside(arcs: Seq<Arc<Script>>, tag: &str)
    ensures
        script_values(select(arcs, |s: Arc<Script>| !is_descendant(s.tags@, tag@))) == scripts_outside(
            script_values(arcs),
            tag@,
        ),
    decreases arcs.len(),
{
    if arcs.len() > 0 {
        lemma_scripts_outside(arcs.drop_last(), tag);
        assert(script_values(arcs).drop_last() =~= script_values(arcs.drop_last()));
        let sel = select(arcs.drop_last(), |s: Arc<Script>| !is_descendant(s.tags@, tag@));
        assert(script_values(sel.push(arcs.last())) =~= script_values(sel).push(*arcs.last()));
    } else {
        assert(script_values(arcs) =~= Seq::<Script>::empty());
    }
}

/// Keeping the shared templates outside a tag keeps the same templates as keeping them directly.
pub proof fn lemma_templates_outside(arcs: Seq<Arc<Template>>, ts: Seq<Template>, tag: &str)
    requires
        same_templates(template_values(arcs), ts),
    ensures
        same_templates(
            template_values(select(arcs, |t: Arc<Template>| !is_descendant(t.tags@, tag@))),
            templates_outside(ts, tag@),
        ),
    decreases arcs.len(),
{
    if arcs.len() > 0 {
        let ad = arcs.drop_last();
        let td = ts.drop_last();
        assert forall|i: int| 0 <= i < td.len() implies same_template(#[trigger] template_values(ad)[i], td[i]) by {
            assert(template_values(ad)[i] == template_values(arcs)[i]);
        }
        lemma_templates_outside(ad, td, tag);
        assert(template_values(arcs)[arcs.len() - 1] == *arcs.last());
        let sel = select(ad, |t: Arc<Template>| !is_descendant(t.tags@, tag@));
        let tsel = templates_outside(td, tag@);
        if !is_descendant(arcs.last().tags@, tag@) {
            let a = template_values(sel.push(arcs.last()));
            let b = tsel.push(ts.last());
            assert forall|i: int| 0 <= i < a.len() implies same_template(#[trigger] a[i], b[i]) by {
                if i < sel.len() {
                    assert(a[i] == template_values(sel)[i]);
                }
            }
        }
    }
}

/// Renames the segment `trim(old_segment)` to `trim(new_segment)` in the tags
/// of every script and template (see `TagManager::rename_tag_segment`).
/// Refused when either is blank (`Tag segment cannot be empty`) or they are
/// equal (`No matching tags found to rename`).
pub fn rename_tag_segment_command(
    scripts: &mut Vec<Script>,
    templates: &mut Vec<Template>,
    tags: &mut TagManager,
    old_segment: &str,
    new_segment: &str,
) -> (r: Result<(), String>)
    requires
        old(scripts)@.len() + old(templates)@.len() < usize::MAX,
    ensures
        ({
            let o = trim(old_segment@);
            let n = trim(new_segment@);
            &&& (o.len() == 0 || n.len() == 0) ==> r is Err && r->Err_0@ == "Tag segment cannot be empty"@
            &&& (o.len() > 0 && n.len() > 0 && o == n) ==> r is Err && r->Err_0@ == "No matching tags found to rename"@
            &&& r is Err ==> {
                &&& final(scripts)@ == old(scripts)@
                &&& final(templates)@ == old(templates)@
                &&& final(tags).tag_history() == old(tags).tag_history()
            }
            &&& r is Ok ==> {
                &&& o.len() > 0 && n.len() > 0 && o != n
                &&& final(scripts)@.len() == old(scripts)@.len()
                &&& forall|i: int|
                    0 <= i < old(scripts)@.len() ==> {
                        &&& same_but_tags(#[trigger] final(scripts)@[i], old(scripts)@[i])
                        &&& final(scripts)@[i].tags@ == rename_segment(old(scripts)@[i].tags@, o, n)
                    }
                &&& final(templates)@.len() == old(templates)@.len()
                &&& forall|i: int|
                    0 <= i < old(templates)@.len() ==> {
                        &&& same_template_but_tags(#[trigger] final(templates)@[i], old(templates)@[i])
                        &&& final(templates)@[i].tags@ == rename_segment(old(templates)@[i].tags@, o, n)
                    }
                &&& final(tags).tag_history() == non_empty(
                    script_tags(final(scripts)@) + template_tags(final(templates)@),
                )
            }
        }),
{
    let to = trim_string(old_segment);
    let tn = trim_string(new_segment);
    if to.as_str().is_empty() || tn.as_str().is_empty() {
        return Err("Tag segment cannot be empty".to_owned());
    }
    let mut script_arcs = to_script_arcs(scripts);
    let mut template_arcs = to_template_arcs(templates);
    let ghost sa0 = script_arcs@;
    let ghost ta0 = template_arcs@;
    let changed = tags.rename_tag_segment(to.as_str(), tn.as_str(), &mut script_arcs, &mut template_arcs);
    if !changed {
        return Err("No matching tags found to rename".to_owned());
    }
    let new_scripts = from_script_arcs(&script_arcs);
    let new_templates = from_template_arcs(&template_arcs);
    let ghost s0 = scripts@;
    let ghost t0 = templates@;
    proof {
        assert forall|i: int| 0 <= i < s0.len() implies same_but_tags(#[trigger] new_scripts@[i], s0[i]) && new_scripts@[i].tags@ == rename_segment(s0[i].tags@, to@, tn@) by {
            assert(script_values(sa0)[i] == *sa0[i]);
            assert(script_values(script_arcs@)[i] == *script_arcs@[i]);
        }
        assert forall|i: int| 0 <= i < t0.len() implies same_template_but_tags(#[trigger] new_templates@[i], t0[i]) && new_templates@[i].tags@ == rename_segment(t0[i].tags@, to@, tn@) by {
            assert(template_values(ta0)[i] == *ta0[i]);
            assert(template_values(template_arcs@)[i] == *template_arcs@[i]);
        }
        assert(arc_script_tags(script_arcs@) =~= script_tags(new_scripts@));
        assert(arc_template_tags(template_arcs@) =~= template_tags(new_templates@)) by {
            assert forall|i: int| 0 <= i < template_arcs@.len() implies arc_template_tags(template_arcs@)[i] == template_tags(new_templates@)[i] by {
                assert(template_values(template_arcs@)[i] == *template_arcs@[i]);
            }
        }
    }
    *scripts = new_scripts;
    *templates = new_templates;
    Ok(())
}

/// Removes every script and template whose tags are `trim(tag_path)` or lie
/// below it (see `TagManager::cascade_delete_tag`). Refused when it is blank
/// (`Tag path cannot be empty`) or when no script or template lies at or
/// below it (`No matching tag branch found to delete`).
pub fn cascade_delete_tag_command(
    scripts: &mut Vec<Script>,
    templates: &mut Vec<Template>,
    tags: &mut TagManager,
    tag_path: &str,
) -> (r: Result<(), String>)
    requires
        old(scripts)@.len() + old(templates)@.len() < usize::MAX,
    ensures
        ({
            let t = trim(tag_path@);
            &&& t.len() == 0 ==> r is Err && r->Err_0@ == "Tag path cannot be empty"@
            &&& (t.len() > 0 && !some_under(script_tags(old(scripts)@) + template_tags(old(templates)@), t)) ==> r is Err
                && r->Err_0@ == "No matching tag branch found to delete"@
            &&& r is Err ==> {
                &&& final(scripts)@ == old(scripts)@
                &&& final(templates)@ == old(templates)@
                &&& final(tags).tag_history() == old(tags).tag_history()
            }
            &&& r is Ok ==> {
                &&& t.len() > 0 && some_under(script_tags(old(scripts)@) + template_tags(old(templates)@), t)
                &&& final(scripts)@ == scripts_outside(old(scripts)@, t)
                &&& same_templates(final(templates)@, templates_outside(old(templates)@, t))
                &&& final(tags).tag_history() == non_empty(
                    script_tags(final(scripts)@) + template_tags(final(templates)@),
                )
            }
        }),
{
    let trimmed = trim_string(tag_path);
    if trimmed.as_str().is_empty() {
        return Err("Tag path cannot be empty".to_owned());
    }
    let mut script_arcs = to_script_arcs(scripts);
    let mut template_arcs = to_template_arcs(templates);
    let ghost sa0 = script_arcs@;
    let ghost ta0 = template_arcs@;
    proof {
        lemma_arc_tags(scripts, sa0, templates, ta0);
    }
    let ts = trimmed.as_str();
    let changed = tags.cascade_delete_tag(ts, &mut script_arcs, &mut template_arcs);
    if !changed {
        return Err("No matching tag branch found to delete".to_owned());
    }
    let new_scripts = from_script_arcs(&script_arcs);
    let new_templates = from_template_arcs(&template_arcs);
    proof {
        lemma_scripts_outside(sa0, ts);
        lemma_templates_outside(ta0, templates@, ts);
        let tv = template_values(template_arcs@);
        let want = templates_outside(templates@, trimmed@);
        assert forall|i: int| 0 <= i < new_templates@.len() implies same_template(#[trigger] new_templates@[i], want[i]) by {
            assert(same_template(new_templates@[i], tv[i]));
        }
        assert(arc_script_tags(script_arcs@) =~= script_tags(new_scripts@)) by {
            assert forall|i: int| 0 <= i < script_arcs@.len() implies arc_script_tags(script_arcs@)[i] == script_tags(new_scripts@)[i] by {
                assert(script_values(script_arcs@)[i] == *script_arcs@[i]);
            }
        }
        assert(arc_template_tags(template_arcs@) =~= template_tags(new_templates@)) by {
            assert forall|i: int| 0 <= i < template_arcs@.len() implies arc_template_tags(template_arcs@)[i] == template_tags(new_templates@)[i] by {
                assert(template_values(template_arcs@)[i] == *template_arcs@[i]);
            }
        }
    }
    *scripts = new_scripts;
    *templates = new_templates;
    Ok(())
}

// ---------------------------------------------------------------------------
// Previews of tag changes
// ---------------------------------------------------------------------------
/// What renaming a segment would touch, tag paths in increasing order.
pub struct TagRenamePreview {
    pub script_tags: Vec<String>,
    pub script_count: usize,
    pub template_tags: Vec<String>,
    pub template_count: usize,
}

/// What deleting a tag would remove, tag paths in increasing order.
pub struct TagDeletePreview {
    pub script_tags: Vec<String>,
    pub script_count: usize,
    pub template_tags: Vec<String>,
    pub template_count: usize,
}

/// `r` lists the distinct elements of `s` in increasing order.
pub open spec fn sorted_set_of(r: Seq<Seq<char>>, s: Seq<Seq<char>>) -> bool {
    &&& strictly_sorted(r)
    &&& forall|x: Seq<char>| #[trigger] r.contains(x) <==> s.contains(x)
}

proof fn lemma_arc_tags(scripts: &Vec<Script>, arcs: Seq<Arc<Script>>, templates: &Vec<Template>, tarcs: Seq<Arc<Template>>)
    requires
        script_values(arcs) == scripts@,
        same_templates(template_values(tarcs), templates@),
    ensures
        arc_script_tags(arcs) == script_tags(scripts@),
        arc_template_tags(tarcs) == template_tags(templates@),
{
    assert forall|i: int| 0 <= i < arcs.len() implies arc_script_tags(arcs)[i] == script_tags(scripts@)[i] by {
        assert(script_values(arcs)[i] == *arcs[i]);
    }
    assert(arc_script_tags(arcs) =~= script_tags(scripts@));
    assert forall|i: int| 0 <= i < tarcs.len() implies arc_template_tags(tarcs)[i] == template_tags(templates@)[i] by {
        assert(template_values(tarcs)[i] == *tarcs[i]);
    }
    assert(arc_template_tags(tarcs) =~= template_tags(templates@));
}

/// The distinct tag paths, in increasing order, of the scripts and of the
/// templates whose tags hold the segment `old_segment`, and how many of each
/// hold it.
pub fn get_tag_rename_preview(
    scripts: &Vec<Script>,
    templates: &Vec<Template>,
    tags: &TagManager,
    old_segment: &str,
) -> (r: TagRenamePreview)
    ensures
        ({
            let ms = select(script_tags(scripts@), |t: Seq<char>| has_segment(t, old_segment@));
            let mt = select(template_tags(templates@), |t: Seq<char>| has_segment(t, old_segment@));
            &&& sorted_set_of(views(r.script_tags@), ms)
            &&& r.script_count == ms.len()
            &&& sorted_set_of(views(r.template_tags@), mt)
            &&& r.template_count == mt.len()
        }),
{
    let script_arcs = to_script_arcs(scripts);
    let template_arcs = to_template_arcs(templates);
    let impact = tags.calculate_rename_impact(old_segment, script_arcs.as_slice(), template_arcs.as_slice());
    proof {
        lemma_arc_tags(scripts, script_arcs@, templates, template_arcs@);
        let ms = select(script_tags(scripts@), |t: Seq<char>| has_segment(t, old_segment@));
        let mt = select(template_tags(templates@), |t: Seq<char>| has_segment(t, old_segment@));
        lemma_dedup_no_duplicates(ms);
        lemma_dedup_no_duplicates(mt);
        assert(views(impact.script_tags@) =~= impact.script_tags@.map_values(|x: String| x@));
        assert(views(impact.template_tags@) =~= impact.template_tags@.map_values(|x: String| x@));
        assert forall|x: Seq<char>| dedup(ms).contains(x) <==> ms.contains(x) by {
            lemma_dedup_contains(ms, x);
        }
        assert forall|x: Seq<char>| dedup(mt).contains(x) <==> mt.contains(x) by {
            lemma_dedup_contains(mt, x);
        }
    }
    let script_tags = sort_texts(&impact.script_tags);
    let template_tags = sort_texts(&impact.template_tags);
    TagRenamePreview {
        script_tags,
        script_count: impact.script_count,
        template_tags,
        template_count: impact.template_count,
    }
}

/// The distinct tag paths, in increasing order, of the scripts and of the
/// templates whose tags are `tag_path` or lie below it, and how many of each do.
pub fn get_tag_delete_preview(
    scripts: &Vec<Script>,
    templates: &Vec<Template>,
    tags: &TagManager,
    tag_path: &str,
) -> (r: TagDeletePreview)
    ensures
        ({
            let ms = select(script_tags(scripts@), |t: Seq<char>| is_descendant(t, tag_path@));
            let mt = select(template_tags(templates@), |t: Seq<char>| is_descendant(t, tag_path@));
            &&& sorted_set_of(views(r.script_tags@), ms)
            &&& r.script_count == ms.len()
            &&& sorted_set_of(views(r.template_tags@), mt)
            &&& r.template_count == mt.len()
        }),
{
    let script_arcs = to_script_arcs(scripts);
    let template_arcs = to_template_arcs(templates);
    let impact = tags.calculate_delete_impact(tag_path, script_arcs.as_slice(), template_arcs.as_slice());
    proof {
        lemma_arc_tags(scripts, script_arcs@, templates, template_arcs@);
        let ms = select(script_tags(scripts@), |t: Seq<char>| is_descendant(t, tag_path@));
        let mt = select(template_tags(templates@), |t: Seq<char>| is_descendant(t, tag_path@));
        lemma_dedup_no_duplicates(ms);
        lemma_dedup_no_duplicates(mt);
        assert(views(impact.script_tags@) =~= impact.script_tags@.map_values(|x: String| x@));
        assert(views(impact.template_tags@) =~= impact.template_tags@.map_values(|x: String| x@));
        assert forall|x: Seq<char>| dedup(ms).contains(x) <==> ms.contains(x) by {
            lemma_dedup_contains(ms, x);
        }
        assert forall|x: Seq<char>| dedup(mt).contains(x) <==> mt.contains(x) by {
            lemma_dedup_contains(mt, x);
        }
    }
    let script_tags = sort_texts(&impact.script_tags);
    let template_tags = sort_texts(&impact.template_tags);
    TagDeletePreview {
        script_tags,
        script_count: impact.script_count,
        template_tags,
        template_count: impact.template_count,
    }
}

// ---------------------------------------------------------------------------
// Where variables are used
// ---------------------------------------------------------------------------
/// A variable and the names of the scripts that use it.
pub struct VariableUsageInfo {
    pub variable_name: String,
    pub script_names: Vec<String>,
}

/// The scripts whose ids are among `ids`, in order.
pub open spec fn selected_scripts(scripts: Seq<Script>, ids: Seq<Seq<char>>) -> Seq<Script>
    decreases scripts.len(),
{
    if scripts.len() == 0 {
        seq![]
    } else if ids.contains(scripts.last().id@) {
        selected_scripts(scripts.drop_last(), ids).push(scripts.last())
    } else {
        selected_scripts(scripts.drop_last(), ids)
    }
}

/// The names of the scripts of `sel` whose content uses variable `v`, in order.
pub open spec fn users_of(sel: Seq<Script>, v: Seq<char>) -> Seq<Seq<char>>
    decreases sel.len(),
{
    if sel.len() == 0 {
        seq![]
    } else if placeholder_names(sel.last().content@).contains(v) {
        users_of(sel.drop_last(), v).push(sel.last().name@)
    } else {
        users_of(sel.drop_last(), v)
    }
}

/// Some script of `sel` uses variable `v`.
pub open spec fn uses_variable(sel: Seq<Script>, v: Seq<char>) -> bool {
    exists|i: int| 0 <= i < sel.len() && placeholder_names((#[trigger] sel[i]).content@).contains(v)
}

/// The variable names of usage entries.
pub open spec fn usage_names(s: Seq<VariableUsageInfo>) -> Seq<Seq<char>> {
    s.map_values(|u: VariableUsageInfo| u.variable_name@)
}

proof fn lemma_uses_variable_push(sel: Seq<Script>, s: Script, v: Seq<char>)
    ensures
        uses_variable(sel.push(s), v) <==> (uses_variable(sel, v) || placeholder_names(s.content@).contains(v)),
{
    let sp = sel.push(s);
    if uses_variable(sel, v) {
        let i = choose|i: int| 0 <= i < sel.len() && placeholder_names((#[trigger] sel[i]).content@).contains(v);
        assert(sp[i] == sel[i]);
    }
    if placeholder_names(s.content@).contains(v) {
        assert(sp[sel.len() as int] == s);
    }
    if uses_variable(sp, v) {
        let i = choose|i: int| 0 <= i < sp.len() && placeholder_names((#[trigger] sp[i]).content@).contains(v);
        if i < sel.len() {
            assert(sp[i] == sel[i]);
        }
    }
}

proof fn lemma_users_of_unused(sel: Seq<Script>, v: Seq<char>)
    requires
        !uses_variable(sel, v),
    ensures
        users_of(sel, v) == Seq::<Seq<char>>::empty(),
    decreases sel.len(),
{
    if sel.len() > 0 {
        let d = sel.drop_last();
        if uses_variable(d, v) {
            let i = choose|i: int| 0 <= i < d.len() && placeholder_names((#[trigger] d[i]).content@).contains(v);
            assert(sel[i] == d[i]);
        }
        lemma_users_of_unused(d, v);
        assert(sel[sel.len() - 1] == sel.last());
    }
}

/// Each entry of `r` is entry `p[i]` of `e`, by name and script names.
pub open spec fn usage_drawn_from(r: Seq<VariableUsageInfo>, e: Seq<VariableUsageInfo>, p: Seq<int>) -> bool {
    &&& p.len() == r.len()
    &&& forall|i: int|
        0 <= i < r.len() ==> {
            &&& 0 <= #[trigger] p[i] < e.len()
            &&& r[i].variable_name@ == e[p[i]].variable_name@
            &&& views(r[i].script_names@) == views(e[p[i]].script_names@)
        }
}

/// Index of the entry for variable `name`, if there is one.
fn find_usage(entries: &Vec<VariableUsageInfo>, name: &String) -> (r: Option<usize>)
    ensures
        match r {
            Some(k) => k < entries@.len() && entries@[k as int].variable_name@ == name@,
            None => !usage_names(entries@).contains(name@),
        },
{
    let mut k: usize = 0;
    while k < entries.len()
        invariant
            k <= entries@.len(),
            forall|j: int| 0 <= j < k ==> (#[trigger] entries@[j]).variable_name@ != name@,
        decreases entries@.len() - k,
    {
        if entries[k].variable_name == *name {
            return Some(k);
        }
        k = k + 1;
    }
    proof {
        if usage_names(entries@).contains(name@) {
            let j = choose|j: int| 0 <= j < usage_names(entries@).len() && usage_names(entries@)[j] == name@;
            assert(entries@[j].variable_name@ == name@);
        }
    }
    None
}

/// The entries in increasing order of their (distinct) variable names.
fn sort_usage(entries: &Vec<VariableUsageInfo>) -> (r: Vec<VariableUsageInfo>)
    requires
        usage_names(entries@).no_duplicates(),
    ensures
        strictly_sorted(usage_names(r@)),
        forall|v: Seq<char>| #[trigger] usage_names(r@).contains(v) <==> usage_names(entries@).contains(v),
        exists|p: Seq<int>| #[trigger] usage_drawn_from(r@, entries@, p),
{
    let ghost names = usage_names(entries@);
    let ghost ks = text_keys(names);
    let mut keys: Vec<SortKey> = Vec::new();
    let mut i: usize = 0;
    while i < entries.len()
        invariant
            i <= entries@.len(),
            names == usage_names(entries@),
            ks == text_keys(names),
            keys@.map_values(|k: SortKey| key_view(k)) == ks.take(i as int),
        decreases entries@.len() - i,
    {
        let ghost prev = keys@;
        let key = SortKey { major: 0, minor: 0, text: chars_of(entries[i].variable_name.as_str()) };
        keys.push(key);
        assert(keys@.map_values(|k: SortKey| key_view(k)) =~= prev.map_values(|k: SortKey| key_view(k)).push(key_view(key)));
        assert(ks.take(i + 1) =~= ks.take(i as int).push(ks[i as int]));
        i = i + 1;
    }
    assert(ks.take(i as int) =~= ks);
    let order = stable_order(&keys);
    let ghost pv = order@.map_values(|i: usize| i as int);
    let mut r: Vec<VariableUsageInfo> = Vec::new();
    let mut k: usize = 0;
    while k < order.len()
        invariant
            k <= order@.len(),
            order@.len() == entries@.len(),
            pv == order@.map_values(|i: usize| i as int),
            names == usage_names(entries@),
            ks == text_keys(names),
            stably_sorted(ks, pv),
            r@.len() == k,
            usage_names(r@) == permuted(names, pv.take(k as int)),
            forall|a: int|
                0 <= a < k ==> views((#[trigger] r@[a]).script_names@) == views(entries@[pv[a]].script_names@),
        decreases order@.len() - k,
    {
        let idx = order[k];
        assert(pv[k as int] == idx as int);
        let ghost prev = r@;
        let names_copy = entries[idx].script_names.clone();
        assert(names_copy@ =~= entries@[idx as int].script_names@);
        let e = VariableUsageInfo { variable_name: entries[idx].variable_name.clone(), script_names: names_copy };
        r.push(e);
        assert(usage_names(r@) =~= usage_names(prev).push(names[idx as int]));
        assert(permuted(names, pv.take(k + 1)) =~= permuted(names, pv.take(k as int)).push(names[pv[k as int]]));
        k = k + 1;
    }
    assert(pv.take(k as int) =~= pv);
    proof {
        lemma_key_lt_facts();
        lemma_permuted_within(names, ks, pv);
        let rv = permuted(names, pv);
        assert forall|a: int, b: int| 0 <= a < b < rv.len() implies text_lt(#[trigger] rv[a], #[trigger] rv[b]) by {
            assert(!key_lt(ks[pv[b]], ks[pv[a]]));
            assert(ks[pv[a]] == (0int, 0int, rv[a]));
            assert(ks[pv[b]] == (0int, 0int, rv[b]));
            assert(rv[a] != rv[b]);
            lemma_text_lt_total(rv[a], rv[b]);
        }
        assert forall|v: Seq<char>| names.contains(v) implies rv.contains(v) by {
            lemma_permuted_covers(names, ks, pv, v);
        }
        assert forall|a: int| 0 <= a < r@.len() implies {
            &&& 0 <= #[trigger] pv[a] < entries@.len()
            &&& r@[a].variable_name@ == entries@[pv[a]].variable_name@
            &&& views(r@[a].script_names@) == views(entries@[pv[a]].script_names@)
        } by {
            assert(usage_names(r@)[a] == r@[a].variable_name@);
            assert(rv[a] == names[pv[a]]);
            assert(names[pv[a]] == entries@[pv[a]].variable_name@);
        }
        assert(usage_drawn_from(r@, entries@, pv));
    }
    r
}

/// For the scripts whose ids are among `script_ids`: each variable any of
/// them uses, once, in increasing order, with the names of the scripts that
/// use it, in order.
pub fn get_variable_usage_locations(scripts: &Vec<Script>, script_ids: &Vec<String>) -> (r: Vec<VariableUsageInfo>)
    ensures
        ({
            let sel = selected_scripts(scripts@, views(script_ids@));
            &&& strictly_sorted(usage_names(r@))
            &&& forall|i: int|
                0 <= i < r@.len() ==> views((#[trigger] r@[i]).script_names@) == users_of(sel, r@[i].variable_name@)
            &&& forall|v: Seq<char>| #[trigger] usage_names(r@).contains(v) <==> uses_variable(sel, v)
        }),
{
    let ghost idv = views(script_ids@);
    let mut entries: Vec<VariableUsageInfo> = Vec::new();
    let mut i: usize = 0;
    while i < scripts.len()
        invariant
            i <= scripts@.len(),
            idv == views(script_ids@),
            usage_names(entries@).no_duplicates(),
            forall|k: int|
                0 <= k < entries@.len() ==> views((#[trigger] entries@[k]).script_names@) == users_of(
                    selected_scripts(scripts@.take(i as int), idv),
                    entries@[k].variable_name@,
                ),
            forall|v: Seq<char>|
                #[trigger] usage_names(entries@).contains(v) <==> uses_variable(
                    selected_scripts(scripts@.take(i as int), idv),
                    v,
                ),
        decreases scripts@.len() - i,
    {
        let ghost sel = selected_scripts(scripts@.take(i as int), idv);
        let ghost s = scripts@[i as int];
        proof {
            assert(scripts@.take(i + 1).drop_last() =~= scripts@.take(i as int));
            assert(scripts@.take(i + 1).last() == s);
            assert(idv =~= script_ids@.map_values(|x: String| x@));
        }
        if contains_string(script_ids, &scripts[i].id) {
            let vars = parse_variables(scripts[i].content.as_str());
            let ghost pn = placeholder_names(s.content@);
            let ghost vs = views(vars@);
            proof {
                assert(vs =~= vars@.map_values(|x: String| x@));
                lemma_dedup_no_duplicates(pn);
            }
            let mut j: usize = 0;
            while j < vars.len()
                invariant
                    j <= vars@.len(),
                    vs == views(vars@),
                    vs == dedup(pn),
                    vs.no_duplicates(),
                    sel == selected_scripts(scripts@.take(i as int), idv),
                    s == scripts@[i as int],
                    i < scripts@.len(),
                    usage_names(entries@).no_duplicates(),
                    forall|k: int|
                        0 <= k < entries@.len() ==> views((#[trigger] entries@[k]).script_names@) == users_of(
                            sel,
                            entries@[k].variable_name@,
                        ) + (if vs.take(j as int).contains(entries@[k].variable_name@) {
                            seq![s.name@]
                        } else {
                            Seq::<Seq<char>>::empty()
                        }),
                    forall|v: Seq<char>|
                        #[trigger] usage_names(entries@).contains(v) <==> (uses_variable(sel, v) || vs.take(
                            j as int,
                        ).contains(v)),
                decreases vars@.len() - j,
            {
                let ghost x = vs[j as int];
                let ghost e0 = entries@;
                proof {
                    assert(vs.take(j + 1) =~= vs.take(j as int).push(x));
                    assert(!vs.take(j as int).contains(x)) by {
                        if vs.take(j as int).contains(x) {
                            let a = choose|a: int| 0 <= a < j && vs.take(j as int)[a] == x;
                            assert(vs[a] == vs[j as int]);
                        }
                    }
                }
                match find_usage(&entries, &vars[j]) {
                    Some(k) => {
                        let mut e = entries.remove(k);
                        e.script_names.push(scripts[i].name.clone());
                        entries.insert(k, e);
                        proof {
                            assert(usage_names(entries@) =~= usage_names(e0));
                            assert forall|m: int| 0 <= m < entries@.len() implies views((#[trigger] entries@[m]).script_names@) == users_of(
                                sel,
                                entries@[m].variable_name@,
                            ) + (if vs.take(j + 1).contains(entries@[m].variable_name@) {
                                seq![s.name@]
                            } else {
                                Seq::<Seq<char>>::empty()
                            }) by {
                                lemma_push_contains(vs.take(j as int), x, entries@[m].variable_name@);
                                if m == k {
                                    assert(views(entries@[m].script_names@) =~= views(e0[m].script_names@).push(s.name@));
                                } else {
                                    assert(entries@[m] == e0[m]);
                                    assert(e0[m].variable_name@ != x) by {
                                        assert(usage_names(e0)[m] != usage_names(e0)[k as int]);
                                    }
                                }
                            }
                            assert forall|v: Seq<char>| #[trigger] usage_names(entries@).contains(v) <==> (uses_variable(sel, v) || vs.take(j + 1).contains(v)) by {
                                lemma_push_contains(vs.take(j as int), x, v);
                                assert(usage_names(e0).contains(x)) by {
                                    assert(usage_names(e0)[k as int] == x);
                                }
                            }
                        }
                    },
                    None => {
                        let e = VariableUsageInfo { variable_name: vars[j].clone(), script_names: vec![scripts[i].name.clone()] };
                        entries.push(e);
                        proof {
                            assert(usage_names(entries@) =~= usage_names(e0).push(x));
                            assert(!uses_variable(sel, x));
                            lemma_users_of_unused(sel, x);
                            assert(views(entries@[e0.len() as int].script_names@) =~= seq![s.name@]);
                            assert forall|m: int| 0 <= m < entries@.len() implies views((#[trigger] entries@[m]).script_names@) == users_of(
                                sel,
                                entries@[m].variable_name@,
                            ) + (if vs.take(j + 1).contains(entries@[m].variable_name@) {
                                seq![s.name@]
                            } else {
                                Seq::<Seq<char>>::empty()
                            }) by {
                                lemma_push_contains(vs.take(j as int), x, entries@[m].variable_name@);
                                if m < e0.len() {
                                    assert(entries@[m] == e0[m]);
                                    assert(e0[m].variable_name@ != x) by {
                                        assert(usage_names(e0).contains(e0[m].variable_name@)) by {
                                            assert(usage_names(e0)[m] == e0[m].variable_name@);
                                        }
                                    }
                                } else {
                                    assert(users_of(sel, x) + seq![s.name@] =~= seq![s.name@]);
                                }
                            }
                            assert forall|v: Seq<char>| #[trigger] usage_names(entries@).contains(v) <==> (uses_variable(sel, v) || vs.take(j + 1).contains(v)) by {
                                lemma_push_contains(vs.take(j as int), x, v);
                                lemma_push_contains(usage_names(e0), x, v);
                            }
                        }
                    },
                }
                j = j + 1;
            }
            proof {
                assert(vs.take(j as int) =~= vs);
                let sel2 = selected_scripts(scripts@.take(i + 1), idv);
                assert(sel2 == sel.push(s));
                assert(sel2.drop_last() =~= sel);
                assert forall|k: int| 0 <= k < entries@.len() implies views((#[trigger] entries@[k]).script_names@) == users_of(
                    sel2,
                    entries@[k].variable_name@,
                ) by {
                    lemma_dedup_contains(pn, entries@[k].variable_name@);
                    if !pn.contains(entries@[k].variable_name@) {
                        assert(users_of(sel, entries@[k].variable_name@) + Seq::<Seq<char>>::empty() =~= users_of(sel, entries@[k].variable_name@));
                    }
                }
                assert forall|v: Seq<char>| #[trigger] usage_names(entries@).contains(v) <==> uses_variable(sel2, v) by {
                    lemma_dedup_contains(pn, v);
                    lemma_uses_variable_push(sel, s, v);
                }
            }
        } else {
            proof {
                assert(!idv.contains(s.id@));
                assert(selected_scripts(scripts@.take(i + 1), idv) == sel);
            }
        }
        i = i + 1;
    }
    assert(scripts@.take(i as int) =~= scripts@);
    let r = sort_usage(&entries);
    proof {
        let sel = selected_scripts(scripts@, idv);
        assert forall|a: int| 0 <= a < r@.len() implies views((#[trigger] r@[a]).script_names@) == users_of(sel, r@[a].variable_name@) by {
            let pm = choose|pm: Seq<int>| #[trigger] usage_drawn_from(r@, entries@, pm);
            assert(0 <= pm[a] < entries@.len());
        }
    }
    r
}

// ---------------------------------------------------------------------------
// Filling in variables
// ---------------------------------------------------------------------------
/// A placeholder for `name` as written in content: `{{name}}`.
pub open spec fn placeholder_text(name: Seq<char>) -> Seq<char> {
    seq!['{', '{'] + name + seq!['}', '}']
}

/// The placeholder text for `name`.
fn placeholder_for(name: &str) -> (r: String)
    ensures
        r@ == placeholder_text(name@),
{
    let mut r = String::new();
    crate::text::push_char(&mut r, '{');
    crate::text::push_char(&mut r, '{');
    crate::text::push_str(&mut r, name);
    crate::text::push_char(&mut r, '}');
    crate::text::push_char(&mut r, '}');
    assert(r@ =~= placeholder_text(name@));
    r
}

/// `content` with every placeholder replaced by its value in `variables`,
/// else by its default, else left as `{{name}}`.
pub fn replace_script_variables(content: &str, variables: &ValueMap) -> (r: String)
    ensures
        exists|pieces: Seq<Seq<char>>|
            {
                &&& pieces.len() == spans(content@).len()
                &&& r@ == rendered(content@, pieces)
                &&& forall|k: int|
                    0 <= k < pieces.len() ==> pieces[k] == replacement(
                        content@,
                        #[trigger] spans(content@)[k],
                        variables.view(),
                        placeholder_text(span_name(content@, spans(content@)[k])),
                    )
            },
{
    let keep = |name: &str| -> (out: String)
        ensures
            out@ == placeholder_text(name@),
        { placeholder_for(name) };
    let r = replace_variables(content, variables, keep);
    proof {
        let pieces = choose|pieces: Seq<Seq<char>>|
            {
                &&& pieces.len() == spans(content@).len()
                &&& r@ == rendered(content@, pieces)
                &&& forall|k: int|
                    0 <= k < pieces.len() ==> piece_for(
                        content@,
                        #[trigger] spans(content@)[k],
                        variables.view(),
                        keep,
                        pieces[k],
                    )
            };
        assert forall|k: int| 0 <= k < pieces.len() implies pieces[k] == replacement(
            content@,
            #[trigger] spans(content@)[k],
            variables.view(),
            placeholder_text(span_name(content@, spans(content@)[k])),
        ) by {
            let sp = spans(content@)[k];
            assert(piece_for(content@, sp, variables.view(), keep, pieces[k]));
            if !variables.view().contains_key(span_name(content@, sp)) && span_default(content@, sp) is None {
                let (arg, out) = choose|arg: &str, out: String|
                    arg@ == span_name(content@, sp) && call_ensures(keep, (arg,), out) && out@ == pieces[k];
                assert(out@ == placeholder_text(arg@));
            }
        }
    }
    r
}

} // verus!
