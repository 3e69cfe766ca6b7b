//! The stored data apart from reading and writing it: the example scripts and
//! templates of a new data folder, and merging imported data into the stored
//! data.
use vstd::prelude::*;
use crate::clock::{generate_uuid, is_uuid_v4_text};
use crate::data::{copy_template, ids_view, same_template, Script, Template};
use crate::tags::{script_tags, template_tags, TagManager};
use crate::text::{contains_string, non_empty, views};
use crate::value_map::ValueMap;

verus! {

/// The fields of the `i`-th example script: id, name, tags, content, use count
/// and whether it is a favourite.
pub open spec fn default_script_fields(i: int) -> (Seq<char>, Seq<char>, Seq<char>, Seq<char>, u32, bool) {
    if i == 0 {
        (
            "example_001"@,
            "Code Review Prompt"@,
            "development/review"@,
            "Please review the following {{language:Python}} code from {{project_name}}:\n\n{{code}}\n\nFocus on: {{focus_areas:performance, security, readability}}"@,
            15,
            true,
        )
    } else if i == 1 {
        (
            "example_002"@,
            "Bug Fix Analysis"@,
            "development/debugging"@,
            "I have a bug in my {{language:JavaScript}} code:\n\nBug Description: {{bug_description}}\n\nRelevant Code:\n{{code}}\n\nExpected Behavior: {{expected_behavior}}\nActual Behavior: {{actual_behavior}}\n\nPlease help me identify and fix the issue."@,
            8,
            false,
        )
    } else if i == 2 {
        (
            "example_003"@,
            "API Documentation Request"@,
            "development/documentation"@,
            "Generate comprehensive API documentation for the following {{language:TypeScript}} function:\n\n{{code}}\n\nInclude:\n- Function description\n- Parameters with types and descriptions\n- Return value\n- Usage examples\n- Potential errors"@,
            12,
            false,
        )
    } else if i == 3 {
        (
            "example_004"@,
            "Test Case Generator"@,
            "development/testing"@,
            "Create comprehensive test cases for:\n\nFunction/Module: {{module_name}}\nLanguage: {{language:Python}}\nFramework: {{test_framework:pytest}}\n\nCode:\n{{code}}\n\nPlease include:\n- Unit tests for normal cases\n- Edge case tests\n- Error handling tests\n- Mock dependencies as needed"@,
            5,
            false,
        )
    } else {
        (
            "example_005"@,
            "Learning Resource Generator"@,
            "learning/tutorials"@,
            "Create a comprehensive learning guide for {{topic}}.\n\nTarget Audience: {{audience:Beginner}}\nFormat: {{format:Step-by-step tutorial}}\n\nInclude:\n1. Introduction and prerequisites\n2. Core concepts explanation\n3. Practical examples\n4. Common pitfalls and best practices\n5. Additional resources"@,
            10,
            false,
        )
    }
}

/// The time stamp the examples were written at.
pub open spec fn example_time() -> Seq<char> {
    "2025-10-24T00:00:00Z"@
}

/// `s` is the `i`-th example script, last used at `now`.
pub open spec fn is_default_script(s: Script, i: int, now: Seq<char>) -> bool {
    let f = default_script_fields(i);
    &&& s.id@ == f.0
    &&& s.name@ == f.1
    &&& s.tags@ == f.2
    &&& s.content@ == f.3
    &&& s.created_at@ == example_time()
    &&& s.updated_at@ == example_time()
    &&& s.use_count == f.4
    &&& s.last_used@ == now
    &&& s.is_favorite == f.5
}

fn example_script(
    id: &str,
    name: &str,
    tags: &str,
    content: &str,
    use_count: u32,
    is_favorite: bool,
    now: &str,
) -> (r: Script)
    ensures
        r.id@ == id@,
        r.name@ == name@,
        r.tags@ == tags@,
        r.content@ == content@,
        r.created_at@ == example_time(),
        r.updated_at@ == example_time(),
        r.use_count == use_count,
        r.last_used@ == now@,
        r.is_favorite == is_favorite,
{
    Script {
        id: id.to_owned(),
        name: name.to_owned(),
        tags: tags.to_owned(),
        content: content.to_owned(),
        created_at: "2025-10-24T00:00:00Z".to_owned(),
        updated_at: "2025-10-24T00:00:00Z".to_owned(),
        use_count,
        last_used: now.to_owned(),
        is_favorite,
    }
}

/// The five example scripts of a new data folder, last used at `now`.
pub fn default_scripts(now: &str) -> (r: Vec<Script>)
    ensures
        r@.len() == 5,
        forall|i: int| 0 <= i < 5 ==> is_default_script(#[trigger] r@[i], i, now@),
{
    let mut r: Vec<Script> = Vec::new();
    r.push(example_script(
        "example_001",
        "Code Review Prompt",
        "development/review",
        "Please review the following {{language:Python}} code from {{project_name}}:\n\n{{code}}\n\nFocus on: {{focus_areas:performance, security, readability}}",
        15,
        true,
        now,
    ));
    r.push(example_script(
        "example_002",
        "Bug Fix Analysis",
        "development/debugging",
        "I have a bug in my {{language:JavaScript}} code:\n\nBug Description: {{bug_description}}\n\nRelevant Code:\n{{code}}\n\nExpected Behavior: {{expected_behavior}}\nActual Behavior: {{actual_behavior}}\n\nPlease help me identify and fix the issue.",
        8,
        false,
        now,
    ));
    r.push(example_script(
        "example_003",
        "API Documentation Request",
        "development/documentation",
        "Generate comprehensive API documentation for the following {{language:TypeScript}} function:\n\n{{code}}\n\nInclude:\n- Function description\n- Parameters with types and descriptions\n- Return value\n- Usage examples\n- Potential errors",
        12,
        false,
        now,
    ));
    r.push(example_script(
        "example_004",
        "Test Case Generator",
        "development/testing",
        "Create comprehensive test cases for:\n\nFunction/Module: {{module_name}}\nLanguage: {{language:Python}}\nFramework: {{test_framework:pytest}}\n\nCode:\n{{code}}\n\nPlease include:\n- Unit tests for normal cases\n- Edge case tests\n- Error handling tests\n- Mock dependencies as needed",
        5,
        false,
        now,
    ));
    r.push(example_script(
        "example_005",
        "Learning Resource Generator",
        "learning/tutorials",
        "Create a comprehensive learning guide for {{topic}}.\n\nTarget Audience: {{audience:Beginner}}\nFormat: {{format:Step-by-step tutorial}}\n\nInclude:\n1. Introduction and prerequisites\n2. Core concepts explanation\n3. Practical examples\n4. Common pitfalls and best practices\n5. Additional resources",
        10,
        false,
        now,
    ));
    r
}

/// The fields of the `i`-th example template: id, name, tags, script ids, use
/// count and whether it is a favourite.
pub open spec fn default_template_fields(i: int) -> (Seq<char>, Seq<char>, Seq<char>, Seq<Seq<char>>, u32, bool) {
    if i == 0 {
        (
            "template_example_001"@,
            "Complete Code Review Workflow"@,
            "workflow/review"@,
            seq!["example_001"@, "example_003"@, "example_004"@],
            8,
            true,
        )
    } else {
        (
            "template_example_002"@,
            "Bug Investigation Process"@,
            "workflow/debugging"@,
            seq!["example_002"@, "example_004"@],
            5,
            false,
        )
    }
}

/// `t` is the `i`-th example template, last used at `now`.
pub open spec fn is_default_template(t: Template, i: int, now: Seq<char>) -> bool {
    let f = default_template_fields(i);
    &&& t.id@ == f.0
    &&& t.name@ == f.1
    &&& t.tags@ == f.2
    &&& ids_view(t.script_ids@) == f.3
    &&& t.variable_values.view() == Map::<Seq<char>, Seq<char>>::empty()
    &&& t.created_at@ == example_time()
    &&& t.updated_at@ == example_time()
    &&& t.use_count == f.4
    &&& t.last_used@ == now
    &&& t.is_favorite == f.5
    &&& t.category@.len() == 0
}

fn example_template(
    id: &str,
    name: &str,
    tags: &str,
    script_ids: Vec<String>,
    use_count: u32,
    is_favorite: bool,
    now: &str,
) -> (r: Template)
    ensures
        r.id@ == id@,
        r.name@ == name@,
        r.tags@ == tags@,
        r.script_ids@ == script_ids@,
        r.variable_values.view() == Map::<Seq<char>, Seq<char>>::empty(),
        r.created_at@ == example_time(),
        r.updated_at@ == example_time(),
        r.use_count == use_count,
        r.last_used@ == now@,
        r.is_favorite == is_favorite,
        r.category@.len() == 0,
{
    Template {
        id: id.to_owned(),
        name: name.to_owned(),
        tags: tags.to_owned(),
        script_ids,
        variable_values: ValueMap::new(),
        created_at: "2025-10-24T00:00:00Z".to_owned(),
        updated_at: "2025-10-24T00:00:00Z".to_owned(),
        use_count,
        last_used: now.to_owned(),
        is_favorite,
        category: String::new(),
    }
}

/// The two example templates of a new data folder, last used at `now`.
pub fn default_templates(now: &str) -> (r: Vec<Template>)
    ensures
        r@.len() == 2,
        forall|i: int| 0 <= i < 2 ==> is_default_template(#[trigger] r@[i], i, now@),
{
    let mut ids1: Vec<String> = Vec::new();
    ids1.push("example_001".to_owned());
    ids1.push("example_003".to_owned());
    ids1.push("example_004".to_owned());
    assert(ids_view(ids1@) =~= seq!["example_001"@, "example_003"@, "example_004"@]);
    let mut ids2: Vec<String> = Vec::new();
    ids2.push("example_002".to_owned());
    ids2.push("example_004".to_owned());
    assert(ids_view(ids2@) =~= seq!["example_002"@, "example_004"@]);
    let mut r: Vec<Template> = Vec::new();
    r.push(example_template("template_example_001", "Complete Code Review Workflow", "workflow/review", ids1, 8, true, now));
    r.push(example_template("template_example_002", "Bug Investigation Process", "workflow/debugging", ids2, 5, false, now));
    r
}

// ---------------------------------------------------------------------------
// Merging imported data
// ---------------------------------------------------------------------------
/// The ids of scripts.
pub open spec fn script_ids_of(s: Seq<Script>) -> Seq<Seq<char>> {
    s.map_values(|x: Script| x.id@)
}

/// The ids of templates.
pub open spec fn template_ids_of(s: Seq<Template>) -> Seq<Seq<char>> {
    s.map_values(|x: Template| x.id@)
}

/// The ids that imported items keep or get: an item keeps its id unless the
/// stored items (`used`) or an earlier imported item already have it; then it
/// gets the fresh id given for it.
pub open spec fn import_ids(used: Seq<Seq<char>>, ids: Seq<Seq<char>>, fresh: Seq<Seq<char>>) -> Seq<Seq<char>>
    decreases ids.len(),
{
    if ids.len() == 0 {
        seq![]
    } else {
        let prev = import_ids(used, ids.drop_last(), fresh);
        let id = ids.last();
        prev.push(
            if (used + prev).contains(id) {
                fresh[ids.len() - 1]
            } else {
                id
            },
        )
    }
}

/// Where each imported id went: to the id of its last import.
pub open spec fn id_moves(ids: Seq<Seq<char>>, finals: Seq<Seq<char>>) -> Map<Seq<char>, Seq<char>>
    decreases ids.len(),
{
    if ids.len() == 0 || finals.len() == 0 {
        Map::empty()
    } else {
        id_moves(ids.drop_last(), finals.drop_last()).insert(ids.last(), finals.last())
    }
}

/// An id after the moves: where it went, or itself.
pub open spec fn moved(moves: Map<Seq<char>, Seq<char>>, id: Seq<char>) -> Seq<char> {
    if moves.contains_key(id) {
        moves[id]
    } else {
        id
    }
}

/// `a` is `b` with another id.
pub open spec fn same_script_but_id(a: Script, b: Script) -> bool {
    a == Script { id: a.id, ..b }
}

/// `a` is `b` with another id and other script ids.
pub open spec fn same_template_but_ids(a: Template, b: Template) -> bool {
    &&& a.name@ == b.name@
    &&& a.tags@ == b.tags@
    &&& a.variable_values.view() == b.variable_values.view()
    &&& a.variable_values.entries_view() == b.variable_values.entries_view()
    &&& a.created_at@ == b.created_at@
    &&& a.updated_at@ == b.updated_at@
    &&& a.use_count == b.use_count
    &&& a.last_used@ == b.last_used@
    &&& a.is_favorite == b.is_favorite
    &&& a.category@ == b.category@
}

/// The stored scripts and templates after importing `is` and `it`, with the
/// fresh ids `fs` and `ft` for imported items whose ids are taken: the stored
/// items first, then the imported ones with their ids (see `import_ids`), and
/// the imported templates' script ids moved with the imported scripts (see
/// `id_moves`).
pub open spec fn merged(
    es: Seq<Script>,
    et: Seq<Template>,
    is: Seq<Script>,
    it: Seq<Template>,
    fs: Seq<Seq<char>>,
    ft: Seq<Seq<char>>,
    rs: Seq<Script>,
    rt: Seq<Template>,
) -> bool {
    let sid = import_ids(script_ids_of(es), script_ids_of(is), fs);
    let tid = import_ids(template_ids_of(et), template_ids_of(it), ft);
    let moves = id_moves(script_ids_of(is), sid);
    &&& rs.len() == es.len() + is.len()
    &&& rs.take(es.len() as int) == es
    &&& forall|i: int|
        0 <= i < is.len() ==> {
            &&& same_script_but_id(#[trigger] rs[es.len() + i], is[i])
            &&& rs[es.len() + i].id@ == sid[i]
        }
    &&& rt.len() == et.len() + it.len()
    &&& forall|i: int| 0 <= i < et.len() ==> same_template(#[trigger] rt[i], et[i])
    &&& forall|i: int|
        0 <= i < it.len() ==> {
            &&& same_template_but_ids(#[trigger] rt[et.len() + i], it[i])
            &&& rt[et.len() + i].id@ == tid[i]
            &&& ids_view(rt[et.len() + i].script_ids@) == ids_view(it[i].script_ids@).map_values(
                |x: Seq<char>| moved(moves, x),
            )
        }
}

pub proof fn lemma_import_ids_len(used: Seq<Seq<char>>, ids: Seq<Seq<char>>, fresh: Seq<Seq<char>>)
    ensures
        import_ids(used, ids, fresh).len() == ids.len(),
    decreases ids.len(),
{
    if ids.len() > 0 {
        lemma_import_ids_len(used, ids.drop_last(), fresh);
    }
}

/// The script ids after the moves.
fn move_ids(ids: &Vec<String>, moves: &ValueMap) -> (r: Vec<String>)
    ensures
        ids_view(r@) == ids_view(ids@).map_values(|x: Seq<char>| moved(moves.view(), x)),
{
    let mut r: Vec<String> = Vec::new();
    let mut i: usize = 0;
    while i < ids.len()
        invariant
            i <= ids@.len(),
            ids_view(r@) == ids_view(ids@).map_values(|x: Seq<char>| moved(moves.view(), x)).take(i as int),
        decreases ids@.len() - i,
    {
        let ghost prev = r@;
        let v = match moves.get(ids[i].as_str()) {
            Some(m) => m.clone(),
            None => ids[i].clone(),
        };
        r.push(v);
        assert(ids_view(r@) =~= ids_view(prev).push(v@));
        assert(ids_view(ids@)[i as int] == ids@[i as int]@);
        assert(ids_view(ids@).map_values(|x: Seq<char>| moved(moves.view(), x)).take(i + 1) =~= ids_view(
            ids@,
        ).map_values(|x: Seq<char>| moved(moves.view(), x)).take(i as int).push(moved(moves.view(), ids@[i as int]@)));
        i = i + 1;
    }
    assert(ids_view(ids@).map_values(|x: Seq<char>| moved(moves.view(), x)).take(i as int) =~= ids_view(ids@).map_values(
        |x: Seq<char>| moved(moves.view(), x),
    ));
    r
}

/// Merges imported scripts and templates into the stored ones (see
/// `merged`), using `fresh_script_ids` and `fresh_template_ids` for imported
/// items whose ids are taken, and builds the tag tree from the scripts and
/// then the templates.
pub fn merge_import_with_ids(
    existing_scripts: Vec<Script>,
    existing_templates: Vec<Template>,
    imported_scripts: &Vec<Script>,
    imported_templates: &Vec<Template>,
    fresh_script_ids: &Vec<String>,
    fresh_template_ids: &Vec<String>,
) -> (r: (Vec<Script>, Vec<Template>, TagManager))
    requires
        fresh_script_ids@.len() == imported_scripts@.len(),
        fresh_template_ids@.len() == imported_templates@.len(),
        existing_scripts@.len() + imported_scripts@.len() + existing_templates@.len() + imported_templates@.len()
            < usize::MAX,
    ensures
        merged(
            existing_scripts@,
            existing_templates@,
            imported_scripts@,
            imported_templates@,
            views(fresh_script_ids@),
            views(fresh_template_ids@),
            r.0@,
            r.1@,
        ),
        r.2.tag_history() == non_empty(script_tags(r.0@)) + non_empty(template_tags(r.1@)),
{
    let ghost es = existing_scripts@;
    let ghost et = existing_templates@;
    let ghost is = imported_scripts@;
    let ghost it = imported_templates@;
    let ghost fs = views(fresh_script_ids@);
    let ghost ft = views(fresh_template_ids@);
    // scripts
    let mut used: Vec<String> = Vec::new();
    let mut k: usize = 0;
    while k < existing_scripts.len()
        invariant
            k <= es.len(),
            existing_scripts@ == es,
            views(used@) == script_ids_of(es).take(k as int),
        decreases es.len() - k,
    {
        let ghost prev = used@;
        used.push(existing_scripts[k].id.clone());
        assert(views(used@) =~= views(prev).push(es[k as int].id@));
        assert(script_ids_of(es).take(k + 1) =~= script_ids_of(es).take(k as int).push(es[k as int].id@));
        k = k + 1;
    }
    assert(script_ids_of(es).take(k as int) =~= script_ids_of(es));
    let mut scripts = existing_scripts;
    let mut moves = ValueMap::new();
    let ghost sids = script_ids_of(is);
    let mut i: usize = 0;
    proof {
        assert(import_ids(script_ids_of(es), sids.take(0), fs) =~= Seq::<Seq<char>>::empty());
        assert(scripts@.take(es.len() as int) =~= es);
        assert(id_moves(sids.take(0), Seq::<Seq<char>>::empty()) =~= Map::<Seq<char>, Seq<char>>::empty());
    }
    while i < imported_scripts.len()
        invariant
            i <= is.len(),
            is == imported_scripts@,
            fs == views(fresh_script_ids@),
            fs.len() == is.len(),
            sids == script_ids_of(is),
            views(used@) == script_ids_of(es) + import_ids(script_ids_of(es), sids.take(i as int), fs),
            import_ids(script_ids_of(es), sids.take(i as int), fs).len() == i,
            moves.view() == id_moves(sids.take(i as int), import_ids(script_ids_of(es), sids.take(i as int), fs)),
            scripts@.len() == es.len() + i,
            scripts@.take(es.len() as int) == es,
            forall|j: int|
                0 <= j < i ==> {
                    &&& same_script_but_id(#[trigger] scripts@[es.len() + j], is[j])
                    &&& scripts@[es.len() + j].id@ == import_ids(script_ids_of(es), sids.take(i as int), fs)[j]
                },
            es.len() + is.len() + et.len() + it.len() < usize::MAX,
        decreases is.len() - i,
    {
        let ghost prev_ids = import_ids(script_ids_of(es), sids.take(i as int), fs);
        let taken = contains_string(&used, &imported_scripts[i].id);
        let final_id = if taken {
            fresh_script_ids[i].clone()
        } else {
            imported_scripts[i].id.clone()
        };
        proof {
            assert(sids.take(i + 1).drop_last() =~= sids.take(i as int));
            assert(sids.take(i + 1).last() == is[i as int].id@);
            assert(views(used@) =~= used@.map_values(|x: String| x@));
            assert(fs[i as int] == fresh_script_ids@[i as int]@);
            assert(import_ids(script_ids_of(es), sids.take(i + 1), fs) == prev_ids.push(final_id@));
        }
        let ghost prev_used = used@;
        used.push(final_id.clone());
        assert(views(used@) =~= views(prev_used).push(final_id@));
        moves.insert(imported_scripts[i].id.clone(), final_id.clone());
        let ghost s_before = scripts@;
        let mut s = crate::data::copy_script(&imported_scripts[i]);
        s.id = final_id;
        scripts.push(s);
        proof {
            let ni = import_ids(script_ids_of(es), sids.take(i + 1), fs);
            assert(ni.take(i as int) =~= prev_ids);
            assert forall|j: int| 0 <= j < i + 1 implies {
                &&& same_script_but_id(#[trigger] scripts@[es.len() + j], is[j])
                &&& scripts@[es.len() + j].id@ == ni[j]
            } by {
                if j < i {
                    assert(scripts@[es.len() + j] == s_before[es.len() + j]);
                    assert(ni[j] == prev_ids[j]);
                }
            }
            assert(scripts@.take(es.len() as int) =~= s_before.take(es.len() as int));
        }
        i = i + 1;
    }
    let ghost sid = import_ids(script_ids_of(es), sids, fs);
    proof {
        assert(sids.take(i as int) =~= sids);
    }
    // templates
    let mut tused: Vec<String> = Vec::new();
    let mut k: usize = 0;
    while k < existing_templates.len()
        invariant
            k <= et.len(),
            existing_templates@ == et,
            views(tused@) == template_ids_of(et).take(k as int),
        decreases et.len() - k,
    {
        let ghost prev = tused@;
        tused.push(existing_templates[k].id.clone());
        assert(views(tused@) =~= views(prev).push(et[k as int].id@));
        assert(template_ids_of(et).take(k + 1) =~= template_ids_of(et).take(k as int).push(et[k as int].id@));
        k = k + 1;
    }
    assert(template_ids_of(et).take(k as int) =~= template_ids_of(et));
    let mut templates: Vec<Template> = Vec::new();
    let mut k: usize = 0;
    while k < existing_templates.len()
        invariant
            k <= et.len(),
            existing_templates@ == et,
            templates@.len() == k,
            forall|j: int| 0 <= j < k ==> same_template(#[trigger] templates@[j], et[j]),
        decreases et.len() - k,
    {
        templates.push(copy_template(&existing_templates[k]));
        k = k + 1;
    }
    let ghost tids = template_ids_of(it);
    let ghost mv = moves.view();
    let mut i: usize = 0;
    proof {
        assert(import_ids(template_ids_of(et), tids.take(0), ft) =~= Seq::<Seq<char>>::empty());
    }
    while i < imported_templates.len()
        invariant
            i <= it.len(),
            it == imported_templates@,
            ft == views(fresh_template_ids@),
            ft.len() == it.len(),
            tids == template_ids_of(it),
            mv == moves.view(),
            views(tused@) == template_ids_of(et) + import_ids(template_ids_of(et), tids.take(i as int), ft),
            import_ids(template_ids_of(et), tids.take(i as int), ft).len() == i,
            templates@.len() == et.len() + i,
            forall|j: int| 0 <= j < et.len() ==> same_template(#[trigger] templates@[j], et[j]),
            forall|j: int|
                0 <= j < i ==> {
                    &&& same_template_but_ids(#[trigger] templates@[et.len() + j], it[j])
                    &&& templates@[et.len() + j].id@ == import_ids(template_ids_of(et), tids.take(i as int), ft)[j]
                    &&& ids_view(templates@[et.len() + j].script_ids@) == ids_view(it[j].script_ids@).map_values(
                        |x: Seq<char>| moved(mv, x),
                    )
                },
        decreases it.len() - i,
    {
        let ghost prev_ids = import_ids(template_ids_of(et), tids.take(i as int), ft);
        let taken = contains_string(&tused, &imported_templates[i].id);
        let final_id = if taken {
            fresh_template_ids[i].clone()
        } else {
            imported_templates[i].id.clone()
        };
        proof {
            assert(tids.take(i + 1).drop_last() =~= tids.take(i as int));
            assert(tids.take(i + 1).last() == it[i as int].id@);
            assert(views(tused@) =~= tused@.map_values(|x: String| x@));
            assert(ft[i as int] == fresh_template_ids@[i as int]@);
            assert(import_ids(template_ids_of(et), tids.take(i + 1), ft) == prev_ids.push(final_id@));
        }
        let ghost prev_used = tused@;
        tused.push(final_id.clone());
        assert(views(tused@) =~= views(prev_used).push(final_id@));
        let ghost t_before = templates@;
        let mut t = copy_template(&imported_templates[i]);
        t.id = final_id;
        t.script_ids = move_ids(&imported_templates[i].script_ids, &moves);
        templates.push(t);
        proof {
            let ni = import_ids(template_ids_of(et), tids.take(i + 1), ft);
            assert(ni.take(i as int) =~= prev_ids);
            assert forall|j: int| 0 <= j < i + 1 implies {
                &&& same_template_but_ids(#[trigger] templates@[et.len() + j], it[j])
                &&& templates@[et.len() + j].id@ == ni[j]
                &&& ids_view(templates@[et.len() + j].script_ids@) == ids_view(it[j].script_ids@).map_values(
                    |x: Seq<char>| moved(mv, x),
                )
            } by {
                if j < i {
                    assert(templates@[et.len() + j] == t_before[et.len() + j]);
                    assert(ni[j] == prev_ids[j]);
                }
            }
            assert forall|j: int| 0 <= j < et.len() implies same_template(#[trigger] templates@[j], et[j]) by {
                assert(templates@[j] == t_before[j]);
            }
        }
        i = i + 1;
    }
    proof {
        assert(tids.take(i as int) =~= tids);
        assert(mv == id_moves(sids, sid));
    }
    let mut tags = TagManager::new();
    tags.update_from_scripts(scripts.as_slice());
    proof {
        crate::tags::lemma_non_empty_len(script_tags(scripts@));
    }
    tags.update_from_templates(templates.as_slice());
    (scripts, templates, tags)
}

/// Merges imported scripts and templates into the stored ones (see
/// `merge_import_with_ids`), with a fresh random id for each imported item
/// whose id is taken.
pub fn merge_import(
    existing_scripts: Vec<Script>,
    existing_templates: Vec<Template>,
    imported_scripts: &Vec<Script>,
    imported_templates: &Vec<Template>,
) -> (r: (Vec<Script>, Vec<Template>, TagManager))
    requires
        existing_scripts@.len() + imported_scripts@.len() + existing_templates@.len() + imported_templates@.len()
            < usize::MAX,
    ensures
        exists|fs: Seq<Seq<char>>, ft: Seq<Seq<char>>|
            {
                &&& fs.len() == imported_scripts@.len()
                &&& ft.len() == imported_templates@.len()
                &&& forall|i: int| 0 <= i < fs.len() ==> is_uuid_v4_text(#[trigger] fs[i])
                &&& forall|i: int| 0 <= i < ft.len() ==> is_uuid_v4_text(#[trigger] ft[i])
                &&& #[trigger] merged(
                    existing_scripts@,
                    existing_templates@,
                    imported_scripts@,
                    imported_templates@,
                    fs,
                    ft,
                    r.0@,
                    r.1@,
                )
            },
        r.2.tag_history() == non_empty(script_tags(r.0@)) + non_empty(template_tags(r.1@)),
{
    let mut fs: Vec<String> = Vec::new();
    let mut i: usize = 0;
    while i < imported_scripts.len()
        invariant
            i <= imported_scripts@.len(),
            fs@.len() == i,
            forall|j: int| 0 <= j < i ==> is_uuid_v4_text((#[trigger] fs@[j])@),
        decreases imported_scripts@.len() - i,
    {
        fs.push(generate_uuid());
        i = i + 1;
    }
    let mut ft: Vec<String> = Vec::new();
    let mut i: usize = 0;
    while i < imported_templates.len()
        invariant
            i <= imported_templates@.len(),
            ft@.len() == i,
            forall|j: int| 0 <= j < i ==> is_uuid_v4_text((#[trigger] ft@[j])@),
        decreases imported_templates@.len() - i,
    {
        ft.push(generate_uuid());
        i = i + 1;
    }
    let ghost es = existing_scripts@;
    let ghost et = existing_templates@;
    let r = merge_import_with_ids(existing_scripts, existing_templates, imported_scripts, imported_templates, &fs, &ft);
    proof {
        let a = views(fs@);
        let b = views(ft@);
        assert forall|i: int| 0 <= i < a.len() implies is_uuid_v4_text(#[trigger] a[i]) by {
            assert(a[i] == fs@[i]@);
        }
        assert forall|i: int| 0 <= i < b.len() implies is_uuid_v4_text(#[trigger] b[i]) by {
            assert(b[i] == ft@[i]@);
        }
        assert(merged(es, et, imported_scripts@, imported_templates@, a, b, r.0@, r.1@));
    }
    r
}

} // verus!
