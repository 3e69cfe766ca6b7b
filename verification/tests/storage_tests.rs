use scripted_prompt_lib::data::{Script, Template};
use scripted_prompt_lib::storage::{default_scripts, default_templates, merge_import, merge_import_with_ids};
use scripted_prompt_lib::value_map::ValueMap;

fn script(id: &str, tags: &str) -> Script {
    Script {
        id: id.to_string(),
        name: format!("S {id}"),
        tags: tags.to_string(),
        content: String::new(),
        created_at: "c".to_string(),
        updated_at: "u".to_string(),
        use_count: 2,
        last_used: "l".to_string(),
        is_favorite: true,
    }
}

fn template(id: &str, tags: &str, script_ids: &[&str]) -> Template {
    Template {
        id: id.to_string(),
        name: format!("T {id}"),
        tags: tags.to_string(),
        script_ids: script_ids.iter().map(|s| s.to_string()).collect(),
        variable_values: ValueMap::new(),
        created_at: "c".to_string(),
        updated_at: "u".to_string(),
        use_count: 0,
        last_used: "l".to_string(),
        is_favorite: false,
        category: String::new(),
    }
}

fn strings(v: &[&str]) -> Vec<String> {
    v.iter().map(|s| s.to_string()).collect()
}

#[test]
fn example_scripts_and_templates() {
    let scripts = default_scripts("NOW");
    assert_eq!(scripts.len(), 5);
    assert_eq!(scripts[0].id, "example_001");
    assert_eq!(scripts[0].name, "Code Review Prompt");
    assert_eq!(scripts[0].tags, "development/review");
    assert_eq!(scripts[0].use_count, 15);
    assert!(scripts[0].is_favorite);
    assert_eq!(scripts[0].last_used, "NOW");
    assert_eq!(scripts[0].created_at, "2025-10-24T00:00:00Z");
    assert_eq!(scripts[4].tags, "learning/tutorials");
    assert_eq!(scripts[4].use_count, 10);
    let templates = default_templates("NOW");
    assert_eq!(templates.len(), 2);
    assert_eq!(templates[0].id, "template_example_001");
    assert_eq!(templates[0].script_ids, strings(&["example_001", "example_003", "example_004"]));
    assert_eq!(templates[1].script_ids, strings(&["example_002", "example_004"]));
    assert_eq!(templates[1].tags, "workflow/debugging");
}

#[test]
fn merge_keeps_free_ids_and_renames_taken_ones() {
    let existing_scripts = vec![script("a", "x/y")];
    let existing_templates = vec![template("t", "w", &["a"])];
    let imported_scripts = vec![script("a", "i1"), script("b", "i2"), script("b", "i3")];
    let imported_templates = vec![template("t", "k", &["a", "b", "zz"]), template("u", "", &[])];
    let (scripts, templates, tags) = merge_import_with_ids(
        existing_scripts,
        existing_templates,
        &imported_scripts,
        &imported_templates,
        &strings(&["fa", "fb1", "fb2"]),
        &strings(&["ft", "fu"]),
    );
    let ids: Vec<&str> = scripts.iter().map(|s| s.id.as_str()).collect();
    assert_eq!(ids, vec!["a", "fa", "b", "fb2"]);
    assert_eq!(scripts[1].tags, "i1");
    assert!(scripts[1].is_favorite);
    let tids: Vec<&str> = templates.iter().map(|t| t.id.as_str()).collect();
    assert_eq!(tids, vec!["t", "ft", "u"]);
    assert_eq!(templates[0].script_ids, strings(&["a"]));
    // "b" was imported twice: it goes where its last import went.
    assert_eq!(templates[1].script_ids, strings(&["fa", "fb2", "zz"]));
    let mut names: Vec<String> = tags.get_all_tags().into_iter().map(|(t, _)| t).collect();
    names.sort();
    assert_eq!(names, strings(&["i1", "i2", "i3", "k", "w", "x/y"]));
}

#[test]
fn merge_with_random_ids() {
    let (scripts, templates, _tags) = merge_import(
        vec![script("a", "")],
        vec![],
        &vec![script("a", ""), script("c", "")],
        &vec![template("t", "", &["a", "c"])],
    );
    assert_eq!(scripts.len(), 3);
    assert_eq!(scripts[0].id, "a");
    assert_eq!(scripts[1].id.len(), 36);
    assert_ne!(scripts[1].id, "a");
    assert_eq!(scripts[2].id, "c");
    assert_eq!(templates[0].id, "t");
    assert_eq!(templates[0].script_ids, vec![scripts[1].id.clone(), "c".to_string()]);
}

#[test]
fn import_into_empty_storage_keeps_everything() {
    let imported_scripts = vec![script("a", "x"), script("b", "y/z")];
    let imported_templates = vec![template("t", "w", &["b", "a"]), template("u", "", &["a"])];
    let (scripts, templates, _tags) = merge_import(vec![], vec![], &imported_scripts, &imported_templates);
    let ids: Vec<&str> = scripts.iter().map(|s| s.id.as_str()).collect();
    assert_eq!(ids, vec!["a", "b"]);
    assert_eq!(scripts[1].tags, "y/z");
    let tids: Vec<&str> = templates.iter().map(|t| t.id.as_str()).collect();
    assert_eq!(tids, vec!["t", "u"]);
    assert_eq!(templates[0].script_ids, strings(&["b", "a"]));
    assert_eq!(templates[1].script_ids, strings(&["a"]));
}
