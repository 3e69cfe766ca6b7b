use scripted_prompt_lib::clipboard::ClipboardResult;
use scripted_prompt_lib::commands::{
    cascade_delete_tag_command, create_script, create_template, delete_script, delete_template,
    finish_script_copy, finish_template_copy, get_tag_delete_preview, get_tag_rename_preview,
    get_variable_usage_locations, rename_tag_segment_command, replace_script_variables, toggle_favorite_script,
    toggle_favorite_template, update_script, update_template,
};
use scripted_prompt_lib::data::{Script, Template};
use scripted_prompt_lib::history::HistoryManager;
use scripted_prompt_lib::tags::TagManager;
use scripted_prompt_lib::value_map::ValueMap;

fn script(id: &str, name: &str, tags: &str, content: &str) -> Script {
    Script {
        id: id.to_string(),
        name: name.to_string(),
        tags: tags.to_string(),
        content: content.to_string(),
        created_at: "c".to_string(),
        updated_at: "u".to_string(),
        use_count: 0,
        last_used: "l".to_string(),
        is_favorite: false,
    }
}

fn template(id: &str, tags: &str, script_ids: &[&str]) -> Template {
    Template {
        id: id.to_string(),
        name: format!("T {id}"),
        tags: tags.to_string(),
        script_ids: script_ids.iter().map(|s| s.to_string()).collect(),
        variable_values: ValueMap::new(),
        created_at: "c".to_string(),
        updated_at: "u".to_string(),
        use_count: 0,
        last_used: "l".to_string(),
        is_favorite: false,
        category: String::new(),
    }
}

fn tag_names(tags: &TagManager) -> Vec<String> {
    let mut v: Vec<String> = tags.get_all_tags().into_iter().map(|(t, _)| t).collect();
    v.sort();
    v
}

#[test]
fn create_update_delete_script() {
    let mut scripts = vec![];
    let mut tags = TagManager::new();
    let s = create_script(&mut scripts, &mut tags, "Name".to_string(), "a/b".to_string(), "Body".to_string());
    assert_eq!(scripts.len(), 1);
    assert_eq!(scripts[0].id, s.id);
    assert_eq!(s.id.len(), 36);
    assert_eq!(tag_names(&tags), vec!["a/b".to_string()]);

    assert_eq!(update_script(&mut scripts, &mut tags, &s.id, None, Some("c".to_string()), None), Ok(()));
    assert_eq!(scripts[0].tags, "c");
    assert_eq!(scripts[0].name, "Name");
    assert_eq!(tag_names(&tags), vec!["c".to_string()]);
    assert_eq!(
        update_script(&mut scripts, &mut tags, "missing", None, None, None),
        Err("Script not found".to_string())
    );

    let mut templates = vec![template("t1", "x", &[&s.id, "other", &s.id])];
    assert_eq!(delete_script(&mut scripts, &mut templates, &mut tags, "missing"), Err("Script not found".to_string()));
    assert_eq!(delete_script(&mut scripts, &mut templates, &mut tags, &s.id), Ok(()));
    assert!(scripts.is_empty());
    assert_eq!(templates[0].script_ids, vec!["other".to_string()]);
}

#[test]
fn create_update_delete_template() {
    let mut templates = vec![];
    let mut tags = TagManager::new();
    let t = create_template(&mut templates, &mut tags, "T".to_string(), "w/r".to_string(), vec!["s1".to_string()], ValueMap::new());
    assert_eq!(templates.len(), 1);
    assert_eq!(templates[0].id, t.id);
    assert_eq!(tag_names(&tags), vec!["w/r".to_string()]);
    assert_eq!(
        update_template(&mut templates, &mut tags, &t.id, Some("New".to_string()), None, Some(vec![]), None),
        Ok(())
    );
    assert_eq!(templates[0].name, "New");
    assert!(templates[0].script_ids.is_empty());
    assert_eq!(
        update_template(&mut templates, &mut tags, "nope", None, None, None, None),
        Err("Template not found".to_string())
    );
    assert_eq!(delete_template(&mut templates, &mut tags, "nope"), Err("Template not found".to_string()));
    assert_eq!(delete_template(&mut templates, &mut tags, &t.id), Ok(()));
    assert!(templates.is_empty());
}

#[test]
fn toggling_favourites() {
    let mut scripts = vec![script("s1", "S", "", "")];
    assert_eq!(toggle_favorite_script(&mut scripts, "s1"), Ok(()));
    assert!(scripts[0].is_favorite);
    assert_eq!(toggle_favorite_script(&mut scripts, "s1"), Ok(()));
    assert!(!scripts[0].is_favorite);
    assert_eq!(toggle_favorite_script(&mut scripts, "x"), Err("Script not found".to_string()));
    let mut templates = vec![template("t1", "", &[])];
    assert_eq!(toggle_favorite_template(&mut templates, "t1"), Ok(()));
    assert!(templates[0].is_favorite);
    assert_eq!(toggle_favorite_template(&mut templates, "x"), Err("Template not found".to_string()));
}

#[test]
fn finishing_copies_counts_uses_and_records_history() {
    let mut scripts = vec![script("s1", "S", "", "")];
    let mut history = HistoryManager::new();
    assert_eq!(finish_script_copy(ClipboardResult::Success, &mut scripts, &mut history, "s1"), Ok(()));
    assert_eq!(scripts[0].use_count, 1);
    assert_eq!(history.get_recent_scripts(5), vec!["s1".to_string()]);
    assert_eq!(
        finish_script_copy(ClipboardResult::Unsupported, &mut scripts, &mut history, "s1"),
        Err("Clipboard not supported".to_string())
    );
    assert_eq!(scripts[0].use_count, 1);
    assert_eq!(
        finish_script_copy(ClipboardResult::Success, &mut scripts, &mut history, "zz"),
        Err("Script not found".to_string())
    );

    let mut templates = vec![template("t1", "", &[])];
    assert_eq!(finish_template_copy(ClipboardResult::Success, &mut templates, &mut history, "t1"), Ok(()));
    assert_eq!(templates[0].use_count, 1);
    assert_eq!(history.get_recent_templates(5), vec!["t1".to_string()]);
    assert_eq!(
        finish_template_copy(ClipboardResult::Failure("denied".to_string()), &mut templates, &mut history, "t1"),
        Err("denied".to_string())
    );
    assert_eq!(history.export_history().len(), 2);
}

#[test]
fn rename_and_cascade_commands() {
    let mut scripts = vec![script("s1", "A", "coding/python/debug", ""), script("s2", "B", "tools/rust", "")];
    let mut templates = vec![template("t1", "workflow/python", &[])];
    let mut tags = TagManager::new();
    tags.build_tag_tree(&scripts, &templates);

    assert_eq!(
        rename_tag_segment_command(&mut scripts, &mut templates, &mut tags, " ", "x"),
        Err("Tag segment cannot be empty".to_string())
    );
    assert_eq!(
        rename_tag_segment_command(&mut scripts, &mut templates, &mut tags, "python", " python "),
        Err("No matching tags found to rename".to_string())
    );
    assert_eq!(rename_tag_segment_command(&mut scripts, &mut templates, &mut tags, " python ", "Py"), Ok(()));
    assert_eq!(scripts[0].tags, "coding/Py/debug");
    assert_eq!(templates[0].tags, "workflow/Py");

    assert_eq!(
        cascade_delete_tag_command(&mut scripts, &mut templates, &mut tags, "  "),
        Err("Tag path cannot be empty".to_string())
    );
    assert_eq!(
        cascade_delete_tag_command(&mut scripts, &mut templates, &mut tags, "unknown"),
        Err("No matching tag branch found to delete".to_string())
    );
    // An inner node of the tree deletes its whole branch.
    assert_eq!(cascade_delete_tag_command(&mut scripts, &mut templates, &mut tags, " coding "), Ok(()));
    assert_eq!(scripts.len(), 1);
    assert_eq!(scripts[0].id, "s2");
    assert_eq!(templates.len(), 1);
}

#[test]
fn previews_list_sorted_distinct_paths() {
    let scripts = vec![
        script("s1", "A", "z/python", ""),
        script("s2", "B", "a/python/x", ""),
        script("s3", "C", "z/python", ""),
        script("s4", "D", "rust", ""),
    ];
    let templates = vec![template("t1", "python", &[])];
    let mut tags = TagManager::new();
    tags.build_tag_tree(&scripts, &templates);
    let p = get_tag_rename_preview(&scripts, &templates, &tags, "python");
    assert_eq!(p.script_tags, vec!["a/python/x".to_string(), "z/python".to_string()]);
    assert_eq!(p.script_count, 3);
    assert_eq!(p.template_tags, vec!["python".to_string()]);
    assert_eq!(p.template_count, 1);
    let d = get_tag_delete_preview(&scripts, &templates, &tags, "z");
    assert_eq!(d.script_tags, vec!["z/python".to_string()]);
    assert_eq!(d.script_count, 2);
    assert!(d.template_tags.is_empty());
    assert_eq!(d.template_count, 0);
}

#[test]
fn variable_usage_locations_sorted_with_users() {
    let scripts = vec![
        script("s1", "First", "", "{{b}} and {{a}}"),
        script("s2", "Second", "", "{{a:1}} {{a}}"),
        script("s3", "Third", "", "{{c}}"),
    ];
    let usage = get_variable_usage_locations(&scripts, &vec!["s2".to_string(), "s1".to_string()]);
    assert_eq!(usage.len(), 2);
    assert_eq!(usage[0].variable_name, "a");
    assert_eq!(usage[0].script_names, vec!["First".to_string(), "Second".to_string()]);
    assert_eq!(usage[1].variable_name, "b");
    assert_eq!(usage[1].script_names, vec!["First".to_string()]);
}

#[test]
fn script_variables_fall_back_to_placeholder() {
    let mut values = ValueMap::new();
    values.insert("name".to_string(), "Ann".to_string());
    assert_eq!(
        replace_script_variables("Hi {{ name }} from {{city:Paris}} on {{ day }}", &values),
        "Hi Ann from Paris on {{day}}"
    );
}
