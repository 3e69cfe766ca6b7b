use scripted_prompt_lib::data::{Script, Template};
use scripted_prompt_lib::tags::{sanitize_tag, validate_tag, TagManager};
use scripted_prompt_lib::value_map::ValueMap;
use std::sync::Arc;

fn make_script(id: &str, tags: &str) -> Script {
    Script {
        id: id.to_string(),
        name: format!("Script {id}"),
        tags: tags.to_string(),
        content: String::new(),
        created_at: "2025-01-01T00:00:00+00:00".to_string(),
        updated_at: "2025-01-01T00:00:00+00:00".to_string(),
        use_count: 0,
        last_used: "2025-01-01T00:00:00+00:00".to_string(),
        is_favorite: false,
    }
}

fn make_template(id: &str, tags: &str) -> Template {
    Template {
        id: id.to_string(),
        name: format!("Template {id}"),
        tags: tags.to_string(),
        script_ids: vec![],
        variable_values: ValueMap::new(),
        created_at: "2025-01-01T00:00:00+00:00".to_string(),
        updated_at: "2025-01-01T00:00:00+00:00".to_string(),
        use_count: 0,
        last_used: "2025-01-01T00:00:00+00:00".to_string(),
        is_favorite: false,
        category: String::new(),
    }
}

#[test]
fn rename_tag_segment_updates_matching_path_segments_only() {
    let mut manager = TagManager::new();
    let scripts_seed = vec![make_script("1", "coding/python/debug"), make_script("2", "tools/pycharm")];
    let templates_seed = vec![make_template("t1", "workflow/python/review")];
    manager.build_tag_tree(&scripts_seed, &templates_seed);

    let mut scripts: Vec<Arc<Script>> = scripts_seed.into_iter().map(Arc::new).collect();
    let mut templates: Vec<Arc<Template>> = templates_seed.into_iter().map(Arc::new).collect();

    let changed = manager.rename_tag_segment("python", "Python", &mut scripts, &mut templates);

    assert!(changed);
    assert_eq!(scripts[0].tags, "coding/Python/debug");
    assert_eq!(scripts[1].tags, "tools/pycharm");
    assert_eq!(templates[0].tags, "workflow/Python/review");
}

#[test]
fn calculate_rename_impact_counts_unique_tags_and_total_matches() {
    let manager = TagManager::new();
    let scripts = vec![
        Arc::new(make_script("1", "coding/python")),
        Arc::new(make_script("2", "coding/python/debug")),
        Arc::new(make_script("3", "tools/rust")),
    ];
    let templates = vec![
        Arc::new(make_template("t1", "workflow/python/review")),
        Arc::new(make_template("t2", "workflow/rust/review")),
    ];

    let impact = manager.calculate_rename_impact("python", &scripts, &templates);

    assert_eq!(impact.script_count, 2);
    assert_eq!(impact.template_count, 1);
    assert!(impact.script_tags.contains(&"coding/python".to_string()));
    assert!(impact.script_tags.contains(&"coding/python/debug".to_string()));
    assert!(impact.template_tags.contains(&"workflow/python/review".to_string()));
}

#[test]
fn cascade_delete_tag_removes_descendants_and_rebuilds_tag_tree() {
    let mut manager = TagManager::new();
    let scripts_seed = vec![
        make_script("1", "coding/python"),
        make_script("2", "coding/python/debug"),
        make_script("3", "coding/rust"),
    ];
    let templates_seed = vec![
        make_template("t1", "workflow/python/review"),
        make_template("t2", "workflow/rust/review"),
    ];
    manager.build_tag_tree(&scripts_seed, &templates_seed);

    let mut scripts: Vec<Arc<Script>> = scripts_seed.into_iter().map(Arc::new).collect();
    let mut templates: Vec<Arc<Template>> = templates_seed.into_iter().map(Arc::new).collect();

    let changed = manager.cascade_delete_tag("coding/python", &mut scripts, &mut templates);

    assert!(changed);
    assert_eq!(scripts.len(), 1);
    assert_eq!(scripts[0].tags, "coding/rust");
    assert_eq!(templates.len(), 2);
    let all_tags = manager.get_all_tags();
    assert!(all_tags.iter().all(|(tag, _)| !tag.starts_with("coding/python")));
}

#[test]
fn calculate_delete_impact_counts_descendants() {
    let manager = TagManager::new();
    let scripts = vec![
        Arc::new(make_script("1", "coding/python")),
        Arc::new(make_script("2", "coding/python/debug")),
        Arc::new(make_script("3", "coding/rust")),
    ];
    let templates = vec![
        Arc::new(make_template("t1", "coding/python/review")),
        Arc::new(make_template("t2", "workflow/rust/review")),
    ];

    let impact = manager.calculate_delete_impact("coding/python", &scripts, &templates);

    assert_eq!(impact.script_count, 2);
    assert_eq!(impact.template_count, 1);
    assert!(impact.script_tags.iter().any(|tag| tag == "coding/python"));
    assert!(impact.script_tags.iter().any(|tag| tag == "coding/python/debug"));
    assert!(impact.template_tags.iter().any(|tag| tag == "coding/python/review"));
}

#[test]
fn all_tags_are_counted_and_ordered_by_use() {
    let mut manager = TagManager::new();
    let scripts = vec![make_script("1", "a/b"), make_script("2", "c"), make_script("3", "a/b"), make_script("4", "")];
    let templates = vec![make_template("t1", "a/b"), make_template("t2", "c"), make_template("t3", "d")];
    manager.build_tag_tree(&scripts, &templates);
    assert_eq!(
        manager.get_all_tags(),
        vec![("a/b".to_string(), 3), ("c".to_string(), 2), ("d".to_string(), 1)]
    );
    assert_eq!(manager.tag_total(), 6);
}

#[test]
fn child_tags_list_the_next_level() {
    let mut manager = TagManager::new();
    let scripts = vec![
        make_script("1", "a/b/c"),
        make_script("2", "a/d"),
        make_script("3", "a/b"),
        make_script("4", "e"),
    ];
    manager.build_tag_tree(&scripts, &[]);
    let top = manager.get_child_tags("");
    assert_eq!(top, vec![("a".to_string(), 3), ("e".to_string(), 1)]);
    let under_a = manager.get_child_tags("a");
    assert_eq!(under_a, vec![("a/b".to_string(), 2), ("a/d".to_string(), 1)]);
    assert!(manager.get_child_tags("missing").is_empty());
    assert_eq!(manager.get_child_tags("a/b"), vec![("a/b/c".to_string(), 1)]);
}

#[test]
fn update_from_templates_adds_to_the_counts() {
    let mut manager = TagManager::new();
    manager.update_from_scripts(&[make_script("1", "x")]);
    manager.update_from_templates(&[make_template("t1", "x"), make_template("t2", "y")]);
    assert_eq!(manager.get_all_tags(), vec![("x".to_string(), 2), ("y".to_string(), 1)]);
    manager.update_from_scripts(&[make_script("1", "z")]);
    assert_eq!(manager.get_all_tags(), vec![("z".to_string(), 1)]);
}

#[test]
fn tag_suggestions_prefer_short_then_used() {
    let mut manager = TagManager::new();
    let scripts = vec![
        make_script("1", "dev/long/path"),
        make_script("2", "dev/x"),
        make_script("3", "dev/y"),
        make_script("4", "dev/y"),
        make_script("5", "other"),
    ];
    manager.build_tag_tree(&scripts, &[]);
    assert_eq!(
        manager.get_tag_suggestions("dev"),
        vec!["dev/y".to_string(), "dev/x".to_string(), "dev/long/path".to_string()]
    );
    assert!(manager.get_tag_suggestions("zzz").is_empty());
    let many: Vec<Script> = (0..15).map(|i| make_script(&i.to_string(), &format!("t{:02}", i))).collect();
    let mut m2 = TagManager::new();
    m2.build_tag_tree(&many, &[]);
    assert_eq!(m2.get_tag_suggestions("t").len(), 10);
}

#[test]
fn rename_tag_segment_refuses_equal_or_empty_segments() {
    let mut manager = TagManager::new();
    let mut scripts: Vec<Arc<Script>> = vec![Arc::new(make_script("1", "a/b"))];
    let mut templates: Vec<Arc<Template>> = vec![];
    assert!(!manager.rename_tag_segment("a", "a", &mut scripts, &mut templates));
    assert!(!manager.rename_tag_segment("", "x", &mut scripts, &mut templates));
    assert_eq!(scripts[0].tags, "a/b");
}

#[test]
fn rename_segment_back_restores_tags() {
    let original = "coding/python/debug";
    let there = TagManager::rename_tag_segment_in_path(original, "python", "py3");
    assert_eq!(there, "coding/py3/debug");
    assert_eq!(TagManager::rename_tag_segment_in_path(&there, "py3", "python"), original);
    assert_eq!(TagManager::rename_tag_segment_in_path("a//a", "a", "b"), "b//b");
    assert_eq!(TagManager::rename_tag_segment_in_path("", "", "x"), "x");
}

#[test]
fn cascade_delete_of_unknown_tag_changes_nothing() {
    let mut manager = TagManager::new();
    let mut scripts: Vec<Arc<Script>> = vec![Arc::new(make_script("1", "a"))];
    let mut templates: Vec<Arc<Template>> = vec![];
    manager.update_from_scripts(&[make_script("1", "a")]);
    assert!(!manager.cascade_delete_tag("b", &mut scripts, &mut templates));
    assert_eq!(scripts.len(), 1);
    assert_eq!(manager.get_all_tags(), vec![("a".to_string(), 1)]);
}

#[test]
fn cascade_delete_of_inner_node_removes_its_branch() {
    let mut manager = TagManager::new();
    manager.build_tag_tree(&[make_script("1", "coding/python/debug")], &[]);
    assert_eq!(manager.get_child_tags("coding"), vec![("coding/python".to_string(), 1)]);
    let mut scripts: Vec<Arc<Script>> = vec![Arc::new(make_script("1", "coding/python/debug"))];
    let mut templates: Vec<Arc<Template>> = vec![];
    let impact = manager.calculate_delete_impact("coding/python", &scripts, &templates);
    assert_eq!(impact.script_count, 1);
    assert!(manager.cascade_delete_tag("coding/python", &mut scripts, &mut templates));
    assert!(scripts.is_empty());
    assert!(manager.get_all_tags().is_empty());
    assert!(!manager.cascade_delete_tag("coding", &mut scripts, &mut templates));
}

#[test]
fn merge_tags_moves_exact_matches_only() {
    let mut manager = TagManager::new();
    let mut scripts = vec![make_script("1", "old"), make_script("2", "old/sub"), make_script("3", "keep")];
    let mut templates = vec![make_template("t1", "old")];
    manager.build_tag_tree(&scripts, &templates);
    assert!(manager.merge_tags("old", "new", &mut scripts, &mut templates));
    assert_eq!(scripts[0].tags, "new");
    assert_eq!(scripts[1].tags, "old/sub");
    assert_eq!(templates[0].tags, "new");
    assert!(!manager.merge_tags("missing", "x", &mut scripts, &mut templates));
    assert!(!manager.merge_tags("new", "new", &mut scripts, &mut templates));
}

#[test]
fn rename_tag_moves_children_too() {
    let mut manager = TagManager::new();
    let mut scripts = vec![make_script("1", "old"), make_script("2", "old/sub"), make_script("3", "older")];
    let mut templates: Vec<Template> = vec![];
    manager.build_tag_tree(&scripts, &templates);
    assert!(manager.rename_tag("old", "new", &mut scripts, &mut templates));
    assert_eq!(scripts[0].tags, "new");
    assert_eq!(scripts[1].tags, "new/sub");
    assert_eq!(scripts[2].tags, "older");
    assert_eq!(
        manager.get_all_tags(),
        vec![("new".to_string(), 1), ("new/sub".to_string(), 1), ("older".to_string(), 1)]
    );
}

#[test]
fn tags_are_validated_and_sanitized() {
    assert!(validate_tag(""));
    assert!(validate_tag("dev/rust_1-x"));
    assert!(validate_tag("写作/学术"));
    assert!(!validate_tag("/dev"));
    assert!(!validate_tag("dev/"));
    assert!(!validate_tag("dev//rust"));
    assert!(!validate_tag("dev rust"));
    assert_eq!(sanitize_tag("//dev//rust  tips//"), "dev/rusttips");
    assert_eq!(sanitize_tag("a b/c"), "ab/c");
    assert_eq!(sanitize_tag("///"), "");
    assert_eq!(sanitize_tag("//a b//c/"), "ab/c");
    for t in ["x!y/z-_9", "  é / ü ", "a//b c///d!"] {
        let kept: String = t.chars().filter(|c| c.is_alphanumeric() || *c == '_' || *c == '-').collect();
        let out: String = sanitize_tag(t).chars().filter(|c| *c != '/').collect();
        assert_eq!(out, kept);
    }
    assert_eq!(sanitize_tag("写作/学术"), "写作/学术");
    for t in ["//a///b c//", "x", "", "/", "é/ü", "a/-_/b"] {
        let s = sanitize_tag(t);
        assert!(validate_tag(&s), "{:?}", s);
        assert_eq!(sanitize_tag(&s), s);
    }
}

#[test]
fn stored_counts_rebuild_the_manager() {
    let counts = vec![("a/b".to_string(), 2), ("c".to_string(), 1)];
    let manager = TagManager::from_counts(&counts).unwrap();
    assert_eq!(manager.get_all_tags(), counts);
    assert_eq!(manager.get_child_tags("a"), vec![("a/b".to_string(), 2)]);
    assert_eq!(manager.root().children.len(), 2);
    let huge = vec![("a".to_string(), usize::MAX)];
    assert!(TagManager::from_counts(&huge).is_none());
}
