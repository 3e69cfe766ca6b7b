use scripted_prompt_lib::clock::generate_uuid;
use scripted_prompt_lib::data::{Script, Template};
use scripted_prompt_lib::value_map::ValueMap;

#[test]
fn new_script_has_fresh_id_and_no_uses() {
    let a = Script::new("A".to_string(), "x/y".to_string(), "body".to_string());
    let b = Script::new("B".to_string(), String::new(), String::new());
    assert_eq!(a.id.len(), 36);
    assert_ne!(a.id, b.id);
    assert_eq!(a.use_count, 0);
    assert!(!a.is_favorite);
    assert_eq!(a.created_at, a.updated_at);
    assert_eq!(a.last_used, a.created_at);
    assert_eq!(generate_uuid().len(), 36);
    for id in [a.id.clone(), b.id.clone(), generate_uuid()] {
        let c: Vec<char> = id.chars().collect();
        for (i, ch) in c.iter().enumerate() {
            if [8, 13, 18, 23].contains(&i) {
                assert_eq!(*ch, '-');
            } else {
                assert!(ch.is_ascii_digit() || ('a'..='f').contains(ch), "{id}");
            }
        }
        assert_eq!(c[14], '4');
        assert!("89ab".contains(c[19]));
    }
}

#[test]
fn script_update_and_use() {
    let mut s = Script::new("A".to_string(), "x".to_string(), "c".to_string());
    let id = s.id.clone();
    s.update(Some("B".to_string()), None, Some("d".to_string()));
    assert_eq!(s.name, "B");
    assert_eq!(s.tags, "x");
    assert_eq!(s.content, "d");
    assert_eq!(s.id, id);
    s.increment_use_count();
    s.increment_use_count();
    assert_eq!(s.use_count, 2);
}

#[test]
fn script_tags_and_text() {
    let s = Script::new("Review Code".to_string(), "/dev//review/".to_string(), "Check {{lang}}".to_string());
    assert_eq!(s.get_tags_hierarchy(), vec!["dev".to_string(), "review".to_string()]);
    assert!(s.matches_tags(""));
    assert!(!s.matches_tags("dev"));
    let t = Script::new("n".to_string(), "dev/review".to_string(), String::new());
    assert!(t.matches_tags("dev"));
    assert!(t.matches_tags("dev/review"));
    assert!(!t.matches_tags("de"));
    assert!(s.contains_text("CODE"));
    assert!(s.contains_text("lang"));
    assert!(!s.contains_text("python"));
}

#[test]
fn template_ids_and_variables() {
    let mut t = Template::new("T".to_string(), "a/b".to_string(), vec!["s1".to_string()], ValueMap::new());
    assert_eq!(t.id.len(), 36);
    assert_eq!(t.category, "");
    t.add_script_id("s2".to_string());
    t.add_script_id("s1".to_string());
    assert_eq!(t.script_ids, vec!["s1".to_string(), "s2".to_string()]);
    t.script_ids.push("s1".to_string());
    t.remove_script_id("s1");
    assert_eq!(t.script_ids, vec!["s2".to_string()]);
    t.set_variable_value("lang".to_string(), "Rust".to_string());
    t.set_variable_value("lang".to_string(), "Go".to_string());
    assert_eq!(t.get_variable_value("lang").map(|s| s.as_str()), Some("Go"));
    assert_eq!(t.get_variable_value("none"), None);
    assert!(t.contains_text("go"));
    assert!(t.contains_text("LANG"));
    assert!(!t.contains_text("python"));
    assert_eq!(t.get_tags_hierarchy(), vec!["a".to_string(), "b".to_string()]);
    t.increment_use_count();
    assert_eq!(t.use_count, 1);
    t.update(None, Some("c".to_string()), None, None);
    assert_eq!(t.tags, "c");
    assert_eq!(t.script_ids, vec!["s2".to_string()]);
}
