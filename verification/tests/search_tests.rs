use scripted_prompt_lib::data::{Script, Template};
use scripted_prompt_lib::search::{
    filter_scripts_by_tag_hierarchy, fuzzy_match, fuzzy_search_scripts, fuzzy_search_templates, highlight_match,
};
use scripted_prompt_lib::value_map::ValueMap;

fn script(name: &str, tags: &str, content: &str, use_count: u32) -> Script {
    Script {
        id: name.to_string(),
        name: name.to_string(),
        tags: tags.to_string(),
        content: content.to_string(),
        created_at: String::new(),
        updated_at: String::new(),
        use_count,
        last_used: String::new(),
        is_favorite: false,
    }
}

fn template(name: &str, tags: &str, vars: &[(&str, &str)], use_count: u32) -> Template {
    let mut values = ValueMap::new();
    for (k, v) in vars {
        values.insert(k.to_string(), v.to_string());
    }
    Template {
        id: name.to_string(),
        name: name.to_string(),
        tags: tags.to_string(),
        script_ids: vec![],
        variable_values: values,
        created_at: String::new(),
        updated_at: String::new(),
        use_count,
        last_used: String::new(),
        is_favorite: false,
        category: String::new(),
    }
}

fn names_s(r: &[&Script]) -> Vec<String> {
    r.iter().map(|s| s.name.clone()).collect()
}

fn names_t(r: &[&Template]) -> Vec<String> {
    r.iter().map(|t| t.name.clone()).collect()
}

#[test]
fn fuzzy_match_rules() {
    assert!(fuzzy_match("Hello World", "WORLD"));
    assert!(fuzzy_match("Ünïcode Straße", "straße"));
    assert!(fuzzy_match("write a python script", "script python"));
    assert!(!fuzzy_match("write a python script", "script rust"));
    assert!(fuzzy_match("alpha beta", "bet"));
    assert!(!fuzzy_match("alpha beta", "gamma"));
    assert!(fuzzy_match("anything", ""));
}

#[test]
fn script_search_sorts_by_use_then_name() {
    let scripts = vec![
        script("b-doc", "writing", "Draft text", 1),
        script("a-doc", "writing/blog", "text", 1),
        script("top", "coding", "text here", 5),
        script("none", "coding", "nothing", 9),
    ];
    let found = fuzzy_search_scripts(&scripts, "text", None);
    assert_eq!(names_s(&found), vec!["top", "a-doc", "b-doc"]);
    let all = fuzzy_search_scripts(&scripts, "", None);
    assert_eq!(names_s(&all), vec!["b-doc", "a-doc", "top", "none"]);
    let tagged = fuzzy_search_scripts(&scripts, "", Some("writing"));
    assert_eq!(names_s(&tagged), vec!["a-doc", "b-doc"]);
    let none = fuzzy_search_scripts(&scripts, "text", Some("writ"));
    assert!(none.is_empty());
}

#[test]
fn template_search_looks_at_variables_and_tag_prefixes() {
    let templates = vec![
        template("first", "work/review", &[("lang", "Rust")], 0),
        template("second", "work", &[("audience", "team")], 3),
        template("third", "home", &[], 0),
    ];
    let found = fuzzy_search_templates(&templates, "rust", None);
    assert_eq!(names_t(&found), vec!["first"]);
    let by_tag = fuzzy_search_templates(&templates, "", Some("wo"));
    assert_eq!(names_t(&by_tag), vec!["second", "first"]);
    let all = fuzzy_search_templates(&templates, "", None);
    assert_eq!(names_t(&all), vec!["first", "second", "third"]);
}

#[test]
fn tag_hierarchy_filter_keeps_exact_and_descendants() {
    let scripts = vec![
        script("a", "coding", "", 0),
        script("b", "coding/rust", "", 0),
        script("c", "codingx", "", 0),
        script("d", "other", "", 0),
    ];
    assert_eq!(names_s(&filter_scripts_by_tag_hierarchy(&scripts, "coding")), vec!["a", "b"]);
    assert_eq!(names_s(&filter_scripts_by_tag_hierarchy(&scripts, "")), vec!["a", "b", "c", "d"]);
}

#[test]
fn highlight_wraps_each_literal_occurrence() {
    assert_eq!(highlight_match("a.b a.b", "a.b"), "[a.b] [a.b]");
    assert_eq!(highlight_match("aaaa", "aa"), "[aa][aa]");
    assert_eq!(highlight_match("Hello", "l"), "He[l][l]o");
    assert_eq!(highlight_match("Hello", "x"), "Hello");
    assert_eq!(highlight_match("Hello", ""), "Hello");
    assert_eq!(highlight_match("(x)*", "(x)*"), "[(x)*]");
}
