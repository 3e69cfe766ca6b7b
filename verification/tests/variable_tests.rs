use regex::Regex;
use scripted_prompt_lib::value_map::ValueMap;
use scripted_prompt_lib::variable::{
    parse_variables, parse_variables_with_defaults, replace_variables, validate_variable_name, Variable,
};

#[test]
fn parse_variables_deduplicates_names() {
    let content = "Hello {{ name }} and {{name}} and {{project}}";
    let variables = parse_variables(content);

    assert_eq!(variables, vec!["name".to_string(), "project".to_string()]);
}

#[test]
fn parse_variables_with_defaults_extracts_default_values() {
    let content = "Hello {{name}} from {{project:Scripted Prompt}}";
    let variables = parse_variables_with_defaults(content);

    assert_eq!(variables.len(), 2);
    assert_eq!(variables[0].name, "name");
    assert_eq!(variables[0].default_value, None);
    assert_eq!(variables[1].name, "project");
    assert_eq!(variables[1].default_value.as_deref(), Some("Scripted Prompt"));
}

#[test]
fn replace_variables_prefers_provided_values_then_defaults_then_fallback() {
    let content = "Hello {{name}}, welcome to {{project:Scripted Prompt}} in {{city}}.";
    let mut values = ValueMap::new();
    values.insert("name".to_string(), "Dylan".to_string());

    let replaced = replace_variables(content, &values, |var| format!("<{}>", var));

    assert_eq!(replaced, "Hello Dylan, welcome to Scripted Prompt in <city>.");
}

#[test]
fn validate_variable_name_allows_unicode_and_special_characters_except_forbidden_ones() {
    assert!(validate_variable_name("变量名-测试_123"));
    assert!(validate_variable_name("project name"));
    assert!(!validate_variable_name(""));
    assert!(!validate_variable_name("bad:name"));
    assert!(!validate_variable_name("bad}name"));
}

// The placeholder grammar, checked against the regular expression it stands for.
const PATTERN: &str = r"\{\{\s*([^}:]+)(?::([^}]+))?\s*\}\}";

fn regex_names(content: &str) -> Vec<String> {
    let re = Regex::new(PATTERN).unwrap();
    let mut out: Vec<String> = Vec::new();
    for cap in re.captures_iter(content) {
        let name = cap[1].trim().to_string();
        if !out.contains(&name) {
            out.push(name);
        }
    }
    out
}

fn regex_variables(content: &str) -> Vec<Variable> {
    let re = Regex::new(PATTERN).unwrap();
    let mut out: Vec<Variable> = Vec::new();
    let mut seen: Vec<String> = Vec::new();
    for cap in re.captures_iter(content) {
        let name = cap[1].trim().to_string();
        let default_value = cap.get(2).map(|m| m.as_str().trim().to_string());
        if !seen.contains(&name) {
            seen.push(name.clone());
            out.push(Variable { name, default_value });
        }
    }
    out
}

fn regex_replace(content: &str, values: &[(&str, &str)]) -> String {
    let re = Regex::new(PATTERN).unwrap();
    re.replace_all(content, |caps: &regex::Captures| {
        let name = caps[1].trim();
        if let Some((_, v)) = values.iter().find(|(k, _)| *k == name) {
            v.to_string()
        } else if let Some(d) = caps.get(2) {
            d.as_str().trim().to_string()
        } else {
            format!("<{}>", name)
        }
    })
    .to_string()
}

const SAMPLES: &[&str] = &[
    "",
    "plain text",
    "{{a}}",
    "{{ a }}",
    "{{a:b}}",
    "{{ a : b }}",
    "{{a:}}",
    "{{:b}}",
    "{{}}",
    "{{ }}",
    "{{a}x}}",
    "{{a:b}x}}",
    "{{a:b }}",
    "{{{a}}}",
    "{{{{a}}}}",
    "{{a}}{{b}}{{a}}",
    "x{{a:b:c}}y",
    "{{a\nb}}",
    "{{ 名前 :既定}} and {{名前}}",
    "{{a}",
    "{a}}",
    "{{a}} {{b:{{c}}}}",
    "{{\tx\t}}",
    "start {{one}} mid {{two:2}} end {{ three : 3 }}",
    "{{ a:b}}{{a :c}}",
];

#[test]
fn placeholder_names_agree_with_the_pattern() {
    for s in SAMPLES {
        assert_eq!(parse_variables(s), regex_names(s), "content {:?}", s);
    }
}

#[test]
fn placeholder_defaults_agree_with_the_pattern() {
    for s in SAMPLES {
        assert_eq!(parse_variables_with_defaults(s), regex_variables(s), "content {:?}", s);
    }
}

#[test]
fn replacement_agrees_with_the_pattern() {
    let mut values = ValueMap::new();
    values.insert("a".to_string(), "A".to_string());
    values.insert("名前".to_string(), "N".to_string());
    for s in SAMPLES {
        let got = replace_variables(s, &values, |var| format!("<{}>", var));
        assert_eq!(got, regex_replace(s, &[("a", "A"), ("名前", "N")]), "content {:?}", s);
    }
}

#[test]
fn parsed_names_never_hold_separators() {
    for s in SAMPLES {
        for name in parse_variables(s) {
            assert!(!name.contains(':') && !name.contains('}'), "name {:?}", name);
        }
    }
}

#[test]
fn content_without_placeholders_is_unchanged() {
    let values = ValueMap::new();
    let text = "no placeholders {here} or {{ there";
    assert_eq!(replace_variables(text, &values, |v| format!("<{}>", v)), text);
}

#[test]
fn both_parsers_agree_on_names() {
    for s in SAMPLES {
        let names: Vec<String> = parse_variables_with_defaults(s).into_iter().map(|v| v.name).collect();
        assert_eq!(names, parse_variables(s));
    }
}
