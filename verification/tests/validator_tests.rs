use scripted_prompt_lib::clipboard::{clipboard_outcome, ClipboardResult};
use scripted_prompt_lib::settings::{default_provider, is_configured};
use scripted_prompt_lib::validator::{check_unclosed_variables, ValidationResult, Validator};

fn invalid(m: &str) -> ValidationResult {
    ValidationResult::Invalid(m.to_string())
}

#[test]
fn validate_variable_cases() {
    let v = Validator::new();
    assert_eq!(v.validate_variable("{{name}}"), ValidationResult::Valid);
    assert_eq!(v.validate_variable("{{ name : default }}"), ValidationResult::Valid);
    assert_eq!(v.validate_variable("{{变量}}"), ValidationResult::Valid);
    assert_eq!(
        v.validate_variable("{name}"),
        invalid("变量格式无效。请使用 {{variable_name}} 或 {{variable_name:default_value}} 格式。")
    );
    assert_eq!(v.validate_variable("{{   }}"), invalid("变量名不能为空"));
    assert_eq!(v.validate_variable("{{:x}}"), invalid("变量格式无效。变量名不能为空，且不能包含 : 或 } 字符。"));
    assert_eq!(v.validate_variable("{{a}b}}"), invalid("变量格式无效。变量名不能为空，且不能包含 : 或 } 字符。"));
}

#[test]
fn validate_name_cases() {
    let v = Validator::new();
    assert_eq!(v.validate_name("Good name"), ValidationResult::Valid);
    assert_eq!(v.validate_name("   "), invalid("名称不能为空"));
    assert_eq!(v.validate_name("a<b"), invalid("名称包含非法字符"));
    assert_eq!(v.validate_name("a\\b"), invalid("名称包含非法字符"));
    assert_eq!(v.validate_name(&"x".repeat(100)), ValidationResult::Valid);
    assert_eq!(v.validate_name(&"x".repeat(101)), invalid("名称长度不能超过100个字符"));
    // 34 three-byte characters are 102 bytes
    assert_eq!(v.validate_name(&"名".repeat(34)), invalid("名称长度不能超过100个字符"));
}

#[test]
fn validate_tags_reports_first_bad_segment() {
    let v = Validator::new();
    assert_eq!(v.validate_tags("a//b/"), ValidationResult::Valid);
    assert_eq!(v.validate_tags("ok/ /x"), invalid("标签段' '无效: 名称不能为空"));
    assert_eq!(v.validate_tags("ok/b&d/e<f"), invalid("标签段'b&d'无效: 名称包含非法字符"));
}

#[test]
fn unclosed_variables() {
    assert_eq!(check_unclosed_variables("{{a}} and {{b"), vec!["{{b".to_string()]);
    assert!(check_unclosed_variables("{{a}} done").is_empty());
    assert!(check_unclosed_variables("plain").is_empty());
    assert_eq!(check_unclosed_variables("x {{ open {{ again"), vec!["{{ open {{ again".to_string()]);
    assert_eq!(check_unclosed_variables("é{{x"), vec!["{{x".to_string()]);
    assert!(check_unclosed_variables("é{{x}} 变量").is_empty());
    assert_eq!(check_unclosed_variables("变量 {{a}} {{b"), vec!["{{b".to_string()]);
}

#[test]
fn clipboard_outcomes() {
    assert_eq!(clipboard_outcome(ClipboardResult::Success), Ok(()));
    assert_eq!(clipboard_outcome(ClipboardResult::Failure("boom".to_string())), Err("boom".to_string()));
    assert_eq!(clipboard_outcome(ClipboardResult::Unsupported), Err("Clipboard not supported".to_string()));
}

#[test]
fn provider_settings() {
    assert_eq!(default_provider(), "openai-compatible");
    assert!(is_configured("https://api", "key", "model"));
    assert!(!is_configured("https://api", "  ", "model"));
    assert!(!is_configured("", "key", "model"));
    assert!(!is_configured("u", "k", "\t"));
}
