use scripted_prompt_lib::ai::{
    build_compression_prompt, build_preview_from_response, extract_fenced_json, extract_first_json_object,
    format_provider_error, invalid_json_message, pretty_variables, sanitize_model_json_response,
    validate_template_placeholders, CompressionRequestOptions, CompressionResponseEnvelope,
    CompressionResponseResult,
};
use scripted_prompt_lib::value_map::ValueMap;

fn options(preserve: bool) -> CompressionRequestOptions {
    CompressionRequestOptions { suggested_name: None, suggested_tags: None, preserve_variables: preserve }
}

fn envelope(version: &str, name: &str, tags: &str, content: &str, defaults: ValueMap, summary: &str) -> CompressionResponseEnvelope {
    CompressionResponseEnvelope {
        version: version.to_string(),
        result: CompressionResponseResult {
            script_name: name.to_string(),
            tags: tags.to_string(),
            content: content.to_string(),
            variable_defaults: defaults,
            summary: summary.to_string(),
        },
    }
}

#[test]
fn build_preview_reports_variable_diffs() {
    let mut defaults = ValueMap::new();
    defaults.insert("audience".to_string(), "team".to_string());
    let parsed = envelope("1", "Compressed", "", "Review {{code}} for {{audience}}", defaults, "summary");

    let preview = build_preview_from_response(
        "template-1",
        "Template",
        "workflow/review",
        "Review {{code}} for {{language}}",
        &CompressionRequestOptions { suggested_name: None, suggested_tags: None, preserve_variables: true },
        parsed,
    )
    .expect("preview should build");

    assert_eq!(preview.removed_variables, vec!["language".to_string()]);
    assert_eq!(preview.added_variables, vec!["audience".to_string()]);
    assert!(!preview.warnings.is_empty());
    assert_eq!(preview.tags, "workflow/review");
}

#[test]
fn reject_missing_variable_default_in_content() {
    let mut defaults = ValueMap::new();
    defaults.insert("missing".to_string(), "x".to_string());
    let parsed = envelope("1", "Compressed", "workflow/review", "Review {{code}}", defaults, "summary");

    let error = build_preview_from_response(
        "template-1",
        "Template",
        "workflow/review",
        "Review {{code}}",
        &CompressionRequestOptions { suggested_name: None, suggested_tags: None, preserve_variables: false },
        parsed,
    )
    .unwrap_err();

    assert!(error.contains("variable_defaults"));
}

#[test]
fn preview_fields_and_warnings_in_order() {
    let parsed = envelope(" 1 ", "  Short  ", "  ", "  Fix {{b}} {{a}}  ", ValueMap::new(), "  ");
    let preview = build_preview_from_response(
        "id-9",
        "Long",
        "base/tag",
        "Fix {{c}} and {{d}}",
        &CompressionRequestOptions { suggested_name: None, suggested_tags: Some("  ".to_string()), preserve_variables: true },
        parsed,
    )
    .unwrap();
    assert_eq!(preview.source_template_id, "id-9");
    assert_eq!(preview.script_name, "Short");
    assert_eq!(preview.content, "Fix {{b}} {{a}}");
    assert_eq!(preview.tags, "base/tag");
    assert_eq!(preview.summary, "Compressed template into a reusable script.");
    assert_eq!(preview.source_variable_names, vec!["c".to_string(), "d".to_string()]);
    assert_eq!(preview.output_variable_names, vec!["b".to_string(), "a".to_string()]);
    assert_eq!(preview.removed_variables, vec!["c".to_string(), "d".to_string()]);
    assert_eq!(preview.added_variables, vec!["a".to_string(), "b".to_string()]);
    assert_eq!(
        preview.warnings,
        vec![
            "Removed variables: c, d".to_string(),
            "Added variables: a, b".to_string(),
            "Variable preservation was requested, but some source variables were removed.".to_string(),
        ]
    );
    assert_eq!(preview.source_length, 19);
    assert_eq!(preview.output_length, 19);
}

#[test]
fn preview_warns_when_not_shorter_and_uses_suggested_tags() {
    let parsed = envelope("1", "N", "", "abc", ValueMap::new(), "done");
    let preview = build_preview_from_response(
        "t",
        "T",
        "orig",
        "ab",
        &CompressionRequestOptions { suggested_name: None, suggested_tags: Some("sugg/tag".to_string()), preserve_variables: false },
        parsed,
    )
    .unwrap();
    assert_eq!(preview.tags, "sugg/tag");
    assert_eq!(preview.summary, "done");
    assert_eq!(preview.warnings, vec!["Compressed result is not shorter than the source content.".to_string()]);
}

#[test]
fn preview_error_variants() {
    let e = build_preview_from_response("t", "T", "", "x", &options(false), envelope("2", "N", "", "c", ValueMap::new(), ""))
        .unwrap_err();
    assert_eq!(e, "Unsupported compression response version");
    let e = build_preview_from_response("t", "T", "", "x", &options(false), envelope("1", "  ", "", "c", ValueMap::new(), ""))
        .unwrap_err();
    assert_eq!(e, "Compressed script name cannot be empty");
    let e = build_preview_from_response("t", "T", "", "x", &options(false), envelope("1", "N", "", " \n ", ValueMap::new(), ""))
        .unwrap_err();
    assert_eq!(e, "Compressed content cannot be empty");
    let e = build_preview_from_response("t", "T", "", "x", &options(false), envelope("1", "N", "", "{{ }}", ValueMap::new(), ""))
        .unwrap_err();
    assert_eq!(e, "Invalid variable name '' in compressed content");
    let e = build_preview_from_response("t", "T", "", "x", &options(false), envelope("1", "N", "", "{{a:}}", ValueMap::new(), ""))
        .unwrap_err();
    assert_eq!(e, "Compressed content contains malformed variable placeholders");
    let mut defaults = ValueMap::new();
    defaults.insert("zzz".to_string(), "1".to_string());
    let e = build_preview_from_response("t", "T", "", "x", &options(false), envelope("1", "N", "", "{{a}}", defaults, ""))
        .unwrap_err();
    assert_eq!(e, "variable_defaults contains 'zzz' but the variable is missing from content");
}

#[test]
fn validate_template_placeholders_cases() {
    assert_eq!(validate_template_placeholders("plain"), Ok(()));
    assert_eq!(validate_template_placeholders("Hi {{name:default}}"), Ok(()));
    assert_eq!(
        validate_template_placeholders("Hi {{a:}} there"),
        Err("Compressed content contains malformed variable placeholders".to_string())
    );
    assert_eq!(
        validate_template_placeholders("Hi {{ }} there"),
        Err("Invalid variable name '' in compressed content".to_string())
    );
    assert_eq!(validate_template_placeholders("{{a}} and {{"), Ok(()));
}

#[test]
fn sanitize_handles_the_reply_shapes() {
    let whole = "{\"version\":\"1\"}";
    assert_eq!(sanitize_model_json_response(&format!("  {whole}  ")), Ok(whole.to_string()));
    let fenced = "```json\n{\n  \"version\": \"1\"\n}\n```";
    assert_eq!(sanitize_model_json_response(fenced), Ok("{\n  \"version\": \"1\"\n}".to_string()));
    let leading = "Here is the JSON you requested:\n{\"a\":{\"b\":\"}\"}} trailing";
    assert_eq!(sanitize_model_json_response(leading), Ok("{\"a\":{\"b\":\"}\"}}".to_string()));
    assert_eq!(sanitize_model_json_response("   "), Err("Model response was empty".to_string()));
    assert_eq!(
        sanitize_model_json_response("not json"),
        Err("Could not locate a JSON object in model response. Response started with: not json".to_string())
    );
}

#[test]
fn extract_helpers() {
    assert_eq!(extract_fenced_json("x ```JSON\r\n [1] ``` y"), Some("[1]".to_string()));
    assert_eq!(extract_fenced_json("```only one fence"), None);
    assert_eq!(extract_fenced_json("no fences"), None);
    assert_eq!(extract_first_json_object("a {\"s\":\"\\\"{\"} b"), Some("{\"s\":\"\\\"{\"}".to_string()));
    assert_eq!(extract_first_json_object("a { unclosed"), None);
    assert_eq!(extract_first_json_object("none"), None);
}

#[test]
fn invalid_json_message_keeps_first_240_characters() {
    let long: String = std::iter::repeat('é').take(300).collect();
    let m = invalid_json_message("oops", &format!("  {long}  "));
    let head: String = std::iter::repeat('é').take(240).collect();
    assert_eq!(m, format!("Model response was not valid JSON: oops. Response started with: {head}"));
}

#[test]
fn format_provider_error_with_and_without_body() {
    assert_eq!(
        format_provider_error(401, "https://x/v1", "  "),
        "AI request failed with status 401 at https://x/v1. Authentication failed. Check the API key."
    );
    assert_eq!(
        format_provider_error(429, "u", " slow down "),
        "AI request failed with status 429 at u. The provider rate limit was hit. Try again shortly. Response: slow down"
    );
    assert_eq!(
        format_provider_error(404, "https://api.poe.com/v1", ""),
        "AI request failed with status 404 at https://api.poe.com/v1. Endpoint or model was not found. For Poe use base URL https://api.poe.com/v1 and a valid model name."
    );
    assert_eq!(
        format_provider_error(999, "u", ""),
        "AI request failed with status 999 at u. Provider returned an unexpected error."
    );
}

#[test]
fn pretty_variables_layout() {
    assert_eq!(pretty_variables(&vec![]), "[]");
    let quoted = vec![("\"a\"".to_string(), None), ("\"b\"".to_string(), Some("\"x\"".to_string()))];
    assert_eq!(
        pretty_variables(&quoted),
        "[\n  {\n    \"name\": \"a\",\n    \"default_value\": null\n  },\n  {\n    \"name\": \"b\",\n    \"default_value\": \"x\"\n  }\n]"
    );
}

#[test]
fn compression_prompt_quotes_variables_and_numbers_scripts() {
    let scripts = vec![("First".to_string(), "one".to_string()), ("Second".to_string(), "two".to_string())];
    let opts = CompressionRequestOptions {
        suggested_name: Some("  ".to_string()),
        suggested_tags: Some("s/t".to_string()),
        preserve_variables: true,
    };
    let prompt = build_compression_prompt("Tpl", "a/b", &scripts, "Use {{say \"hi\":x\\y}}", &opts);
    assert!(prompt.contains("- preserve_variables = true.\n\nTemplate name: Tpl\nTemplate tags: a/b\n"));
    assert!(prompt.contains("Suggested script name: (none)\nSuggested tags: s/t\n"));
    assert!(prompt.contains("Ordered source scripts:\nScript 1\nName: First\nContent:\none\n\nScript 2\nName: Second\nContent:\ntwo\n\n"));
    assert!(prompt.ends_with(
        "Parsed source variables:\n[\n  {\n    \"name\": \"say \\\"hi\\\"\",\n    \"default_value\": \"x\\\\y\"\n  }\n]\n"
    ));
    let empty = build_compression_prompt("T", "g", &[], "none", &options(false));
    assert!(empty.ends_with("Composed prompt:\nnone\n\nParsed source variables:\n[]\n"));
    assert!(empty.contains("Suggested tags: g\n"));
}

fn script_name_of(raw: &str) -> Result<String, String> {
    let cleaned = sanitize_model_json_response(raw)?;
    let value: serde_json::Value = serde_json::from_str(&cleaned)
        .map_err(|e| invalid_json_message(&e.to_string(), raw))?;
    Ok(value["result"]["script_name"].as_str().unwrap_or_default().to_string())
}

#[test]
fn parse_valid_compression_response() {
    let raw = r#"{
            "version": "1",
            "result": {
                "script_name": "Compressed",
                "tags": "workflow/review",
                "content": "Review {{code}}",
                "variable_defaults": {"code": "sample"},
                "summary": "done"
            }
        }"#;
    assert_eq!(script_name_of(raw).expect("should parse"), "Compressed");
}

#[test]
fn reject_invalid_json_response() {
    let error = script_name_of("not json").unwrap_err();
    assert!(error.contains("valid JSON") || error.contains("Could not locate a JSON object"));
}

#[test]
fn parse_fenced_json_response() {
    let raw = "```json\n{\n  \"version\": \"1\",\n  \"result\": {\n    \"script_name\": \"Compressed\",\n    \"tags\": \"workflow/review\",\n    \"content\": \"Review {{code}}\",\n    \"variable_defaults\": {\"code\": \"sample\"},\n    \"summary\": \"done\"\n  }\n}\n```";
    assert_eq!(script_name_of(raw).expect("should parse fenced JSON"), "Compressed");
}

#[test]
fn parse_json_with_leading_text() {
    let raw = "Here is the JSON you requested:\n{\"version\":\"1\",\"result\":{\"script_name\":\"Compressed\",\"tags\":\"workflow/review\",\"content\":\"Review {{code}}\",\"variable_defaults\":{\"code\":\"sample\"},\"summary\":\"done\"}}";
    assert_eq!(script_name_of(raw).expect("should parse extracted JSON"), "Compressed");
}

#[test]
fn braced_but_broken_reply_reports_invalid_json() {
    let error = script_name_of("{not json}").unwrap_err();
    assert!(error.starts_with("Model response was not valid JSON: "));
    assert!(error.ends_with(". Response started with: {not json}"));
}

#[test]
fn compression_prompt_escapes_control_characters() {
    let prompt = build_compression_prompt("T", "g", &[], "{{a\u{1}b\tc/\u{7f}é:x\ny}}", &options(false));
    assert!(prompt.ends_with(
        "[\n  {\n    \"name\": \"a\\u0001b\\tc/\u{7f}é\",\n    \"default_value\": \"x\\ny\"\n  }\n]\n"
    ));
}
