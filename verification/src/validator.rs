//! Checks on user input: placeholder syntax, names, tag paths, and
//! placeholders left open in content.
use vstd::prelude::*;
use crate::text::{
    byte_len, chars_of, find_char_from, has_char, push_str, split_char, split_exec, string_of_range, trim,
    trim_string,
};
use crate::variable::{valid_variable_name, validate_variable_name};

verus! {

/// The outcome of a check: valid, or invalid with a message.
#[derive(Debug, Clone, PartialEq)]
pub enum ValidationResult {
    Valid,
    Invalid(String),
}

/// The view of an outcome: `None` when valid, else the message.
pub open spec fn outcome(r: ValidationResult) -> Option<Seq<char>> {
    match r {
        ValidationResult::Valid => None,
        ValidationResult::Invalid(m) => Some(m@),
    }
}

/// The checker.
#[derive(Debug, Clone)]
pub struct Validator {}

/// The name inside a placeholder body: the text before the first `:` (or
/// all of it), trimmed.
pub open spec fn placeholder_body_name(trimmed: Seq<char>) -> Seq<char> {
    trim(trimmed.take(find_char_from(trimmed, ':', 0)))
}

/// What is wrong with a single placeholder, if anything.
pub open spec fn variable_problem(v: Seq<char>) -> Option<Seq<char>> {
    let open = seq!['{', '{'];
    let close = seq!['}', '}'];
    if !crate::text::starts_with(v, open) || !crate::text::ends_with(v, close) {
        Some("变量格式无效。请使用 {{variable_name}} 或 {{variable_name:default_value}} 格式。"@)
    } else {
        let trimmed = trim(v.subrange(2, v.len() - 2));
        if trimmed.len() == 0 {
            Some("变量名不能为空"@)
        } else if !valid_variable_name(placeholder_body_name(trimmed)) {
            Some("变量格式无效。变量名不能为空，且不能包含 : 或 } 字符。"@)
        } else {
            None
        }
    }
}

/// A character that names may not hold.
pub open spec fn forbidden_name_char(c: char) -> bool {
    c == '<' || c == '>' || c == '&' || c == '"' || c == '\\'
}

/// What is wrong with a name, if anything.
pub open spec fn name_problem(name: Seq<char>) -> Option<Seq<char>> {
    if trim(name).len() == 0 {
        Some("名称不能为空"@)
    } else if exists|i: int| 0 <= i < name.len() && forbidden_name_char(#[trigger] name[i]) {
        Some("名称包含非法字符"@)
    } else if byte_len(name) > 100 {
        Some("名称长度不能超过100个字符"@)
    } else {
        None
    }
}

/// The first problem among the non-empty segments of a tag path.
pub open spec fn segments_problem(segs: Seq<Seq<char>>) -> Option<Seq<char>>
    decreases segs.len(),
{
    if segs.len() == 0 {
        None
    } else if segs[0].len() > 0 && name_problem(segs[0]) is Some {
        Some("标签段'"@ + segs[0] + "'无效: "@ + name_problem(segs[0])->0)
    } else {
        segments_problem(segs.drop_first())
    }
}

impl Validator {
    pub fn new() -> (r: Validator) {
        Validator {}
    }

    /// Checks one placeholder: `{{name}}` or `{{name:default}}`, with a valid name.
    pub fn validate_variable(&self, variable: &str) -> (r: ValidationResult)
        ensures
            outcome(r) == variable_problem(variable@),
    {
        let v = chars_of(variable);
        let open: Vec<char> = vec!['{', '{'];
        let close: Vec<char> = vec!['}', '}'];
        assert(open@ =~= seq!['{', '{']);
        assert(close@ =~= seq!['}', '}']);
        let n = v.len();
        let starts = crate::text::starts_with_exec(&v, &open);
        let ends = n >= 2 && crate::text::occurs_at_exec(&v, &close, n - 2);
        if !starts || !ends {
            return ValidationResult::Invalid(
                "变量格式无效。请使用 {{variable_name}} 或 {{variable_name:default_value}} 格式。".to_owned(),
            );
        }
        assert(n >= 4) by {
            if n < 4 {
                assert(v@[0] == '{');
                assert(v@[n - 1] == '}');
                assert(v@[n - 2] == '}');
            }
        }
        let inner = string_of_range(&v, 2, n - 2);
        let trimmed = trim_string(inner.as_str());
        if trimmed.as_str().is_empty() {
            return ValidationResult::Invalid("变量名不能为空".to_owned());
        }
        let tc = chars_of(trimmed.as_str());
        let mut colon: usize = 0;
        while colon < tc.len() && tc[colon] != ':'
            invariant
                colon <= tc@.len(),
                find_char_from(tc@, ':', 0) == find_char_from(tc@, ':', colon as int),
            decreases tc@.len() - colon,
        {
            colon = colon + 1;
        }
        let head = string_of_range(&tc, 0, colon);
        let name = trim_string(head.as_str());
        assert(tc@.take(colon as int) =~= tc@.subrange(0, colon as int));
        if !validate_variable_name(name.as_str()) {
            return ValidationResult::Invalid("变量格式无效。变量名不能为空，且不能包含 : 或 } 字符。".to_owned());
        }
        ValidationResult::Valid
    }

    /// Checks a name: not blank, without `<`, `>`, `&`, `"` or `\`, and at most
    /// 100 bytes long.
    pub fn validate_name(&self, name: &str) -> (r: ValidationResult)
        ensures
            outcome(r) == name_problem(name@),
    {
        name_check(name)
    }

    /// Checks each non-empty segment of a tag path as a name; the first
    /// invalid one is reported with its message.
    pub fn validate_tags(&self, tags: &str) -> (r: ValidationResult)
        ensures
            outcome(r) == segments_problem(split_char(tags@, '/')),
    {
        let t = chars_of(tags);
        let segs = split_exec(&t, '/');
        let ghost sv = segs@.map_values(|x: String| x@);
        assert(sv.skip(0) =~= sv);
        let mut i: usize = 0;
        while i < segs.len()
            invariant
                i <= segs@.len(),
                sv == segs@.map_values(|x: String| x@),
                sv == split_char(tags@, '/'),
                segments_problem(sv) == segments_problem(sv.skip(i as int)),
            decreases segs@.len() - i,
        {
            let ghost rest = sv.skip(i as int);
            assert(rest[0] == sv[i as int]);
            assert(rest.drop_first() =~= sv.skip(i + 1));
            if !segs[i].as_str().is_empty() {
                match name_check(segs[i].as_str()) {
                    ValidationResult::Invalid(msg) => {
                        let mut m = "标签段'".to_owned();
                        push_str(&mut m, segs[i].as_str());
                        push_str(&mut m, "'无效: ");
                        push_str(&mut m, msg.as_str());
                        return ValidationResult::Invalid(m);
                    },
                    ValidationResult::Valid => {},
                }
            }
            i = i + 1;
        }
        assert(sv.skip(i as int).len() == 0);
        ValidationResult::Valid
    }
}

/// Checks a name (see `name_problem`).
fn name_check(name: &str) -> (r: ValidationResult)
    ensures
        outcome(r) == name_problem(name@),
{
    let t = chars_of(name);
    let trimmed = trim_string(name);
    if trimmed.as_str().is_empty() {
        return ValidationResult::Invalid("名称不能为空".to_owned());
    }
    let mut i: usize = 0;
    while i < t.len()
        invariant
            i <= t@.len(),
            t@ == name@,
            trim(name@).len() > 0,
            forall|j: int| 0 <= j < i ==> !forbidden_name_char(#[trigger] t@[j]),
        decreases t@.len() - i,
    {
        let c = t[i];
        if c == '<' || c == '>' || c == '&' || c == '"' || c == '\\' {
            assert(forbidden_name_char(name@[i as int]));
            return ValidationResult::Invalid("名称包含非法字符".to_owned());
        }
        i = i + 1;
    }
    if name.len() > 100 {
        return ValidationResult::Invalid("名称长度不能超过100个字符".to_owned());
    }
    ValidationResult::Valid
}

// ---------------------------------------------------------------------------
// Placeholders left open
// ---------------------------------------------------------------------------
/// At character `k` of `s` a pair `cc` starts: the character is `c`, and so
/// is the next one.
pub open spec fn pair_at(s: Seq<char>, k: int, c: char) -> bool {
    0 <= k && k + 1 < s.len() && s[k] == c && s[k + 1] == c
}

/// After the first `n` characters: whether a placeholder is open, and the
/// index of the character where it was opened.
pub open spec fn open_state(s: Seq<char>, n: int) -> (bool, int)
    decreases n,
{
    if n <= 0 {
        (false, 0)
    } else {
        let prev = open_state(s, n - 1);
        let k = n - 1;
        if prev.0 {
            if pair_at(s, k, '}') {
                (false, prev.1)
            } else {
                prev
            }
        } else if pair_at(s, k, '{') {
            (true, k)
        } else {
            prev
        }
    }
}

/// The rest of the content from a placeholder that is never closed, if there is one.
pub open spec fn unclosed(s: Seq<char>) -> Seq<Seq<char>> {
    let st = open_state(s, s.len() as int);
    if st.0 {
        seq![s.subrange(st.1, s.len() as int)]
    } else {
        seq![]
    }
}

/// The rest of `content` from a `{{` that no `}}` closes, if there is one.
pub fn check_unclosed_variables(content: &str) -> (r: Vec<String>)
    ensures
        r@.map_values(|s: String| s@) == unclosed(content@),
{
    let s = chars_of(content);
    let mut in_var = false;
    let mut start: usize = 0;
    let mut k: usize = 0;
    while k < s.len()
        invariant
            k <= s@.len(),
            s@ == content@,
            (in_var, start as int) == open_state(s@, k as int),
            start <= k,
        decreases s@.len() - k,
    {
        let c = s[k];
        if in_var {
            if c == '}' && k + 1 < s.len() && s[k + 1] == '}' {
                in_var = false;
            }
        } else if c == '{' && k + 1 < s.len() && s[k + 1] == '{' {
            in_var = true;
            start = k;
        }
        k = k + 1;
    }
    let mut r: Vec<String> = Vec::new();
    if in_var {
        r.push(string_of_range(&s, start, s.len()));
        assert(r@.map_values(|x: String| x@) =~= seq![s@.subrange(start as int, s@.len() as int)]);
    } else {
        assert(r@.map_values(|x: String| x@) =~= Seq::<Seq<char>>::empty());
    }
    r
}

} // verus!
