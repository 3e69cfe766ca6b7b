//! Scripts (reusable prompt blocks) and templates (ordered compositions of scripts).
use vstd::prelude::*;
use crate::clock::{generate_uuid, is_uuid_v4_text, now_utc_rfc3339};
use crate::text::{
    chars_of, contains, contains_exec, join, lowercase, non_empty, split_char, split_exec,
    starts_with, to_lowercase,
};
use crate::value_map::ValueMap;

verus! {

/// One reusable prompt block.
#[derive(Debug, Clone)]
pub struct Script {
    pub id: String,
    pub name: String,
    /// Hierarchical tag path such as `writing/academic/outline`.
    pub tags: String,
    pub content: String,
    pub created_at: String,
    pub updated_at: String,
    pub use_count: u32,
    /// When the script was last used, as an RFC 3339 string.
    pub last_used: String,
    pub is_favorite: bool,
}

/// An ordered combination of scripts with shared variable values.
#[derive(Debug, Clone)]
pub struct Template {
    pub id: String,
    pub name: String,
    pub tags: String,
    pub script_ids: Vec<String>,
    pub variable_values: ValueMap,
    pub created_at: String,
    pub updated_at: String,
    pub use_count: u32,
    pub last_used: String,
    pub is_favorite: bool,
    pub category: String,
}

/// The segments of a tag path: the non-empty pieces between `/`.
pub open spec fn tag_segments(tags: Seq<char>) -> Seq<Seq<char>> {
    non_empty(split_char(tags, '/'))
}

/// A tag matches a filter: the filter is empty, equals the tag, or is a
/// proper ancestor of it (the tag starts with the filter and `/`).
pub open spec fn tag_matches(tags: Seq<char>, filter: Seq<char>) -> bool {
    filter.len() == 0 || tags == filter || starts_with(tags, filter + seq!['/'])
}

/// Case-insensitive containment, as the library compares search text.
pub open spec fn contains_ci(text: Seq<char>, search: Seq<char>) -> bool {
    contains(lowercase(text), lowercase(search))
}

/// The ids as a sequence of strings.
pub open spec fn ids_view(ids: Seq<String>) -> Seq<Seq<char>> {
    ids.map_values(|s: String| s@)
}

/// The sequence with every occurrence of `x` left out.
pub open spec fn without(s: Seq<Seq<char>>, x: Seq<char>) -> Seq<Seq<char>>
    decreases s.len(),
{
    if s.len() == 0 {
        seq![]
    } else if s.last() == x {
        without(s.drop_last(), x)
    } else {
        without(s.drop_last(), x).push(s.last())
    }
}

/// Some name of the map contains `search`, ignoring case.
pub open spec fn some_key_contains_ci(pairs: Seq<(Seq<char>, Seq<char>)>, search: Seq<char>) -> bool {
    exists|i: int| 0 <= i < pairs.len() && contains_ci(#[trigger] pairs[i].0, search)
}

/// Some value of the map contains `search`, ignoring case.
pub open spec fn some_value_contains_ci(pairs: Seq<(Seq<char>, Seq<char>)>, search: Seq<char>) -> bool {
    exists|i: int| 0 <= i < pairs.len() && contains_ci(#[trigger] pairs[i].1, search)
}

/// Case-insensitive containment of `search` in `text`.
pub fn contains_text_ci(text: &str, search_lower: &[char]) -> (r: bool)
    ensures
        r == contains(lowercase(text@), search_lower@),
{
    let t = to_lowercase(text);
    let tc = chars_of(t.as_str());
    contains_exec(&tc, search_lower)
}

/// The non-empty segments of a tag path, as strings.
pub fn tag_hierarchy(tags: &str) -> (r: Vec<String>)
    ensures
        r@.map_values(|s: String| s@) == tag_segments(tags@),
{
    let cs = chars_of(tags);
    let parts = split_exec(&cs, '/');
    let mut r: Vec<String> = Vec::new();
    let mut i: usize = 0;
    while i < parts.len()
        invariant
            i <= parts@.len(),
            parts@.map_values(|s: String| s@) == split_char(tags@, '/'),
            r@.map_values(|s: String| s@) == non_empty(parts@.map_values(|s: String| s@).take(i as int)),
        decreases parts@.len() - i,
    {
        let ghost pv = parts@.map_values(|s: String| s@);
        assert(pv.take(i + 1).drop_last() =~= pv.take(i as int));
        if !parts[i].as_str().is_empty() {
            let ghost prev = r@;
            r.push(parts[i].clone());
            assert(r@.map_values(|s: String| s@) =~= prev.map_values(|s: String| s@).push(pv[i as int]));
        }
        i = i + 1;
    }
    assert(parts@.map_values(|s: String| s@).take(parts@.len() as int) =~= parts@.map_values(|s: String| s@));
    r
}

/// Whether a tag path matches a filter (see `tag_matches`).
pub fn tag_matches_exec(tags: &str, filter: &str) -> (r: bool)
    ensures
        r == tag_matches(tags@, filter@),
{
    let f = chars_of(filter);
    if f.len() == 0 {
        return true;
    }
    let t = chars_of(tags);
    if crate::text::chars_eq(&t, &f) {
        return true;
    }
    let mut fs = f.clone();
    fs.push('/');
    assert(fs@ =~= filter@ + seq!['/']);
    crate::text::starts_with_exec(&t, &fs)
}

/// Two scripts hold the same values in every field.
pub open spec fn same_script(a: Script, b: Script) -> bool {
    &&& a.id@ == b.id@
    &&& a.name@ == b.name@
    &&& a.tags@ == b.tags@
    &&& a.content@ == b.content@
    &&& a.created_at@ == b.created_at@
    &&& a.updated_at@ == b.updated_at@
    &&& a.use_count == b.use_count
    &&& a.last_used@ == b.last_used@
    &&& a.is_favorite == b.is_favorite
}

/// Two templates hold the same values in every field.
pub open spec fn same_template(a: Template, b: Template) -> bool {
    &&& a.id@ == b.id@
    &&& a.name@ == b.name@
    &&& a.tags@ == b.tags@
    &&& ids_view(a.script_ids@) == ids_view(b.script_ids@)
    &&& a.variable_values.view() == b.variable_values.view()
    &&& a.variable_values.entries_view() == b.variable_values.entries_view()
    &&& a.created_at@ == b.created_at@
    &&& a.updated_at@ == b.updated_at@
    &&& a.use_count == b.use_count
    &&& a.last_used@ == b.last_used@
    &&& a.is_favorite == b.is_favorite
    &&& a.category@ == b.category@
}

/// A copy of a script.
pub fn copy_script(s: &Script) -> (r: Script)
    ensures
        r == *s,
{
    Script {
        id: s.id.clone(),
        name: s.name.clone(),
        tags: s.tags.clone(),
        content: s.content.clone(),
        created_at: s.created_at.clone(),
        updated_at: s.updated_at.clone(),
        use_count: s.use_count,
        last_used: s.last_used.clone(),
        is_favorite: s.is_favorite,
    }
}

/// A copy of a template.
pub fn copy_template(t: &Template) -> (r: Template)
    ensures
        same_template(r, *t),
{
    let ids = t.script_ids.clone();
    proof {
        assert(ids_view(ids@) =~= ids_view(t.script_ids@));
    }
    Template {
        id: t.id.clone(),
        name: t.name.clone(),
        tags: t.tags.clone(),
        script_ids: ids,
        variable_values: t.variable_values.clone(),
        created_at: t.created_at.clone(),
        updated_at: t.updated_at.clone(),
        use_count: t.use_count,
        last_used: t.last_used.clone(),
        is_favorite: t.is_favorite,
        category: t.category.clone(),
    }
}

impl Script {
    /// A new script with a fresh id, never used and not a favourite.
    pub fn new(name: String, tags: String, content: String) -> (r: Script)
        ensures
            r.name@ == name@,
            r.tags@ == tags@,
            r.content@ == content@,
            is_uuid_v4_text(r.id@),
            r.created_at@ == r.updated_at@,
            r.last_used@ == r.created_at@,
            r.use_count == 0,
            !r.is_favorite,
    {
        let now = now_utc_rfc3339();
        Script {
            id: generate_uuid(),
            name,
            tags,
            content,
            created_at: now.clone(),
            updated_at: now.clone(),
            use_count: 0,
            last_used: now,
            is_favorite: false,
        }
    }

    /// Replaces each field that is given, and stamps the update time.
    pub fn update(&mut self, name: Option<String>, tags: Option<String>, content: Option<String>)
        ensures
            final(self).name@ == (match name {
                Some(n) => n@,
                None => old(self).name@,
            }),
            final(self).tags@ == (match tags {
                Some(t) => t@,
                None => old(self).tags@,
            }),
            final(self).content@ == (match content {
                Some(c) => c@,
                None => old(self).content@,
            }),
            final(self).id == old(self).id,
            final(self).created_at == old(self).created_at,
            final(self).use_count == old(self).use_count,
            final(self).last_used == old(self).last_used,
            final(self).is_favorite == old(self).is_favorite,
    {
        if let Some(name) = name {
            self.name = name;
        }
        if let Some(tags) = tags {
            self.tags = tags;
        }
        if let Some(content) = content {
            self.content = content;
        }
        self.updated_at = now_utc_rfc3339();
    }

    /// Counts one more use and stamps the time of use.
    pub fn increment_use_count(&mut self)
        requires
            old(self).use_count < u32::MAX,
        ensures
            final(self).use_count == old(self).use_count + 1,
            final(self).id == old(self).id,
            final(self).name == old(self).name,
            final(self).tags == old(self).tags,
            final(self).content == old(self).content,
            final(self).created_at == old(self).created_at,
            final(self).updated_at == old(self).updated_at,
            final(self).is_favorite == old(self).is_favorite,
    {
        self.use_count = self.use_count + 1;
        self.last_used = now_utc_rfc3339();
    }

    /// The non-empty segments of the tag path.
    pub fn get_tags_hierarchy(&self) -> (r: Vec<String>)
        ensures
            r@.map_values(|s: String| s@) == tag_segments(self.tags@),
    {
        tag_hierarchy(self.tags.as_str())
    }

    /// Whether the script's tag path matches `tag_filter` (empty, equal, or an ancestor).
    pub fn matches_tags(&self, tag_filter: &str) -> (r: bool)
        ensures
            r == tag_matches(self.tags@, tag_filter@),
    {
        tag_matches_exec(self.tags.as_str(), tag_filter)
    }

    /// Whether the name, content or tags contain `search_text`, ignoring case.
    pub fn contains_text(&self, search_text: &str) -> (r: bool)
        ensures
            r == (contains_ci(self.name@, search_text@) || contains_ci(self.content@, search_text@)
                || contains_ci(self.tags@, search_text@)),
    {
        let s = to_lowercase(search_text);
        let sc = chars_of(s.as_str());
        contains_text_ci(self.name.as_str(), &sc) || contains_text_ci(self.content.as_str(), &sc)
            || contains_text_ci(self.tags.as_str(), &sc)
    }
}

impl Template {
    /// A new template with a fresh id, never used, not a favourite and without category.
    pub fn new(name: String, tags: String, script_ids: Vec<String>, variable_values: ValueMap) -> (r:
        Template)
        ensures
            r.name@ == name@,
            r.tags@ == tags@,
            r.script_ids@ == script_ids@,
            r.variable_values.view() == variable_values.view(),
            r.variable_values.entries_view() == variable_values.entries_view(),
            is_uuid_v4_text(r.id@),
            r.created_at@ == r.updated_at@,
            r.last_used@ == r.created_at@,
            r.use_count == 0,
            !r.is_favorite,
            r.category@.len() == 0,
    {
        let now = now_utc_rfc3339();
        Template {
            id: generate_uuid(),
            name,
            tags,
            script_ids,
            variable_values,
            created_at: now.clone(),
            updated_at: now.clone(),
            use_count: 0,
            last_used: now,
            is_favorite: false,
            category: String::new(),
        }
    }

    /// Replaces each field that is given, and stamps the update time.
    pub fn update(
        &mut self,
        name: Option<String>,
        tags: Option<String>,
        script_ids: Option<Vec<String>>,
        variable_values: Option<ValueMap>,
    )
        ensures
            final(self).name@ == (match name {
                Some(n) => n@,
                None => old(self).name@,
            }),
            final(self).tags@ == (match tags {
                Some(t) => t@,
                None => old(self).tags@,
            }),
            final(self).script_ids@ == (match script_ids {
                Some(s) => s@,
                None => old(self).script_ids@,
            }),
            final(self).variable_values.view() == (match variable_values {
                Some(v) => v.view(),
                None => old(self).variable_values.view(),
            }),
            final(self).id == old(self).id,
            final(self).created_at == old(self).created_at,
            final(self).use_count == old(self).use_count,
            final(self).last_used == old(self).last_used,
            final(self).is_favorite == old(self).is_favorite,
            final(self).category == old(self).category,
    {
        if let Some(name) = name {
            self.name = name;
        }
        if let Some(tags) = tags {
            self.tags = tags;
        }
        if let Some(script_ids) = script_ids {
            self.script_ids = script_ids;
        }
        if let Some(variable_values) = variable_values {
            self.variable_values = variable_values;
        }
        self.updated_at = now_utc_rfc3339();
    }

    /// Counts one more use and stamps the time of use.
    pub fn increment_use_count(&mut self)
        requires
            old(self).use_count < u32::MAX,
        ensures
            final(self).use_count == old(self).use_count + 1,
            final(self).id == old(self).id,
            final(self).name == old(self).name,
            final(self).tags == old(self).tags,
            final(self).script_ids == old(self).script_ids,
            final(self).variable_values == old(self).variable_values,
            final(self).created_at == old(self).created_at,
            final(self).updated_at == old(self).updated_at,
            final(self).is_favorite == old(self).is_favorite,
            final(self).category == old(self).category,
    {
        self.use_count = self.use_count + 1;
        self.last_used = now_utc_rfc3339();
    }

    /// Appends a script id unless the template already lists it; an append
    /// stamps the update time.
    pub fn add_script_id(&mut self, script_id: String)
        ensures
            ids_view(final(self).script_ids@) == (if ids_view(old(self).script_ids@).contains(
                script_id@,
            ) {
                ids_view(old(self).script_ids@)
            } else {
                ids_view(old(self).script_ids@).push(script_id@)
            }),
            final(self).id == old(self).id,
            final(self).name == old(self).name,
            final(self).tags == old(self).tags,
            final(self).variable_values == old(self).variable_values,
            final(self).use_count == old(self).use_count,
            final(self).is_favorite == old(self).is_favorite,
            ids_view(old(self).script_ids@).contains(script_id@) ==> final(self).updated_at
                == old(self).updated_at,
    {
        if !crate::text::contains_string(&self.script_ids, &script_id) {
            let ghost prev = self.script_ids@;
            self.script_ids.push(script_id);
            assert(ids_view(self.script_ids@) =~= ids_view(prev).push(self.script_ids@.last()@));
            self.updated_at = now_utc_rfc3339();
        }
    }

    /// Removes every occurrence of a script id, and stamps the update time.
    pub fn remove_script_id(&mut self, script_id: &str)
        ensures
            ids_view(final(self).script_ids@) == without(ids_view(old(self).script_ids@), script_id@),
            final(self).id == old(self).id,
            final(self).name == old(self).name,
            final(self).tags == old(self).tags,
            final(self).variable_values == old(self).variable_values,
            final(self).created_at == old(self).created_at,
            final(self).use_count == old(self).use_count,
            final(self).last_used == old(self).last_used,
            final(self).is_favorite == old(self).is_favorite,
            final(self).category == old(self).category,
    {
        let target = chars_of(script_id);
        let mut kept: Vec<String> = Vec::new();
        let mut i: usize = 0;
        let ghost ids = ids_view(self.script_ids@);
        while i < self.script_ids.len()
            invariant
                i <= self.script_ids@.len(),
                ids == ids_view(self.script_ids@),
                target@ == script_id@,
                ids_view(kept@) == without(ids.take(i as int), script_id@),
            decreases self.script_ids@.len() - i,
        {
            assert(ids.take(i + 1).drop_last() =~= ids.take(i as int));
            let c = chars_of(self.script_ids[i].as_str());
            if !crate::text::chars_eq(&c, &target) {
                let ghost prev = kept@;
                kept.push(self.script_ids[i].clone());
                assert(ids_view(kept@) =~= ids_view(prev).push(ids[i as int]));
            }
            i = i + 1;
        }
        assert(ids.take(i as int) =~= ids);
        self.script_ids = kept;
        self.updated_at = now_utc_rfc3339();
    }

    /// Sets a shared variable value, and stamps the update time.
    pub fn set_variable_value(&mut self, name: String, value: String)
        ensures
            final(self).variable_values.view() == old(self).variable_values.view().insert(
                name@,
                value@,
            ),
            final(self).id == old(self).id,
            final(self).name == old(self).name,
            final(self).tags == old(self).tags,
            final(self).script_ids == old(self).script_ids,
    {
        self.variable_values.insert(name, value);
        self.updated_at = now_utc_rfc3339();
    }

    /// The shared value of a variable, if the template sets one.
    pub fn get_variable_value(&self, name: &str) -> (r: Option<&String>)
        ensures
            match r {
                Some(v) => self.variable_values.view().contains_key(name@) && v@
                    == self.variable_values.view()[name@],
                None => !self.variable_values.view().contains_key(name@),
            },
    {
        self.variable_values.get(name)
    }

    /// The non-empty segments of the tag path.
    pub fn get_tags_hierarchy(&self) -> (r: Vec<String>)
        ensures
            r@.map_values(|s: String| s@) == tag_segments(self.tags@),
    {
        tag_hierarchy(self.tags.as_str())
    }

    /// Whether the name, the tags, some variable name or some variable value
    /// contains `search_text`, ignoring case.
    pub fn contains_text(&self, search_text: &str) -> (r: bool)
        ensures
            r == (contains_ci(self.name@, search_text@) || contains_ci(self.tags@, search_text@)
                || some_key_contains_ci(self.variable_values.entries_view(), search_text@)
                || some_value_contains_ci(self.variable_values.entries_view(), search_text@)),
    {
        let s = to_lowercase(search_text);
        let sc = chars_of(s.as_str());
        if contains_text_ci(self.name.as_str(), &sc) || contains_text_ci(self.tags.as_str(), &sc) {
            return true;
        }
        let n = self.variable_values.len();
        let mut i: usize = 0;
        while i < n
            invariant
                n == self.variable_values.entries_view().len(),
                i <= n,
                sc@ == lowercase(search_text@),
                forall|j: int| 0 <= j < i ==> !contains_ci(
                    #[trigger] self.variable_values.entries_view()[j].0,
                    search_text@,
                ),
            decreases n - i,
        {
            if contains_text_ci(self.variable_values.key_at(i).as_str(), &sc) {
                return true;
            }
            i = i + 1;
        }
        let mut i: usize = 0;
        while i < n
            invariant
                n == self.variable_values.entries_view().len(),
                i <= n,
                sc@ == lowercase(search_text@),
                forall|j: int| 0 <= j < i ==> !contains_ci(
                    #[trigger] self.variable_values.entries_view()[j].1,
                    search_text@,
                ),
                !some_key_contains_ci(self.variable_values.entries_view(), search_text@),
            decreases n - i,
        {
            if contains_text_ci(self.variable_values.value_at(i).as_str(), &sc) {
                return true;
            }
            i = i + 1;
        }
        false
    }
}

} // verus!
