//! Hierarchical tags: the tag tree with usage counts, renaming, cascading
//! deletion, merging, suggestions and tag formats.
use vstd::prelude::*;
use std::sync::Arc;
use crate::data::{tag_hierarchy, tag_segments, Script, Template};
use crate::sort::{key_lt, key_view, permuted, stable_order, stably_sorted, KeyView, SortKey};
use crate::text::{byte_len, join, non_empty, push_char, push_range, push_str, views};
use crate::variable::{dedup, lemma_dedup_contains, lemma_dedup_no_duplicates, lemma_push_contains};

verus! {

// ---------------------------------------------------------------------------
// The model: the tags added so far
// ---------------------------------------------------------------------------
/// `p` is a prefix of `s`.
pub open spec fn is_prefix(p: Seq<Seq<char>>, s: Seq<Seq<char>>) -> bool {
    p.len() <= s.len() && s.take(p.len() as int) == p
}

/// How many of the tags in `h` lie at or below the segment path `path`.
pub open spec fn count_under(h: Seq<Seq<char>>, path: Seq<Seq<char>>) -> nat
    decreases h.len(),
{
    if h.len() == 0 {
        0
    } else {
        count_under(h.drop_last(), path) + if is_prefix(path, tag_segments(h.last())) {
            1nat
        } else {
            0nat
        }
    }
}

/// How many times `t` occurs in `h`.
pub open spec fn occurrences(h: Seq<Seq<char>>, t: Seq<char>) -> nat
    decreases h.len(),
{
    if h.len() == 0 {
        0
    } else {
        occurrences(h.drop_last(), t) + if h.last() == t {
            1nat
        } else {
            0nat
        }
    }
}

/// Each distinct tag of `h` with its number of occurrences, in order of first occurrence.
pub open spec fn tag_counts(h: Seq<Seq<char>>) -> Seq<(Seq<char>, nat)> {
    dedup(h).map_values(|k: Seq<char>| (k, occurrences(h, k)))
}

/// The tag paths of scripts.
pub open spec fn script_tags(s: Seq<Script>) -> Seq<Seq<char>> {
    s.map_values(|x: Script| x.tags@)
}

/// The tag paths of templates.
pub open spec fn template_tags(s: Seq<Template>) -> Seq<Seq<char>> {
    s.map_values(|x: Template| x.tags@)
}

/// The full path of the node at a segment path.
pub open spec fn full_path_of(path: Seq<Seq<char>>) -> Seq<char> {
    join(path, seq!['/'])
}

pub open spec fn count_pair_view(p: (String, usize)) -> (Seq<char>, nat) {
    (p.0@, p.1 as nat)
}

/// The views of count entries.
pub open spec fn count_views(s: Seq<(String, usize)>) -> Seq<(Seq<char>, nat)> {
    s.map_values(|p: (String, usize)| count_pair_view(p))
}

/// The child entries below `path`: the full path and count of each segment
/// that some tag continues `path` with.
pub open spec fn child_entry(h: Seq<Seq<char>>, path: Seq<Seq<char>>, x: (Seq<char>, nat)) -> bool {
    exists|s: Seq<char>|
        #![trigger count_under(h, path.push(s))]
        count_under(h, path.push(s)) > 0 && x == (full_path_of(path.push(s)), count_under(
            h,
            path.push(s),
        ))
}

/// Keys that order entries by count, highest first.
pub open spec fn count_desc_keys(s: Seq<(Seq<char>, nat)>) -> Seq<KeyView> {
    s.map_values(|p: (Seq<char>, nat)| (u64::MAX - p.1, 0int, Seq::<char>::empty()))
}

/// The entries are ordered by count, highest first.
pub open spec fn counts_descending(s: Seq<(Seq<char>, nat)>) -> bool {
    forall|i: int, j: int| 0 <= i < j < s.len() ==> #[trigger] s[i].1 >= #[trigger] s[j].1
}

// ---------------------------------------------------------------------------
// The tag tree
// ---------------------------------------------------------------------------
/// A node of the tag tree: one path segment with the nodes below it.
#[derive(Debug)]
pub struct TagNode {
    pub name: String,
    pub full_path: String,
    pub children: Vec<TagNode>,
    pub usage_count: usize,
}

impl TagNode {
    /// A node without children and without uses.
    pub fn new(name: String, full_path: String) -> (r: TagNode)
        ensures
            r.name@ == name@,
            r.full_path@ == full_path@,
            r.children@.len() == 0,
            r.usage_count == 0,
    {
        TagNode { name, full_path, children: Vec::new(), usage_count: 0 }
    }
}

/// `n` is the node for segment path `path` of the tree built from the tags `h`:
/// it counts the tags at or below it, its full path joins its segments, and
/// its children are exactly the segments that tags continue `path` with.
pub open spec fn node_ok(n: TagNode, path: Seq<Seq<char>>, h: Seq<Seq<char>>) -> bool
    decreases n,
{
    &&& path.len() > 0 ==> {
        &&& n.name@ == path.last()
        &&& n.usage_count == count_under(h, path)
        &&& n.full_path@ == full_path_of(path)
    }
    &&& forall|i: int, j: int|
        0 <= i < j < n.children@.len() ==> (#[trigger] n.children@[i]).name@
            != (#[trigger] n.children@[j]).name@
    &&& forall|i: int|
        0 <= i < n.children@.len() ==> count_under(h, path.push((#[trigger] n.children@[i]).name@))
            > 0 && node_ok(n.children@[i], path.push(n.children@[i].name@), h)
    &&& forall|s: Seq<char>|
        #![trigger count_under(h, path.push(s))]
        count_under(h, path.push(s)) > 0 ==> exists|i: int|
            0 <= i < n.children@.len() && (#[trigger] n.children@[i]).name@ == s
}

// ---------------------------------------------------------------------------
// Lemmas on the model
// ---------------------------------------------------------------------------
pub proof fn lemma_count_under_bound(h: Seq<Seq<char>>, path: Seq<Seq<char>>)
    ensures
        count_under(h, path) <= h.len(),
    decreases h.len(),
{
    if h.len() > 0 {
        lemma_count_under_bound(h.drop_last(), path);
    }
}

pub proof fn lemma_count_under_push(h: Seq<Seq<char>>, t: Seq<char>, path: Seq<Seq<char>>)
    ensures
        count_under(h.push(t), path) == count_under(h, path) + if is_prefix(path, tag_segments(t)) {
            1nat
        } else {
            0nat
        },
{
    assert(h.push(t).drop_last() =~= h);
}

/// A longer path has no more tags below it.
pub proof fn lemma_count_under_mono(h: Seq<Seq<char>>, path: Seq<Seq<char>>, s: Seq<char>)
    ensures
        count_under(h, path.push(s)) <= count_under(h, path),
    decreases h.len(),
{
    if h.len() > 0 {
        lemma_count_under_mono(h.drop_last(), path, s);
        let segs = tag_segments(h.last());
        if is_prefix(path.push(s), segs) {
            assert(segs.take(path.len() as int) =~= segs.take((path.len() + 1) as int).take(path.len() as int));
            assert(path.push(s).take(path.len() as int) =~= path);
        }
    }
}

pub proof fn lemma_occurrences_push(h: Seq<Seq<char>>, t: Seq<char>, k: Seq<char>)
    ensures
        occurrences(h.push(t), k) == occurrences(h, k) + if k == t {
            1nat
        } else {
            0nat
        },
{
    assert(h.push(t).drop_last() =~= h);
}

pub proof fn lemma_occurrences_contains(h: Seq<Seq<char>>, k: Seq<char>)
    ensures
        occurrences(h, k) > 0 <==> h.contains(k),
        occurrences(h, k) <= h.len(),
    decreases h.len(),
{
    if h.len() > 0 {
        lemma_occurrences_contains(h.drop_last(), k);
        assert(h =~= h.drop_last().push(h.last()));
        lemma_push_contains(h.drop_last(), h.last(), k);
    }
}

/// An entry is among the counts of `h` exactly when its key occurs in `h`
/// and its count is the number of occurrences.
pub proof fn lemma_tag_counts_contains(h: Seq<Seq<char>>, k: Seq<char>, c: nat)
    ensures
        tag_counts(h).contains((k, c)) <==> (h.contains(k) && c == occurrences(h, k)),
{
    lemma_dedup_contains(h, k);
    if tag_counts(h).contains((k, c)) {
        let j = choose|j: int| 0 <= j < tag_counts(h).len() && tag_counts(h)[j] == (k, c);
        assert(dedup(h)[j] == k);
    }
    if h.contains(k) && c == occurrences(h, k) {
        let j = choose|j: int| 0 <= j < dedup(h).len() && dedup(h)[j] == k;
        assert(tag_counts(h)[j] == (k, c));
    }
}

/// The counts after adding one tag.
pub proof fn lemma_tag_counts_push(h: Seq<Seq<char>>, t: Seq<char>)
    ensures
        h.contains(t) ==> exists|i: int|
            0 <= i < dedup(h).len() && dedup(h)[i] == t && tag_counts(h.push(t)) == tag_counts(
                h,
            ).update(i, (t, occurrences(h, t) + 1)),
        !h.contains(t) ==> tag_counts(h.push(t)) == tag_counts(h).push((t, 1nat)),
{
    let h2 = h.push(t);
    assert(h2.drop_last() =~= h);
    lemma_dedup_no_duplicates(h);
    assert forall|k: Seq<char>| occurrences(h2, k) == occurrences(h, k) + if k == t {
        1nat
    } else {
        0nat
    } by {
        lemma_occurrences_push(h, t, k);
    }
    if h.contains(t) {
        lemma_dedup_contains(h, t);
        let i = choose|i: int| 0 <= i < dedup(h).len() && dedup(h)[i] == t;
        assert(dedup(h2) == dedup(h));
        assert(tag_counts(h2) =~= tag_counts(h).update(i, (t, occurrences(h, t) + 1)));
    } else {
        lemma_occurrences_contains(h, t);
        assert(dedup(h2) == dedup(h).push(t));
        assert forall|j: int| 0 <= j < dedup(h).len() implies dedup(h)[j] != t by {
            lemma_dedup_contains(h, t);
            assert(dedup(h).contains(dedup(h)[j]));
        }
        assert(tag_counts(h2) =~= tag_counts(h).push((t, 1nat)));
    }
}

/// A node whose path the new tag does not reach keeps its meaning.
pub proof fn lemma_node_unaffected(
    n: TagNode,
    path: Seq<Seq<char>>,
    h: Seq<Seq<char>>,
    t: Seq<char>,
)
    requires
        node_ok(n, path, h),
        !is_prefix(path, tag_segments(t)),
    ensures
        node_ok(n, path, h.push(t)),
    decreases n,
{
    let segs = tag_segments(t);
    lemma_count_under_push(h, t, path);
    assert forall|s: Seq<char>| !is_prefix(path.push(s), segs) by {
        if is_prefix(path.push(s), segs) {
            assert(segs.take(path.len() as int) =~= segs.take((path.len() + 1) as int).take(path.len() as int));
            assert(path.push(s).take(path.len() as int) =~= path);
        }
    }
    assert forall|s: Seq<char>| count_under(h.push(t), path.push(s)) == count_under(h, path.push(s)) by {
        lemma_count_under_push(h, t, path.push(s));
    }
    assert forall|i: int| 0 <= i < n.children@.len() implies count_under(
        h.push(t),
        path.push((#[trigger] n.children@[i]).name@),
    ) > 0 && node_ok(n.children@[i], path.push(n.children@[i].name@), h.push(t)) by {
        lemma_node_unaffected(n.children@[i], path.push(n.children@[i].name@), h, t);
    }
}

pub proof fn lemma_join_push(p: Seq<Seq<char>>, s: Seq<char>)
    ensures
        full_path_of(p.push(s)) == if p.len() == 0 {
            s
        } else {
            full_path_of(p) + seq!['/'] + s
        },
{
    assert(p.push(s).drop_last() =~= p);
}

// ---------------------------------------------------------------------------
// Building the tree
/// Index of the child named `part`, if there is one.
fn find_child(children: &Vec<TagNode>, part: &String) -> (r: Option<usize>)
    ensures
        match r {
            Some(i) => i < children@.len() && children@[i as int].name@ == part@,
            None => forall|j: int| 0 <= j < children@.len() ==> (#[trigger] children@[j]).name@ != part@,
        },
{
    let mut k: usize = 0;
    while k < children.len()
        invariant
            k <= children@.len(),
            forall|j: int| 0 <= j < k ==> (#[trigger] children@[j]).name@ != part@,
        decreases children@.len() - k,
    {
        if children[k].name == *part {
            return Some(k);
        }
        k = k + 1;
    }
    None
}

/// Index of the count entry for `tag`, if there is one.
fn find_tag(all_tags: &Vec<(String, usize)>, tag: &String) -> (r: Option<usize>)
    ensures
        match r {
            Some(i) => i < all_tags@.len() && all_tags@[i as int].0@ == tag@,
            None => forall|j: int| 0 <= j < all_tags@.len() ==> (#[trigger] all_tags@[j]).0@ != tag@,
        },
{
    let mut k: usize = 0;
    while k < all_tags.len()
        invariant
            k <= all_tags@.len(),
            forall|j: int| 0 <= j < k ==> (#[trigger] all_tags@[j]).0@ != tag@,
        decreases all_tags@.len() - k,
    {
        if all_tags[k].0 == *tag {
            return Some(k);
        }
        k = k + 1;
    }
    None
}

// ---------------------------------------------------------------------------
/// The segment path of the first `idx` segments of `t`.
pub open spec fn seg_path(t: Seq<char>, idx: int) -> Seq<Seq<char>> {
    tag_segments(t).take(idx)
}

/// Adds the tag `t` below `node`, the node for the first `idx` segments of `t`.
fn add_segments(
    node: &mut TagNode,
    segs: &Vec<String>,
    idx: usize,
    current_path: &String,
    Ghost(h): Ghost<Seq<Seq<char>>>,
    Ghost(t): Ghost<Seq<char>>,
)
    requires
        idx <= segs@.len(),
        segs@.map_values(|s: String| s@) == tag_segments(t),
        h.len() < usize::MAX,
        node_ok(*old(node), seg_path(t, idx as int), h),
        current_path@ == full_path_of(seg_path(t, idx as int)),
    ensures
        node_ok(*final(node), seg_path(t, idx as int), h.push(t)),
    decreases segs@.len() - idx,
{
    let ghost path = seg_path(t, idx as int);
    let ghost h2 = h.push(t);
    let ghost segs_v = tag_segments(t);
    proof {
        assert(is_prefix(path, segs_v));
        lemma_count_under_push(h, t, path);
        lemma_count_under_bound(h, path);
    }
    if idx > 0 {
        node.usage_count = node.usage_count + 1;
    }
    if idx == segs.len() {
        proof {
            assert forall|s: Seq<char>| !is_prefix(#[trigger] path.push(s), segs_v) by {}
            assert forall|s: Seq<char>| count_under(h2, path.push(s)) == count_under(h, path.push(s)) by {
                lemma_count_under_push(h, t, path.push(s));
            }
            assert forall|i: int| 0 <= i < node.children@.len() implies count_under(
                h2,
                path.push((#[trigger] node.children@[i]).name@),
            ) > 0 && node_ok(node.children@[i], path.push(node.children@[i].name@), h2) by {
                lemma_node_unaffected(node.children@[i], path.push(node.children@[i].name@), h, t);
            }
        }
        return;
    }
    let part = &segs[idx];
    proof {
        assert(segs_v[idx as int] == part@);
        assert(seg_path(t, idx + 1) =~= path.push(part@));
    }
    let mut children: Vec<TagNode> = Vec::new();
    std::mem::swap(&mut children, &mut node.children);
    let ghost old_children = children@;
    let found = find_child(&children, part);
    let ghost child_path = path.push(part@);
    let i: usize = match found {
        Some(i) => i,
        None => {
            let mut fp = if idx == 0 {
                String::new()
            } else {
                let mut s = current_path.clone();
                push_char(&mut s, '/');
                s
            };
            push_str(&mut fp, part.as_str());
            proof {
                lemma_join_push(path, part@);
                if idx == 0 {
                    assert(fp@ =~= part@);
                } else {
                    assert(fp@ =~= full_path_of(path) + seq!['/'] + part@);
                }
                if count_under(h, child_path) > 0 {
                    let j = choose|j: int|
                        0 <= j < old_children.len() && (#[trigger] old_children[j]).name@ == part@;
                    assert(children@[j].name@ == part@);
                }
                assert(count_under(h, child_path) == 0);
                assert forall|s: Seq<char>| count_under(h, child_path.push(s)) == 0 by {
                    lemma_count_under_mono(h, child_path, s);
                }
            }
            children.push(TagNode::new(part.clone(), fp));
            children.len() - 1
        },
    };
    let ghost with_child = children@;
    proof {
        assert(with_child[i as int].name@ == part@);
        assert(node_ok(with_child[i as int], child_path, h));
        assert forall|j: int| 0 <= j < with_child.len() && j != i implies (#[trigger] with_child[j]).name@ != part@ by {
            if found is None {
                assert(with_child[j] == old_children[j]);
            }
        }
    }
    let mut child = children.remove(i);
    let cp = child.full_path.clone();
    add_segments(&mut child, segs, idx + 1, &cp, Ghost(h), Ghost(t));
    children.insert(i, child);
    std::mem::swap(&mut children, &mut node.children);
    proof {
        let nc = node.children@;
        assert(nc =~= with_child.update(i as int, nc[i as int]));
        assert(nc[i as int].name@ == part@);
        // children other than `i` are off the new tag's path
        assert forall|j: int| 0 <= j < nc.len() && j != i implies node_ok(
            #[trigger] nc[j],
            path.push(nc[j].name@),
            h2,
        ) && count_under(h2, path.push(nc[j].name@)) > 0 by {
            assert(nc[j] == with_child[j]);
            if found is Some {
                assert(node_ok(old_children[j], path.push(old_children[j].name@), h));
            }
            let q = path.push(nc[j].name@);
            if is_prefix(q, segs_v) {
                assert(q[idx as int] == segs_v.take(idx + 1)[idx as int]);
            }
            lemma_node_unaffected(nc[j], q, h, t);
            lemma_count_under_push(h, t, q);
        }
        lemma_count_under_push(h, t, child_path);
        assert forall|a: int, b: int| 0 <= a < b < nc.len() implies (#[trigger] nc[a]).name@ != (
        #[trigger] nc[b]).name@ by {
            if a != i && b != i && found is Some {
                assert(nc[a] == old_children[a] && nc[b] == old_children[b]);
            }
            if a != i && b != i && found is None {
                assert(nc[a] == old_children[a] && nc[b] == old_children[b]);
            }
        }
        assert forall|s: Seq<char>|
            #![trigger count_under(h2, path.push(s))]
            count_under(h2, path.push(s)) > 0 implies exists|j: int|
                0 <= j < nc.len() && (#[trigger] nc[j]).name@ == s by {
            lemma_count_under_push(h, t, path.push(s));
            if count_under(h, path.push(s)) > 0 {
                let j = choose|j: int|
                    0 <= j < old_children.len() && (#[trigger] old_children[j]).name@ == s;
                assert(with_child[j] == old_children[j]);
                if j == i {
                    assert(nc[i as int].name@ == s);
                } else {
                    assert(nc[j] == with_child[j]);
                }
            } else {
                assert(is_prefix(path.push(s), segs_v));
                assert(path.push(s)[idx as int] == s);
                assert(nc[i as int].name@ == s);
            }
        }
        assert forall|j: int| 0 <= j < nc.len() implies count_under(h2, path.push((#[trigger] nc[j]).name@))
            > 0 && node_ok(nc[j], path.push(nc[j].name@), h2) by {
            if j == i {
                assert(seg_path(t, idx + 1) == path.push(nc[j].name@));
            }
        }
    }
}

// ---------------------------------------------------------------------------
// The tag manager
// ---------------------------------------------------------------------------
/// The tag tree of all scripts and templates, with the number of uses of each tag.
pub struct TagManager {
    root: TagNode,
    all_tags: Vec<(String, usize)>,
    total: usize,
    history: Ghost<Seq<Seq<char>>>,
}

/// The tree and the counts describe the tags `h`.
pub open spec fn index_ok(root: TagNode, all_tags: Seq<(String, usize)>, h: Seq<Seq<char>>) -> bool {
    &&& node_ok(root, seq![], h)
    &&& all_tags.map_values(|p: (String, usize)| count_pair_view(p)) == tag_counts(h)
    &&& forall|i: int| 0 <= i < h.len() ==> (#[trigger] h[i]).len() > 0
}

/// Counts one more occurrence of `tag`.
fn count_one(all_tags: &mut Vec<(String, usize)>, tag: &String, Ghost(h): Ghost<Seq<Seq<char>>>)
    requires
        old(all_tags)@.map_values(|p: (String, usize)| count_pair_view(p)) == tag_counts(h),
        h.len() < usize::MAX,
    ensures
        final(all_tags)@.map_values(|p: (String, usize)| count_pair_view(p)) == tag_counts(h.push(tag@)),
{
    let ghost t = tag@;
    let ghost keys = all_tags@.map_values(|p: (String, usize)| count_pair_view(p));
    let found = find_tag(all_tags, tag);
    proof {
        lemma_tag_counts_push(h, t);
        lemma_dedup_contains(h, t);
        lemma_occurrences_contains(h, t);
        lemma_dedup_no_duplicates(h);
    }
    match found {
        Some(i) => {
            proof {
                assert(keys == tag_counts(h));
                assert(keys.len() == all_tags@.len());
                assert(tag_counts(h)[i as int] == (dedup(h)[i as int], occurrences(h, dedup(h)[i as int])));
                assert(keys[i as int] == count_pair_view(all_tags@[i as int]));
                assert(keys[i as int].0 == dedup(h)[i as int]);
                assert(dedup(h).contains(t));
                let j = choose|j: int|
                    0 <= j < dedup(h).len() && dedup(h)[j] == t && tag_counts(h.push(t)) == tag_counts(
                        h,
                    ).update(j, (t, occurrences(h, t) + 1));
                assert(j == i);
            }
            let c = all_tags[i].1;
            let key = all_tags[i].0.clone();
            all_tags.set(i, (key, c + 1));
            proof {
                assert(all_tags@.map_values(|p: (String, usize)| count_pair_view(p)) =~= tag_counts(h).update(i as int, (t, occurrences(h, t) + 1)));
            }
        },
        None => {
            proof {
                if h.contains(t) {
                    let j = choose|j: int| 0 <= j < dedup(h).len() && dedup(h)[j] == t;
                    assert(keys == tag_counts(h));
                    assert(tag_counts(h)[j] == (dedup(h)[j], occurrences(h, dedup(h)[j])));
                    assert(keys[j] == count_pair_view(all_tags@[j]));
                    assert(all_tags@[j].0@ == t);
                }
            }
            let ghost prev = all_tags@;
            all_tags.push((tag.clone(), 1));
            proof {
                assert(all_tags@.map_values(|p: (String, usize)| count_pair_view(p)) =~= prev.map_values(|p: (String, usize)| count_pair_view(p)).push((t, 1nat)));
            }
        },
    }
}

/// Each distinct key with its number of occurrences, in order of first occurrence.
pub fn count_each(keys: &Vec<String>) -> (r: Vec<(String, usize)>)
    ensures
        r@.map_values(|p: (String, usize)| count_pair_view(p)) == tag_counts(keys@.map_values(|s: String| s@)),
{
    let ghost kv = keys@.map_values(|s: String| s@);
    let mut r: Vec<(String, usize)> = Vec::new();
    let mut i: usize = 0;
    proof {
        assert(kv.take(0) =~= Seq::<Seq<char>>::empty());
        assert(dedup(kv.take(0)) =~= Seq::<Seq<char>>::empty());
        assert(r@.map_values(|p: (String, usize)| count_pair_view(p)) =~= tag_counts(kv.take(0)));
    }
    while i < keys.len()
        invariant
            i <= keys@.len(),
            kv == keys@.map_values(|s: String| s@),
            r@.map_values(|p: (String, usize)| count_pair_view(p)) == tag_counts(kv.take(i as int)),
        decreases keys@.len() - i,
    {
        count_one(&mut r, &keys[i], Ghost(kv.take(i as int)));
        assert(kv.take(i as int).push(keys@[i as int]@) =~= kv.take(i + 1));
        i = i + 1;
    }
    assert(kv.take(i as int) =~= kv);
    r
}

/// Adds one non-empty tag to the tree and the counts.
fn add_tag_to(
    root: &mut TagNode,
    all_tags: &mut Vec<(String, usize)>,
    tag: &String,
    Ghost(h): Ghost<Seq<Seq<char>>>,
)
    requires
        index_ok(*old(root), old(all_tags)@, h),
        h.len() < usize::MAX,
        tag@.len() > 0,
    ensures
        index_ok(*final(root), final(all_tags)@, h.push(tag@)),
{
    let ghost t = tag@;
    let ghost h2 = h.push(t);
    count_one(all_tags, tag, Ghost(h));
    // tree
    let segs = tag_hierarchy(tag.as_str());
    let empty = String::new();
    proof {
        assert(seg_path(t, 0) =~= Seq::<Seq<char>>::empty());
        assert(full_path_of(seg_path(t, 0)) == Seq::<char>::empty());
    }
    add_segments(root, &segs, 0, &empty, Ghost(h), Ghost(t));
    proof {
        assert(seg_path(t, 0) =~= Seq::<Seq<char>>::empty());
        assert forall|i: int| 0 <= i < h2.len() implies (#[trigger] h2[i]).len() > 0 by {
            if i < h.len() {
                assert(h2[i] == h[i]);
            }
        }
    }
}

/// The non-empty pieces of `a + b`.
pub proof fn lemma_non_empty_append(a: Seq<Seq<char>>, b: Seq<Seq<char>>)
    ensures
        non_empty(a + b) == non_empty(a) + non_empty(b),
    decreases b.len(),
{
    if b.len() == 0 {
        assert(a + b =~= a);
        assert(non_empty(a) + non_empty(b) =~= non_empty(a));
    } else {
        lemma_non_empty_append(a, b.drop_last());
        assert((a + b).drop_last() =~= a + b.drop_last());
        assert((a + b).last() == b.last());
        if b.last().len() > 0 {
            assert(non_empty(a) + non_empty(b) =~= (non_empty(a) + non_empty(b.drop_last())).push(b.last()));
        }
    }
}

pub proof fn lemma_non_empty_len(a: Seq<Seq<char>>)
    ensures
        non_empty(a).len() <= a.len(),
        forall|i: int| 0 <= i < non_empty(a).len() ==> (#[trigger] non_empty(a)[i]).len() > 0,
    decreases a.len(),
{
    if a.len() > 0 {
        lemma_non_empty_len(a.drop_last());
    }
}

/// Adds every non-empty tag of `tags`, in order.
fn add_all(
    root: &mut TagNode,
    all_tags: &mut Vec<(String, usize)>,
    tags: &Vec<String>,
    Ghost(h): Ghost<Seq<Seq<char>>>,
) -> (added: usize)
    requires
        index_ok(*old(root), old(all_tags)@, h),
        h.len() + tags@.len() < usize::MAX,
    ensures
        index_ok(*final(root), final(all_tags)@, h + non_empty(tags@.map_values(|s: String| s@))),
        added == non_empty(tags@.map_values(|s: String| s@)).len(),
{
    let ghost tv = tags@.map_values(|s: String| s@);
    let mut i: usize = 0;
    let mut added: usize = 0;
    proof {
        assert(h + non_empty(tv.take(0)) =~= h);
    }
    while i < tags.len()
        invariant
            i <= tags@.len(),
            tv == tags@.map_values(|s: String| s@),
            h.len() + tags@.len() < usize::MAX,
            index_ok(*root, all_tags@, h + non_empty(tv.take(i as int))),
            added == non_empty(tv.take(i as int)).len(),
            added <= i,
        decreases tags@.len() - i,
    {
        let ghost cur = h + non_empty(tv.take(i as int));
        proof {
            lemma_non_empty_len(tv.take(i as int));
            assert(tv.take(i + 1).drop_last() =~= tv.take(i as int));
            assert(tv.take(i + 1).last() == tags@[i as int]@);
        }
        if !tags[i].as_str().is_empty() {
            add_tag_to(root, all_tags, &tags[i], Ghost(cur));
            added = added + 1;
            proof {
                assert(h + non_empty(tv.take(i + 1)) =~= cur.push(tags@[i as int]@));
            }
        }
        i = i + 1;
    }
    assert(tv.take(i as int) =~= tv);
    added
}

/// The tag paths of scripts, in order.
fn tags_of_scripts(scripts: &[Script]) -> (r: Vec<String>)
    ensures
        r@.map_values(|s: String| s@) == script_tags(scripts@),
{
    let mut r: Vec<String> = Vec::new();
    let mut i: usize = 0;
    while i < scripts.len()
        invariant
            i <= scripts@.len(),
            r@.map_values(|s: String| s@) == script_tags(scripts@).take(i as int),
        decreases scripts@.len() - i,
    {
        let ghost prev = r@;
        r.push(scripts[i].tags.clone());
        assert(r@.map_values(|s: String| s@) =~= prev.map_values(|s: String| s@).push(scripts@[i as int].tags@));
        assert(script_tags(scripts@).take(i + 1) =~= script_tags(scripts@).take(i as int).push(scripts@[i as int].tags@));
        i = i + 1;
    }
    assert(script_tags(scripts@).take(i as int) =~= script_tags(scripts@));
    r
}

/// The tag paths of templates, in order.
fn tags_of_templates(templates: &[Template]) -> (r: Vec<String>)
    ensures
        r@.map_values(|s: String| s@) == template_tags(templates@),
{
    let mut r: Vec<String> = Vec::new();
    let mut i: usize = 0;
    while i < templates.len()
        invariant
            i <= templates@.len(),
            r@.map_values(|s: String| s@) == template_tags(templates@).take(i as int),
        decreases templates@.len() - i,
    {
        let ghost prev = r@;
        r.push(templates[i].tags.clone());
        assert(r@.map_values(|s: String| s@) =~= prev.map_values(|s: String| s@).push(templates@[i as int].tags@));
        assert(template_tags(templates@).take(i + 1) =~= template_tags(templates@).take(i as int).push(templates@[i as int].tags@));
        i = i + 1;
    }
    assert(template_tags(templates@).take(i as int) =~= template_tags(templates@));
    r
}

/// An empty tree and empty counts.
fn empty_index() -> (r: (TagNode, Vec<(String, usize)>))
    ensures
        index_ok(r.0, r.1@, Seq::<Seq<char>>::empty()),
{
    let root = TagNode::new("root".to_owned(), String::new());
    let all_tags: Vec<(String, usize)> = Vec::new();
    let ghost h = Seq::<Seq<char>>::empty();
    proof {
        assert forall|s: Seq<char>| count_under(h, Seq::<Seq<char>>::empty().push(s)) == 0 by {}
        assert(dedup(h) =~= Seq::<Seq<char>>::empty());
        assert(node_ok(root, seq![], h));
        assert(all_tags@.map_values(|p: (String, usize)| count_pair_view(p)) =~= tag_counts(h));
    }
    (root, all_tags)
}

/// Count keys for sorting entries by count, highest first.
fn count_keys(entries: &Vec<(String, usize)>) -> (r: Vec<SortKey>)
    ensures
        r@.map_values(|k: SortKey| key_view(k)) == count_desc_keys(
            entries@.map_values(|p: (String, usize)| count_pair_view(p)),
        ),
{
    let ghost ev = entries@.map_values(|p: (String, usize)| count_pair_view(p));
    let mut r: Vec<SortKey> = Vec::new();
    let mut i: usize = 0;
    while i < entries.len()
        invariant
            i <= entries@.len(),
            ev == entries@.map_values(|p: (String, usize)| count_pair_view(p)),
            r@.map_values(|k: SortKey| key_view(k)) == count_desc_keys(ev).take(i as int),
        decreases entries@.len() - i,
    {
        let c = entries[i].1 as u64;
        let ghost prev = r@;
        let key = SortKey { major: u64::MAX - c, minor: 0, text: Vec::new() };
        assert(key.text@ =~= Seq::<char>::empty());
        r.push(key);
        assert(r@.map_values(|k: SortKey| key_view(k)) =~= prev.map_values(|k: SortKey| key_view(k)).push(key_view(key)));
        assert(count_desc_keys(ev).take(i + 1) =~= count_desc_keys(ev).take(i as int).push(count_desc_keys(ev)[i as int]));
        i = i + 1;
    }
    assert(count_desc_keys(ev).take(i as int) =~= count_desc_keys(ev));
    r
}

/// The entries ordered by count, highest first (a stable sort).
fn sort_by_count_desc(entries: &Vec<(String, usize)>) -> (r: Vec<(String, usize)>)
    ensures
        ({
            let ev = entries@.map_values(|p: (String, usize)| count_pair_view(p));
            let rv = r@.map_values(|p: (String, usize)| count_pair_view(p));
            exists|p: Seq<int>|
                stably_sorted(count_desc_keys(ev), p) && rv == permuted(ev, p)
        }),
{
    let ghost ev = entries@.map_values(|p: (String, usize)| count_pair_view(p));
    let keys = count_keys(entries);
    let order = stable_order(&keys);
    let ghost pv = order@.map_values(|i: usize| i as int);
    let mut r: Vec<(String, usize)> = Vec::new();
    let mut k: usize = 0;
    while k < order.len()
        invariant
            k <= order@.len(),
            order@.len() == entries@.len(),
            pv == order@.map_values(|i: usize| i as int),
            ev == entries@.map_values(|p: (String, usize)| count_pair_view(p)),
            forall|j: int| 0 <= j < order@.len() ==> 0 <= #[trigger] pv[j] < entries@.len(),
            r@.map_values(|p: (String, usize)| count_pair_view(p)) == permuted(ev, pv.take(k as int)),
        decreases order@.len() - k,
    {
        let idx = order[k];
        assert(pv[k as int] == idx as int);
        let ghost prev = r@;
        let e = (entries[idx].0.clone(), entries[idx].1);
        r.push(e);
        assert(r@.map_values(|p: (String, usize)| count_pair_view(p)) =~= prev.map_values(|p: (String, usize)| count_pair_view(p)).push(count_pair_view(e)));
        assert(count_pair_view(e) == ev[idx as int]);
        assert(permuted(ev, pv.take(k + 1)) =~= permuted(ev, pv.take(k as int)).push(ev[pv[k as int]]));
        k = k + 1;
    }
    assert(pv.take(k as int) =~= pv);
    assert(keys@.map_values(|k: SortKey| key_view(k)) == count_desc_keys(ev));
    r
}

/// The segment path that `get_child_tags` looks up for a parent tag.
pub open spec fn parent_path(parent: Seq<char>) -> Seq<Seq<char>> {
    if parent.len() == 0 {
        seq![]
    } else {
        crate::text::split_char(parent, '/')
    }
}

/// A path has at least as many tags below it as any longer path it begins.
pub proof fn lemma_count_under_prefix_mono(h: Seq<Seq<char>>, q: Seq<Seq<char>>, p: Seq<Seq<char>>)
    requires
        is_prefix(q, p),
    ensures
        count_under(h, p) <= count_under(h, q),
    decreases h.len(),
{
    if h.len() > 0 {
        lemma_count_under_prefix_mono(h.drop_last(), q, p);
        let segs = tag_segments(h.last());
        if is_prefix(p, segs) {
            assert(segs.take(q.len() as int) =~= segs.take(p.len() as int).take(q.len() as int));
            assert(p.take(q.len() as int) == q);
        }
    }
}

/// Distinct child segments have distinct full paths.
pub proof fn lemma_full_path_injective(p: Seq<Seq<char>>, a: Seq<char>, b: Seq<char>)
    requires
        full_path_of(p.push(a)) == full_path_of(p.push(b)),
    ensures
        a == b,
{
    lemma_join_push(p, a);
    lemma_join_push(p, b);
    if p.len() > 0 {
        let pre = full_path_of(p) + seq!['/'];
        assert(full_path_of(p.push(a)) == pre + a);
        assert((pre + a).subrange(pre.len() as int, (pre + a).len() as int) =~= a);
        assert((pre + b).subrange(pre.len() as int, (pre + b).len() as int) =~= b);
    }
}

/// A stable sort by count of distinct entries is a descending permutation of them.
pub proof fn lemma_sorted_counts(ev: Seq<(Seq<char>, nat)>, p: Seq<int>)
    requires
        stably_sorted(count_desc_keys(ev), p),
    ensures
        counts_descending(permuted(ev, p)),
        permuted(ev, p).len() == ev.len(),
        forall|x: (Seq<char>, nat)| #[trigger] permuted(ev, p).contains(x) ==> ev.contains(x),
        ev.no_duplicates() ==> permuted(ev, p).no_duplicates(),
{
    let rv = permuted(ev, p);
    let ks = count_desc_keys(ev);
    assert forall|i: int, j: int| 0 <= i < j < rv.len() implies #[trigger] rv[i].1 >= #[trigger] rv[j].1 by {
        assert(!key_lt(ks[p[j]], ks[p[i]]));
        assert(ks[p[j]] == (u64::MAX - ev[p[j]].1, 0int, Seq::<char>::empty()));
        assert(ks[p[i]] == (u64::MAX - ev[p[i]].1, 0int, Seq::<char>::empty()));
    }
    assert forall|x: (Seq<char>, nat)| #[trigger] rv.contains(x) implies ev.contains(x) by {
        let j = choose|j: int| 0 <= j < rv.len() && rv[j] == x;
        assert(ev[p[j]] == x);
    }
    if ev.no_duplicates() {
        assert forall|i: int, j: int| 0 <= i < j < rv.len() implies rv[i] != rv[j] by {
            assert(p[i] != p[j]);
        }
    }
}

/// A stable sort of the entries contains every entry.
pub proof fn lemma_sorted_covers(ev: Seq<(Seq<char>, nat)>, p: Seq<int>, x: (Seq<char>, nat))
    requires
        stably_sorted(count_desc_keys(ev), p),
        ev.contains(x),
    ensures
        permuted(ev, p).contains(x),
{
    crate::sort::lemma_permuted_covers(ev, count_desc_keys(ev), p, x);
}

/// The pieces with every piece equal to `old` replaced by `new`.
pub open spec fn rename_pieces(parts: Seq<Seq<char>>, old: Seq<char>, new: Seq<char>) -> Seq<Seq<char>>
    decreases parts.len(),
{
    if parts.len() == 0 {
        seq![]
    } else {
        rename_pieces(parts.drop_last(), old, new).push(
            if parts.last() == old {
                new
            } else {
                parts.last()
            },
        )
    }
}

/// Each renamed piece is the piece, or `new` where the piece was `old`.
pub proof fn lemma_rename_pieces(parts: Seq<Seq<char>>, old: Seq<char>, new: Seq<char>)
    ensures
        rename_pieces(parts, old, new).len() == parts.len(),
        forall|j: int|
            0 <= j < parts.len() ==> #[trigger] rename_pieces(parts, old, new)[j] == (if parts[j] == old {
                new
            } else {
                parts[j]
            }),
    decreases parts.len(),
{
    if parts.len() > 0 {
        lemma_rename_pieces(parts.drop_last(), old, new);
        assert forall|j: int| 0 <= j < parts.len() implies #[trigger] rename_pieces(parts, old, new)[j] == (if parts[j]
            == old {
            new
        } else {
            parts[j]
        }) by {
            if j < parts.len() - 1 {
                assert(parts.drop_last()[j] == parts[j]);
            }
        }
    }
}

/// `p` with every segment equal to `old` replaced by `new`.
pub open spec fn rename_segment(p: Seq<char>, old: Seq<char>, new: Seq<char>) -> Seq<char> {
    join(rename_pieces(crate::text::split_char(p, '/'), old, new), seq!['/'])
}

/// `tag` is `parent` or lies below it.
pub open spec fn is_descendant(tag: Seq<char>, parent: Seq<char>) -> bool {
    tag == parent || crate::text::starts_with(tag, parent + seq!['/'])
}

/// One of the `/`-separated segments of `tag` is `seg`.
pub open spec fn has_segment(tag: Seq<char>, seg: Seq<char>) -> bool {
    crate::text::split_char(tag, '/').contains(seg)
}

/// Two scripts agree on every field but the tags.
pub open spec fn same_but_tags(a: Script, b: Script) -> bool {
    &&& a.id@ == b.id@
    &&& a.name@ == b.name@
    &&& a.content@ == b.content@
    &&& a.created_at@ == b.created_at@
    &&& a.updated_at@ == b.updated_at@
    &&& a.use_count == b.use_count
    &&& a.last_used@ == b.last_used@
    &&& a.is_favorite == b.is_favorite
}

/// Two templates agree on every field but the tags.
pub open spec fn same_template_but_tags(a: Template, b: Template) -> bool {
    &&& a.id@ == b.id@
    &&& a.name@ == b.name@
    &&& crate::data::ids_view(a.script_ids@) == crate::data::ids_view(b.script_ids@)
    &&& a.variable_values.view() == b.variable_values.view()
    &&& a.variable_values.entries_view() == b.variable_values.entries_view()
    &&& a.created_at@ == b.created_at@
    &&& a.updated_at@ == b.updated_at@
    &&& a.use_count == b.use_count
    &&& a.last_used@ == b.last_used@
    &&& a.is_favorite == b.is_favorite
    &&& a.category@ == b.category@
}



/// Whether one of the segments of `tag` is `seg`.
pub fn has_segment_exec(tag: &str, seg: &str) -> (r: bool)
    ensures
        r == has_segment(tag@, seg@),
{
    let t = crate::text::chars_of(tag);
    let parts = crate::text::split_exec(&t, '/');
    let s = seg.to_owned();
    let r = crate::text::contains_string(&parts, &s);
    r
}

impl TagManager {
    /// `tags` with every segment equal to `old` replaced by `new`.
    pub fn rename_tag_segment_in_path(tags: &str, old: &str, new: &str) -> (r: String)
        ensures
            r@ == rename_segment(tags@, old@, new@),
    {
        let tc = crate::text::chars_of(tags);
        let parts = crate::text::split_exec(&tc, '/');
        let ghost pv = parts@.map_values(|x: String| x@);
        let ghost mapped = rename_pieces(pv, old@, new@);
        proof {
            lemma_rename_pieces(pv, old@, new@);
        }
        let oc = crate::text::chars_of(old);
        let mut out = String::new();
        let mut k: usize = 0;
        while k < parts.len()
            invariant
                k <= parts@.len(),
                pv == parts@.map_values(|x: String| x@),
                pv == crate::text::split_char(tags@, '/'),
                oc@ == old@,
                mapped.len() == pv.len(),
                forall|j: int| 0 <= j < pv.len() ==> #[trigger] mapped[j] == if pv[j] == old@ { new@ } else { pv[j] },
                out@ == join(mapped.take(k as int), seq!['/']),
            decreases parts@.len() - k,
        {
            if k > 0 {
                push_char(&mut out, '/');
            }
            let pc = crate::text::chars_of(parts[k].as_str());
            if crate::text::chars_eq(&pc, &oc) {
                push_str(&mut out, new);
            } else {
                push_str(&mut out, parts[k].as_str());
            }
            proof {
                let t1 = mapped.take(k + 1);
                assert(t1.drop_last() =~= mapped.take(k as int));
                assert(t1.last() == mapped[k as int]);
                if k == 0 {
                    assert(join(t1, seq!['/']) == t1[0]);
                }
            }
            k = k + 1;
        }
        assert(mapped.take(k as int) =~= mapped);
        out
    }

    /// Whether `tag` is `parent` or lies below it.
    pub fn is_tag_descendant(tag: &str, parent: &str) -> (r: bool)
        ensures
            r == is_descendant(tag@, parent@),
    {
        let t = crate::text::chars_of(tag);
        let p = crate::text::chars_of(parent);
        if crate::text::chars_eq(&t, &p) {
            return true;
        }
        let mut ps = p.clone();
        ps.push('/');
        assert(ps@ =~= parent@ + seq!['/']);
        crate::text::starts_with_exec(&t, &ps)
    }
}

/// A copy of a script with other tags.
fn script_with_tags(s: &Script, tags: String) -> (r: Script)
    ensures
        same_but_tags(r, *s),
        r.tags@ == tags@,
{
    Script {
        id: s.id.clone(),
        name: s.name.clone(),
        tags,
        content: s.content.clone(),
        created_at: s.created_at.clone(),
        updated_at: s.updated_at.clone(),
        use_count: s.use_count,
        last_used: s.last_used.clone(),
        is_favorite: s.is_favorite,
    }
}

/// A copy of a template with other tags.
fn template_with_tags(t: &Template, tags: String) -> (r: Template)
    ensures
        same_template_but_tags(r, *t),
        r.tags@ == tags@,
{
    let ids = t.script_ids.clone();
    proof {
        assert(crate::data::ids_view(ids@) =~= crate::data::ids_view(t.script_ids@));
    }
    Template {
        id: t.id.clone(),
        name: t.name.clone(),
        tags,
        script_ids: ids,
        variable_values: t.variable_values.clone(),
        created_at: t.created_at.clone(),
        updated_at: t.updated_at.clone(),
        use_count: t.use_count,
        last_used: t.last_used.clone(),
        is_favorite: t.is_favorite,
        category: t.category.clone(),
    }
}

/// The tag paths of shared scripts.
pub open spec fn arc_script_tags(s: Seq<Arc<Script>>) -> Seq<Seq<char>> {
    s.map_values(|x: Arc<Script>| x.tags@)
}

/// The tag paths of shared templates.
pub open spec fn arc_template_tags(s: Seq<Arc<Template>>) -> Seq<Seq<char>> {
    s.map_values(|x: Arc<Template>| x.tags@)
}

/// The elements of `s` that satisfy `keep`, in order.
pub open spec fn select<A>(s: Seq<A>, keep: spec_fn(A) -> bool) -> Seq<A>
    decreases s.len(),
{
    if s.len() == 0 {
        seq![]
    } else if keep(s.last()) {
        select(s.drop_last(), keep).push(s.last())
    } else {
        select(s.drop_last(), keep)
    }
}

/// What a rename or delete would touch: the distinct affected tag paths of
/// scripts and templates, and how many of each are affected.
#[derive(Debug, Clone)]
pub struct RenameImpact {
    pub script_tags: Vec<String>,
    pub script_count: usize,
    pub template_tags: Vec<String>,
    pub template_count: usize,
}

/// What a cascading delete would remove: the distinct tag paths at or below
/// the tag, and how many scripts and templates carry them.
#[derive(Debug, Clone)]
pub struct DeleteImpact {
    pub script_tags: Vec<String>,
    pub script_count: usize,
    pub template_tags: Vec<String>,
    pub template_count: usize,
}

/// The tag paths of shared scripts, in order.
fn arc_script_tag_list(s: &[Arc<Script>]) -> (r: Vec<String>)
    ensures
        r@.map_values(|x: String| x@) == arc_script_tags(s@),
        r@.len() == s@.len(),
{
    let mut r: Vec<String> = Vec::new();
    let mut i: usize = 0;
    while i < s.len()
        invariant
            i <= s@.len(),
            r@.map_values(|x: String| x@) == arc_script_tags(s@).take(i as int),
            r@.len() == i,
        decreases s@.len() - i,
    {
        let ghost prev = r@;
        r.push(s[i].tags.clone());
        assert(r@.map_values(|x: String| x@) =~= prev.map_values(|x: String| x@).push(s@[i as int].tags@));
        assert(arc_script_tags(s@).take(i + 1) =~= arc_script_tags(s@).take(i as int).push(s@[i as int].tags@));
        i = i + 1;
    }
    assert(arc_script_tags(s@).take(i as int) =~= arc_script_tags(s@));
    r
}

/// The tag paths of shared templates, in order.
fn arc_template_tag_list(s: &[Arc<Template>]) -> (r: Vec<String>)
    ensures
        r@.map_values(|x: String| x@) == arc_template_tags(s@),
        r@.len() == s@.len(),
{
    let mut r: Vec<String> = Vec::new();
    let mut i: usize = 0;
    while i < s.len()
        invariant
            i <= s@.len(),
            r@.map_values(|x: String| x@) == arc_template_tags(s@).take(i as int),
            r@.len() == i,
        decreases s@.len() - i,
    {
        let ghost prev = r@;
        r.push(s[i].tags.clone());
        assert(r@.map_values(|x: String| x@) =~= prev.map_values(|x: String| x@).push(s@[i as int].tags@));
        assert(arc_template_tags(s@).take(i + 1) =~= arc_template_tags(s@).take(i as int).push(s@[i as int].tags@));
        i = i + 1;
    }
    assert(arc_template_tags(s@).take(i as int) =~= arc_template_tags(s@));
    r
}

/// The distinct tags among `tags` for which `pick` holds, and how many tags it holds for.
fn affected(tags: &Vec<String>, seg: &str, by_segment: bool) -> (r: (Vec<String>, usize))
    ensures
        ({
            let tv = tags@.map_values(|x: String| x@);
            let m = if by_segment {
                select(tv, |t: Seq<char>| has_segment(t, seg@))
            } else {
                select(tv, |t: Seq<char>| is_descendant(t, seg@))
            };
            &&& r.0@.map_values(|x: String| x@) == dedup(m)
            &&& r.1 == m.len()
        }),
{
    let ghost tv = tags@.map_values(|x: String| x@);
    let ghost keep = if by_segment {
        |t: Seq<char>| has_segment(t, seg@)
    } else {
        |t: Seq<char>| is_descendant(t, seg@)
    };
    let mut out: Vec<String> = Vec::new();
    let mut count: usize = 0;
    let mut i: usize = 0;
    while i < tags.len()
        invariant
            i <= tags@.len(),
            tv == tags@.map_values(|x: String| x@),
            keep == (if by_segment {
                |t: Seq<char>| has_segment(t, seg@)
            } else {
                |t: Seq<char>| is_descendant(t, seg@)
            }),
            out@.map_values(|x: String| x@) == dedup(select(tv.take(i as int), keep)),
            count == select(tv.take(i as int), keep).len(),
            count <= i,
        decreases tags@.len() - i,
    {
        let hit = if by_segment {
            has_segment_exec(tags[i].as_str(), seg)
        } else {
            TagManager::is_tag_descendant(tags[i].as_str(), seg)
        };
        proof {
            assert(tv.take(i + 1).drop_last() =~= tv.take(i as int));
            assert(tv.take(i + 1).last() == tags@[i as int]@);
            assert(hit == keep(tags@[i as int]@));
        }
        if hit {
            count = count + 1;
            let ghost sel = select(tv.take(i as int), keep);
            proof {
                lemma_dedup_contains(sel, tags@[i as int]@);
                assert(sel.push(tags@[i as int]@).drop_last() =~= sel);
            }
            if !crate::text::contains_string(&out, &tags[i]) {
                let ghost prev = out@;
                out.push(tags[i].clone());
                assert(out@.map_values(|x: String| x@) =~= prev.map_values(|x: String| x@).push(tags@[i as int]@));
            }
        }
        i = i + 1;
    }
    assert(tv.take(i as int) =~= tv);
    (out, count)
}

impl TagManager {
    /// The tags added to the manager since it was last rebuilt, in order.
    pub closed spec fn tag_history(&self) -> Seq<Seq<char>> {
        self.history@
    }

    /// The tree and the counts describe the added tags.
    #[verifier::type_invariant]
    pub closed spec fn inv(&self) -> bool {
        &&& index_ok(self.root, self.all_tags@, self.history@)
        &&& self.total == self.history@.len()
    }

    /// The number of tags added since the manager was last rebuilt.
    pub fn tag_total(&self) -> (r: usize)
        ensures
            r == self.tag_history().len(),
    {
        proof {
            use_type_invariant(self);
        }
        self.total
    }

    /// An empty manager.
    pub fn new() -> (r: TagManager)
        ensures
            r.tag_history() == Seq::<Seq<char>>::empty(),
    {
        let (root, all_tags) = empty_index();
        TagManager { root, all_tags, total: 0, history: Ghost(Seq::empty()) }
    }

    /// Rebuilds the tree from the tag lists `st` and then `tt`.
    fn rebuild(&mut self, st: &Vec<String>, tt: &Vec<String>)
        requires
            st@.len() + tt@.len() < usize::MAX,
        ensures
            final(self).tag_history() == non_empty(
                st@.map_values(|x: String| x@) + tt@.map_values(|x: String| x@),
            ),
    {
        let ghost sv = st@.map_values(|x: String| x@);
        let ghost tv = tt@.map_values(|x: String| x@);
        let (mut root, mut all_tags) = empty_index();
        let ghost h0 = Seq::<Seq<char>>::empty();
        let a = add_all(&mut root, &mut all_tags, st, Ghost(h0));
        let ghost h1 = h0 + non_empty(sv);
        proof {
            lemma_non_empty_len(sv);
            assert(h0 + non_empty(sv) =~= non_empty(sv));
        }
        let b = add_all(&mut root, &mut all_tags, tt, Ghost(h1));
        let ghost h2 = h1 + non_empty(tv);
        proof {
            lemma_non_empty_append(sv, tv);
            lemma_non_empty_len(tv);
        }
        *self = TagManager { root, all_tags, total: a + b, history: Ghost(h2) };
    }

    /// Rebuilds the tree from the tags of the scripts and then of the templates.
    pub fn build_tag_tree(&mut self, scripts: &[Script], templates: &[Template])
        requires
            scripts@.len() + templates@.len() < usize::MAX,
        ensures
            final(self).tag_history() == non_empty(script_tags(scripts@) + template_tags(templates@)),
    {
        let st = tags_of_scripts(scripts);
        let tt = tags_of_templates(templates);
        self.rebuild(&st, &tt);
    }

    /// Rebuilds the tree from the tags of the scripts alone.
    pub fn update_from_scripts(&mut self, scripts: &[Script])
        requires
            scripts@.len() < usize::MAX,
        ensures
            final(self).tag_history() == non_empty(script_tags(scripts@)),
    {
        let st = tags_of_scripts(scripts);
        let tt: Vec<String> = Vec::new();
        self.rebuild(&st, &tt);
        assert(script_tags(scripts@) + tt@.map_values(|x: String| x@) =~= script_tags(scripts@));
    }

    /// Adds the tags of the templates to the tree (without rebuilding it).
    pub fn update_from_templates(&mut self, templates: &[Template])
        requires
            old(self).tag_history().len() + templates@.len() < usize::MAX,
        ensures
            final(self).tag_history() == old(self).tag_history() + non_empty(template_tags(templates@)),
    {
        let mut m = TagManager::new();
        std::mem::swap(self, &mut m);
        proof {
            use_type_invariant(&m);
        }
        let TagManager { mut root, mut all_tags, total, history } = m;
        let tt = tags_of_templates(templates);
        let added = add_all(&mut root, &mut all_tags, &tt, history);
        proof {
            lemma_non_empty_len(template_tags(templates@));
            assert(tt@.map_values(|s: String| s@) == template_tags(templates@));
        }
        *self = TagManager {
            root,
            all_tags,
            total: total + added,
            history: Ghost(history@ + non_empty(template_tags(templates@))),
        };
    }

    /// Whether some added tag is exactly `tag`.
    fn has_tag(&self, tag: &str) -> (r: bool)
        ensures
            r == self.tag_history().contains(tag@),
    {
        proof {
            use_type_invariant(self);
            lemma_dedup_contains(self.history@, tag@);
        }
        let t = tag.to_owned();
        let found = find_tag(&self.all_tags, &t);
        proof {
            let h = self.history@;
            let ev = self.all_tags@.map_values(|p: (String, usize)| count_pair_view(p));
            assert(ev == tag_counts(h));
            match found {
                Some(i) => {
                    assert(ev[i as int] == count_pair_view(self.all_tags@[i as int]));
                    assert(tag_counts(h)[i as int].0 == dedup(h)[i as int]);
                },
                None => {
                    if dedup(h).contains(tag@) {
                        let j = choose|j: int| 0 <= j < dedup(h).len() && dedup(h)[j] == tag@;
                        assert(tag_counts(h)[j].0 == dedup(h)[j]);
                        assert(ev[j] == count_pair_view(self.all_tags@[j]));
                    }
                },
            }
        }
        found.is_some()
    }

    /// The child tags of `parent_tag` (the top level when it is empty), each
    /// with its number of uses, most used first; nothing when no tag lies below it.
    pub fn get_child_tags(&self, parent_tag: &str) -> (r: Vec<(String, usize)>)
        ensures
            ({
                let h = self.tag_history();
                let p = parent_path(parent_tag@);
                let rv = r@.map_values(|e: (String, usize)| count_pair_view(e));
                &&& (parent_tag@.len() > 0 && count_under(h, p) == 0) ==> r@.len() == 0
                &&& (parent_tag@.len() == 0 || count_under(h, p) > 0) ==> {
                    &&& rv.no_duplicates()
                    &&& forall|x: (Seq<char>, nat)| rv.contains(x) <==> child_entry(h, p, x)
                    &&& counts_descending(rv)
                }
            }),
    {
        proof {
            use_type_invariant(self);
        }
        let ghost h = self.history@;
        let pc = crate::text::chars_of(parent_tag);
        let parts: Vec<String> = if pc.len() == 0 {
            Vec::new()
        } else {
            crate::text::split_exec(&pc, '/')
        };
        let ghost pv = parts@.map_values(|x: String| x@);
        proof {
            if pc.len() == 0 {
                assert(pv =~= Seq::<Seq<char>>::empty());
            } else {
                crate::text::lemma_split_join(pc@, '/');
            }
            assert(pv == parent_path(parent_tag@));
            assert(pv.take(0) =~= Seq::<Seq<char>>::empty());
        }
        let mut current: &TagNode = &self.root;
        let mut k: usize = 0;
        while k < parts.len()
            invariant
                k <= parts@.len(),
                pv == parts@.map_values(|x: String| x@),
                pv == parent_path(parent_tag@),
                h == self.history@,
                node_ok(*current, pv.take(k as int), h),
                k > 0 ==> count_under(h, pv.take(k as int)) > 0,
            decreases parts@.len() - k,
        {
            let ghost here = pv.take(k as int);
            proof {
                assert(pv.take(k + 1) =~= here.push(parts@[k as int]@));
            }
            match find_child(&current.children, &parts[k]) {
                Some(i) => {
                    current = &current.children[i];
                },
                None => {
                    proof {
                        let next = here.push(parts@[k as int]@);
                        if count_under(h, next) > 0 {
                            let j = choose|j: int|
                                0 <= j < current.children@.len() && (#[trigger] current.children@[j]).name@ == parts@[k as int]@;
                        }
                        assert(is_prefix(pv.take(k + 1), pv));
                        lemma_count_under_prefix_mono(h, pv.take(k + 1), pv);
                    }
                    return Vec::new();
                },
            }
            k = k + 1;
        }
        proof {
            assert(pv.take(k as int) =~= pv);
        }
        let ghost node = *current;
        let mut entries: Vec<(String, usize)> = Vec::new();
        let mut i: usize = 0;
        while i < current.children.len()
            invariant
                i <= node.children@.len(),
                node == *current,
                node_ok(node, pv, h),
                forall|j: int|
                    0 <= j < i ==> count_pair_view(#[trigger] entries@[j]) == (
                        full_path_of(pv.push(node.children@[j].name@)),
                        count_under(h, pv.push(node.children@[j].name@)),
                    ),
                entries@.len() == i,
            decreases node.children@.len() - i,
        {
            let c = &current.children[i];
            proof {
                let cn = node.children@[i as int];
                assert(cn == *c);
                assert(count_under(h, pv.push(cn.name@)) > 0 && node_ok(cn, pv.push(cn.name@), h));
                assert(pv.push(cn.name@).last() == cn.name@);
            }
            let ghost prev = entries@;
            let e = (c.full_path.clone(), c.usage_count);
            entries.push(e);
            proof {
                assert forall|j: int| 0 <= j < i + 1 implies count_pair_view(#[trigger] entries@[j]) == (
                    full_path_of(pv.push(node.children@[j].name@)),
                    count_under(h, pv.push(node.children@[j].name@)),
                ) by {
                    if j < i {
                        assert(entries@[j] == prev[j]);
                    }
                }
            }
            i = i + 1;
        }
        let r = sort_by_count_desc(&entries);
        proof {
            let ev = entries@.map_values(|e: (String, usize)| count_pair_view(e));
            let p = choose|p: Seq<int>|
                stably_sorted(count_desc_keys(ev), p) && r@.map_values(|e: (String, usize)| count_pair_view(e)) == permuted(ev, p);
            assert forall|a: int, b: int| 0 <= a < b < ev.len() implies ev[a] != ev[b] by {
                assert(ev[a] == count_pair_view(entries@[a]));
                assert(ev[b] == count_pair_view(entries@[b]));
                if ev[a] == ev[b] {
                    lemma_full_path_injective(pv, node.children@[a].name@, node.children@[b].name@);
                }
            }
            lemma_sorted_counts(ev, p);
            assert forall|x: (Seq<char>, nat)| ev.contains(x) <==> child_entry(h, pv, x) by {
                if ev.contains(x) {
                    let j = choose|j: int| 0 <= j < ev.len() && ev[j] == x;
                    assert(ev[j] == count_pair_view(entries@[j]));
                    let s = node.children@[j].name@;
                    assert(count_under(h, pv.push(s)) > 0);
                }
                if child_entry(h, pv, x) {
                    let s = choose|s: Seq<char>|
                        #![trigger count_under(h, pv.push(s))]
                        count_under(h, pv.push(s)) > 0 && x == (full_path_of(pv.push(s)), count_under(h, pv.push(s)));
                    let j = choose|j: int| 0 <= j < node.children@.len() && (#[trigger] node.children@[j]).name@ == s;
                    assert(ev[j] == count_pair_view(entries@[j]));
                    assert(ev[j] == x);
                }
            }
            assert forall|x: (Seq<char>, nat)| ev.contains(x) implies permuted(ev, p).contains(x) by {
                lemma_sorted_covers(ev, p, x);
            }
            let rv = r@.map_values(|e: (String, usize)| count_pair_view(e));
            assert(rv == permuted(ev, p));
            assert forall|x: (Seq<char>, nat)| rv.contains(x) <==> child_entry(h, pv, x) by {
                if rv.contains(x) {
                    assert(permuted(ev, p).contains(x));
                    assert(ev.contains(x));
                }
                if child_entry(h, pv, x) {
                    assert(ev.contains(x));
                    assert(permuted(ev, p).contains(x));
                }
            }
            if parent_tag@.len() > 0 {
                assert(k > 0);
            }
        }
        r
    }

    /// What renaming the segment `old_segment` would touch: the distinct tag
    /// paths holding that segment and the number of scripts and templates
    /// whose tags hold it.
    pub fn calculate_rename_impact(
        &self,
        old_segment: &str,
        scripts: &[Arc<Script>],
        templates: &[Arc<Template>],
    ) -> (r: RenameImpact)
        ensures
            ({
                let ms = select(arc_script_tags(scripts@), |t: Seq<char>| has_segment(t, old_segment@));
                let mt = select(arc_template_tags(templates@), |t: Seq<char>| has_segment(t, old_segment@));
                &&& r.script_tags@.map_values(|x: String| x@) == dedup(ms)
                &&& r.script_count == ms.len()
                &&& r.template_tags@.map_values(|x: String| x@) == dedup(mt)
                &&& r.template_count == mt.len()
            }),
    {
        let st = arc_script_tag_list(scripts);
        let tt = arc_template_tag_list(templates);
        let (script_tags, script_count) = affected(&st, old_segment, true);
        let (template_tags, template_count) = affected(&tt, old_segment, true);
        RenameImpact { script_tags, script_count, template_tags, template_count }
    }

    /// What deleting `parent_tag` with its descendants would remove: the
    /// distinct tag paths at or below it and the number of scripts and
    /// templates carrying them.
    pub fn calculate_delete_impact(
        &self,
        parent_tag: &str,
        scripts: &[Arc<Script>],
        templates: &[Arc<Template>],
    ) -> (r: DeleteImpact)
        ensures
            ({
                let ms = select(arc_script_tags(scripts@), |t: Seq<char>| is_descendant(t, parent_tag@));
                let mt = select(arc_template_tags(templates@), |t: Seq<char>| is_descendant(t, parent_tag@));
                &&& r.script_tags@.map_values(|x: String| x@) == dedup(ms)
                &&& r.script_count == ms.len()
                &&& r.template_tags@.map_values(|x: String| x@) == dedup(mt)
                &&& r.template_count == mt.len()
            }),
    {
        let st = arc_script_tag_list(scripts);
        let tt = arc_template_tag_list(templates);
        let (script_tags, script_count) = affected(&st, parent_tag, false);
        let (template_tags, template_count) = affected(&tt, parent_tag, false);
        DeleteImpact { script_tags, script_count, template_tags, template_count }
    }

    /// Every tag with its number of uses, most used first.
    pub fn get_all_tags(&self) -> (r: Vec<(String, usize)>)
        ensures
            ({
                let tc = tag_counts(self.tag_history());
                let rv = r@.map_values(|p: (String, usize)| count_pair_view(p));
                &&& rv.len() == tc.len()
                &&& rv.no_duplicates()
                &&& forall|x: (Seq<char>, nat)| rv.contains(x) <==> tc.contains(x)
                &&& counts_descending(rv)
            }),
    {
        proof {
            use_type_invariant(self);
        }
        let r = sort_by_count_desc(&self.all_tags);
        proof {
            let h = self.history@;
            let tc = tag_counts(h);
            let ev = self.all_tags@.map_values(|p: (String, usize)| count_pair_view(p));
            assert(ev == tc);
            let p = choose|p: Seq<int>|
                stably_sorted(count_desc_keys(ev), p) && r@.map_values(|p: (String, usize)| count_pair_view(p)) == permuted(ev, p);
            lemma_sorted_counts(ev, p);
            lemma_dedup_no_duplicates(h);
            assert forall|a: int, b: int| 0 <= a < b < tc.len() implies tc[a] != tc[b] by {
                assert(tc[a].0 == dedup(h)[a]);
                assert(tc[b].0 == dedup(h)[b]);
            }
            assert forall|x: (Seq<char>, nat)| tc.contains(x) implies permuted(ev, p).contains(x) by {
                lemma_sorted_covers(ev, p, x);
            }
        }
        r
    }
}

/// `a` is `b` with the segment `old` renamed to `new` in its tags.
pub open spec fn script_renamed(a: Arc<Script>, b: Arc<Script>, old: Seq<char>, new: Seq<char>) -> bool {
    &&& same_but_tags(*a, *b)
    &&& a.tags@ == rename_segment(b.tags@, old, new)
}

/// `a` is `b` with the segment `old` renamed to `new` in its tags.
pub open spec fn template_renamed(a: Arc<Template>, b: Arc<Template>, old: Seq<char>, new: Seq<char>) -> bool {
    &&& same_template_but_tags(*a, *b)
    &&& a.tags@ == rename_segment(b.tags@, old, new)
}

/// Renames the segment in the tags of every script, in place.
fn rename_in_scripts(scripts: &mut Vec<Arc<Script>>, old_segment: &str, new_segment: &str)
    ensures
        final(scripts)@.len() == old(scripts)@.len(),
        forall|i: int|
            0 <= i < old(scripts)@.len() ==> script_renamed(
                #[trigger] final(scripts)@[i],
                old(scripts)@[i],
                old_segment@,
                new_segment@,
            ),
{
    let ghost s0 = scripts@;
    let mut i: usize = 0;
    while i < scripts.len()
        invariant
            i <= scripts@.len(),
            scripts@.len() == s0.len(),
            forall|j: int| 0 <= j < i ==> script_renamed(#[trigger] scripts@[j], s0[j], old_segment@, new_segment@),
            forall|j: int| i <= j < s0.len() ==> #[trigger] scripts@[j] == s0[j],
        decreases s0.len() - i,
    {
        let new_tags = TagManager::rename_tag_segment_in_path(scripts[i].tags.as_str(), old_segment, new_segment);
        let a = crate::text::chars_of(new_tags.as_str());
        let b = crate::text::chars_of(scripts[i].tags.as_str());
        if !crate::text::chars_eq(&a, &b) {
            let ns = script_with_tags(&scripts[i], new_tags);
            scripts.set(i, Arc::new(ns));
        }
        i = i + 1;
    }
}

/// Renames the segment in the tags of every template, in place.
fn rename_in_templates(templates: &mut Vec<Arc<Template>>, old_segment: &str, new_segment: &str)
    ensures
        final(templates)@.len() == old(templates)@.len(),
        forall|i: int|
            0 <= i < old(templates)@.len() ==> template_renamed(
                #[trigger] final(templates)@[i],
                old(templates)@[i],
                old_segment@,
                new_segment@,
            ),
{
    let ghost s0 = templates@;
    let mut i: usize = 0;
    while i < templates.len()
        invariant
            i <= templates@.len(),
            templates@.len() == s0.len(),
            forall|j: int| 0 <= j < i ==> template_renamed(#[trigger] templates@[j], s0[j], old_segment@, new_segment@),
            forall|j: int| i <= j < s0.len() ==> #[trigger] templates@[j] == s0[j],
        decreases s0.len() - i,
    {
        let new_tags = TagManager::rename_tag_segment_in_path(templates[i].tags.as_str(), old_segment, new_segment);
        let a = crate::text::chars_of(new_tags.as_str());
        let b = crate::text::chars_of(templates[i].tags.as_str());
        if !crate::text::chars_eq(&a, &b) {
            let nt = template_with_tags(&templates[i], new_tags);
            templates.set(i, Arc::new(nt));
        }
        i = i + 1;
    }
}

/// The shared scripts whose tags do not lie at or below `tag`, in order.
fn keep_scripts_outside(scripts: &Vec<Arc<Script>>, tag: &str) -> (r: Vec<Arc<Script>>)
    ensures
        r@ == select(scripts@, |s: Arc<Script>| !is_descendant(s.tags@, tag@)),
{
    let ghost keep = |s: Arc<Script>| !is_descendant(s.tags@, tag@);
    let mut r: Vec<Arc<Script>> = Vec::new();
    let mut i: usize = 0;
    while i < scripts.len()
        invariant
            i <= scripts@.len(),
            keep == (|s: Arc<Script>| !is_descendant(s.tags@, tag@)),
            r@ == select(scripts@.take(i as int), keep),
        decreases scripts@.len() - i,
    {
        proof {
            assert(scripts@.take(i + 1).drop_last() =~= scripts@.take(i as int));
        }
        if !TagManager::is_tag_descendant(scripts[i].tags.as_str(), tag) {
            r.push(scripts[i].clone());
        }
        i = i + 1;
    }
    assert(scripts@.take(i as int) =~= scripts@);
    r
}

/// The shared templates whose tags do not lie at or below `tag`, in order.
fn keep_templates_outside(templates: &Vec<Arc<Template>>, tag: &str) -> (r: Vec<Arc<Template>>)
    ensures
        r@ == select(templates@, |t: Arc<Template>| !is_descendant(t.tags@, tag@)),
{
    let ghost keep = |t: Arc<Template>| !is_descendant(t.tags@, tag@);
    let mut r: Vec<Arc<Template>> = Vec::new();
    let mut i: usize = 0;
    while i < templates.len()
        invariant
            i <= templates@.len(),
            keep == (|t: Arc<Template>| !is_descendant(t.tags@, tag@)),
            r@ == select(templates@.take(i as int), keep),
        decreases templates@.len() - i,
    {
        proof {
            assert(templates@.take(i + 1).drop_last() =~= templates@.take(i as int));
        }
        if !TagManager::is_tag_descendant(templates[i].tags.as_str(), tag) {
            r.push(templates[i].clone());
        }
        i = i + 1;
    }
    assert(templates@.take(i as int) =~= templates@);
    r
}

/// The number of elements that `select` keeps is at most the length.
pub proof fn lemma_select_len<A>(s: Seq<A>, keep: spec_fn(A) -> bool)
    ensures
        select(s, keep).len() <= s.len(),
    decreases s.len(),
{
    if s.len() > 0 {
        lemma_select_len(s.drop_last(), keep);
    }
}

/// `select` keeps every element exactly when it keeps as many as there are,
/// and then it gives the sequence back.
pub proof fn lemma_select_all<A>(s: Seq<A>, keep: spec_fn(A) -> bool)
    ensures
        select(s, keep).len() <= s.len(),
        (select(s, keep).len() == s.len()) <==> (forall|i: int| 0 <= i < s.len() ==> keep(#[trigger] s[i])),
        select(s, keep).len() == s.len() ==> select(s, keep) == s,
    decreases s.len(),
{
    if s.len() > 0 {
        let d = s.drop_last();
        lemma_select_all(d, keep);
        assert forall|i: int| 0 <= i < d.len() implies d[i] == s[i] by {}
        if forall|i: int| 0 <= i < s.len() ==> keep(#[trigger] s[i]) {
            assert(keep(s[s.len() - 1]));
            assert forall|i: int| 0 <= i < d.len() implies keep(#[trigger] d[i]) by {
                assert(keep(s[i]));
            }
            assert(select(s, keep) =~= s);
        }
        if select(s, keep).len() == s.len() {
            if !keep(s.last()) {
                assert(select(s, keep).len() <= d.len());
            }
            assert(keep(s.last()));
            assert(select(d, keep) == d);
            assert(select(s, keep) =~= s);
            assert forall|i: int| 0 <= i < s.len() implies keep(#[trigger] s[i]) by {
                if i < d.len() {
                    assert(keep(d[i]));
                }
            }
        }
    }
}

/// Some tag path of `tags` is `tag` or lies below it.
pub open spec fn some_under(tags: Seq<Seq<char>>, tag: Seq<char>) -> bool {
    exists|i: int| 0 <= i < tags.len() && is_descendant(#[trigger] tags[i], tag)
}

impl TagManager {
    /// Renames every `/`-separated segment equal to `old_segment` to
    /// `new_segment` in the tags of all scripts and templates, then rebuilds the
    /// tree from them. Does nothing and answers `false` when the two segments are
    /// equal or `old_segment` is empty.
    pub fn rename_tag_segment(
        &mut self,
        old_segment: &str,
        new_segment: &str,
        scripts: &mut Vec<Arc<Script>>,
        templates: &mut Vec<Arc<Template>>,
    ) -> (r: bool)
        requires
            old(scripts)@.len() + old(templates)@.len() < usize::MAX,
        ensures
            r == !(old_segment@ == new_segment@ || old_segment@.len() == 0),
            !r ==> {
                &&& final(scripts)@ == old(scripts)@
                &&& final(templates)@ == old(templates)@
                &&& final(self).tag_history() == old(self).tag_history()
            },
            r ==> {
                &&& final(scripts)@.len() == old(scripts)@.len()
                &&& forall|i: int|
                    0 <= i < old(scripts)@.len() ==> script_renamed(
                        #[trigger] final(scripts)@[i],
                        old(scripts)@[i],
                        old_segment@,
                        new_segment@,
                    )
                &&& final(templates)@.len() == old(templates)@.len()
                &&& forall|i: int|
                    0 <= i < old(templates)@.len() ==> template_renamed(
                        #[trigger] final(templates)@[i],
                        old(templates)@[i],
                        old_segment@,
                        new_segment@,
                    )
                &&& final(self).tag_history() == non_empty(
                    arc_script_tags(final(scripts)@) + arc_template_tags(final(templates)@),
                )
            },
    {
        let oc = crate::text::chars_of(old_segment);
        let nc = crate::text::chars_of(new_segment);
        if crate::text::chars_eq(&oc, &nc) || old_segment.is_empty() {
            return false;
        }
        rename_in_scripts(scripts, old_segment, new_segment);
        rename_in_templates(templates, old_segment, new_segment);
        let st = arc_script_tag_list(scripts.as_slice());
        let tt = arc_template_tag_list(templates.as_slice());
        self.rebuild(&st, &tt);
        true
    }

    /// Removes every script and template whose tags are `tag` or lie below it
    /// (the whole branch of the tree at `tag`), then rebuilds the tree from
    /// what is left. Does nothing and answers `false` when no script or
    /// template lies in that branch.
    ///
    /// Whether there is something to delete is decided by the scripts and
    /// templates given, not by the tags recorded in the manager: so an inner
    /// node of the tree (such as `coding` above `coding/python`) deletes its
    /// branch, as the delete preview (`calculate_delete_impact`) counts it, and
    /// a manager that is out of step with the items (say, rebuilt from the
    /// scripts alone) neither refuses a branch that only templates carry nor
    /// answers `true` for a tag that no item has.
    pub fn cascade_delete_tag(
        &mut self,
        tag: &str,
        scripts: &mut Vec<Arc<Script>>,
        templates: &mut Vec<Arc<Template>>,
    ) -> (r: bool)
        requires
            old(scripts)@.len() + old(templates)@.len() < usize::MAX,
        ensures
            r == some_under(arc_script_tags(old(scripts)@) + arc_template_tags(old(templates)@), tag@),
            !r ==> {
                &&& final(scripts)@ == old(scripts)@
                &&& final(templates)@ == old(templates)@
                &&& final(self).tag_history() == old(self).tag_history()
            },
            r ==> {
                &&& final(scripts)@ == select(old(scripts)@, |s: Arc<Script>| !is_descendant(s.tags@, tag@))
                &&& final(templates)@ == select(old(templates)@, |t: Arc<Template>| !is_descendant(t.tags@, tag@))
                &&& final(self).tag_history() == non_empty(
                    arc_script_tags(final(scripts)@) + arc_template_tags(final(templates)@),
                )
            },
    {
        let ks = keep_scripts_outside(scripts, tag);
        let kt = keep_templates_outside(templates, tag);
        let ghost all = arc_script_tags(scripts@) + arc_template_tags(templates@);
        let ghost ns = scripts@.len();
        proof {
            lemma_select_all(scripts@, |s: Arc<Script>| !is_descendant(s.tags@, tag@));
            lemma_select_all(templates@, |t: Arc<Template>| !is_descendant(t.tags@, tag@));
            assert forall|i: int| 0 <= i < all.len() implies #[trigger] all[i] == (if i < ns {
                scripts@[i].tags@
            } else {
                templates@[i - ns].tags@
            }) by {}
        }
        if ks.len() == scripts.len() && kt.len() == templates.len() {
            proof {
                assert forall|i: int| 0 <= i < all.len() implies !is_descendant(#[trigger] all[i], tag@) by {
                    if i < ns {
                        assert(!is_descendant(scripts@[i].tags@, tag@));
                    } else {
                        assert(!is_descendant(templates@[i - ns].tags@, tag@));
                    }
                }
            }
            return false;
        }
        proof {
            if ks@.len() != scripts@.len() {
                let i = choose|i: int| 0 <= i < scripts@.len() && !!is_descendant(#[trigger] scripts@[i].tags@, tag@);
                assert(is_descendant(all[i], tag@));
            } else {
                let i = choose|i: int| 0 <= i < templates@.len() && !!is_descendant(#[trigger] templates@[i].tags@, tag@);
                assert(is_descendant(all[ns + i], tag@));
            }
        }
        *scripts = ks;
        *templates = kt;
        let st = arc_script_tag_list(scripts.as_slice());
        let tt = arc_template_tag_list(templates.as_slice());
        self.rebuild(&st, &tt);
        true
    }
}

/// The tag path `t` after `from` is moved to `to`: with `with_children`, `from`
/// itself and every path below it (the prefix `from` replaced); otherwise only
/// `from` itself.
pub open spec fn retag(t: Seq<char>, from: Seq<char>, to: Seq<char>, with_children: bool) -> Seq<char> {
    if t == from {
        to
    } else if with_children && crate::text::starts_with(t, from + seq!['/']) {
        to + t.subrange(from.len() as int, t.len() as int)
    } else {
        t
    }
}

/// `retag` on one tag path.
fn retag_exec(t: &str, from: &str, to: &str, with_children: bool) -> (r: String)
    ensures
        r@ == retag(t@, from@, to@, with_children),
{
    let tc = crate::text::chars_of(t);
    let fc = crate::text::chars_of(from);
    if crate::text::chars_eq(&tc, &fc) {
        return to.to_owned();
    }
    if with_children {
        let mut fs = fc.clone();
        fs.push('/');
        assert(fs@ =~= from@ + seq!['/']);
        if crate::text::starts_with_exec(&tc, &fs) {
            let mut r = to.to_owned();
            let n = fc.len();
            push_range(&mut r, &tc, n, tc.len());
            return r;
        }
    }
    t.to_owned()
}

/// Moves the tags of every script with `retag`, in place.
fn retag_scripts(scripts: &mut Vec<Script>, from: &str, to: &str, with_children: bool)
    ensures
        final(scripts)@.len() == old(scripts)@.len(),
        forall|i: int|
            0 <= i < old(scripts)@.len() ==> {
                &&& same_but_tags(#[trigger] final(scripts)@[i], old(scripts)@[i])
                &&& final(scripts)@[i].tags@ == retag(old(scripts)@[i].tags@, from@, to@, with_children)
            },
{
    let ghost s0 = scripts@;
    let mut i: usize = 0;
    while i < scripts.len()
        invariant
            i <= scripts@.len(),
            scripts@.len() == s0.len(),
            forall|j: int|
                0 <= j < i ==> {
                    &&& same_but_tags(#[trigger] scripts@[j], s0[j])
                    &&& scripts@[j].tags@ == retag(s0[j].tags@, from@, to@, with_children)
                },
            forall|j: int| i <= j < s0.len() ==> #[trigger] scripts@[j] == s0[j],
        decreases s0.len() - i,
    {
        let new_tags = retag_exec(scripts[i].tags.as_str(), from, to, with_children);
        let ns = script_with_tags(&scripts[i], new_tags);
        scripts.set(i, ns);
        i = i + 1;
    }
}

/// Moves the tags of every template with `retag`, in place.
fn retag_templates(templates: &mut Vec<Template>, from: &str, to: &str, with_children: bool)
    ensures
        final(templates)@.len() == old(templates)@.len(),
        forall|i: int|
            0 <= i < old(templates)@.len() ==> {
                &&& same_template_but_tags(#[trigger] final(templates)@[i], old(templates)@[i])
                &&& final(templates)@[i].tags@ == retag(old(templates)@[i].tags@, from@, to@, with_children)
            },
{
    let ghost s0 = templates@;
    let mut i: usize = 0;
    while i < templates.len()
        invariant
            i <= templates@.len(),
            templates@.len() == s0.len(),
            forall|j: int|
                0 <= j < i ==> {
                    &&& same_template_but_tags(#[trigger] templates@[j], s0[j])
                    &&& templates@[j].tags@ == retag(s0[j].tags@, from@, to@, with_children)
                },
            forall|j: int| i <= j < s0.len() ==> #[trigger] templates@[j] == s0[j],
        decreases s0.len() - i,
    {
        let new_tags = retag_exec(templates[i].tags.as_str(), from, to, with_children);
        let nt = template_with_tags(&templates[i], new_tags);
        templates.set(i, nt);
        i = i + 1;
    }
}

impl TagManager {
    /// Moves `from` to `to` in the tags of all scripts and templates (see
    /// `retag`) and rebuilds the tree from them. Does nothing and answers
    /// `false` when the two are equal or `from` is not a known tag.
    fn move_tag(
        &mut self,
        from: &str,
        to: &str,
        with_children: bool,
        scripts: &mut Vec<Script>,
        templates: &mut Vec<Template>,
    ) -> (r: bool)
        requires
            old(scripts)@.len() + old(templates)@.len() < usize::MAX,
        ensures
            r == !(from@ == to@ || !old(self).tag_history().contains(from@)),
            !r ==> {
                &&& final(scripts)@ == old(scripts)@
                &&& final(templates)@ == old(templates)@
                &&& final(self).tag_history() == old(self).tag_history()
            },
            r ==> {
                &&& final(scripts)@.len() == old(scripts)@.len()
                &&& forall|i: int|
                    0 <= i < old(scripts)@.len() ==> {
                        &&& same_but_tags(#[trigger] final(scripts)@[i], old(scripts)@[i])
                        &&& final(scripts)@[i].tags@ == retag(old(scripts)@[i].tags@, from@, to@, with_children)
                    }
                &&& final(templates)@.len() == old(templates)@.len()
                &&& forall|i: int|
                    0 <= i < old(templates)@.len() ==> {
                        &&& same_template_but_tags(#[trigger] final(templates)@[i], old(templates)@[i])
                        &&& final(templates)@[i].tags@ == retag(old(templates)@[i].tags@, from@, to@, with_children)
                    }
                &&& final(self).tag_history() == non_empty(
                    script_tags(final(scripts)@) + template_tags(final(templates)@),
                )
            },
    {
        let fc = crate::text::chars_of(from);
        let tc = crate::text::chars_of(to);
        if crate::text::chars_eq(&fc, &tc) || !self.has_tag(from) {
            return false;
        }
        retag_scripts(scripts, from, to, with_children);
        retag_templates(templates, from, to, with_children);
        self.build_tag_tree(scripts.as_slice(), templates.as_slice());
        true
    }

    /// Renames the tag `old_tag` to `new_tag` in all scripts and templates,
    /// together with every tag path below it, and rebuilds the tree. Does
    /// nothing and answers `false` when the two are equal or `old_tag` is not a
    /// known tag. Superseded by `rename_tag_segment`, which matches path
    /// segments.
    pub fn rename_tag(
        &mut self,
        old_tag: &str,
        new_tag: &str,
        scripts: &mut Vec<Script>,
        templates: &mut Vec<Template>,
    ) -> (r: bool)
        requires
            old(scripts)@.len() + old(templates)@.len() < usize::MAX,
        ensures
            r == !(old_tag@ == new_tag@ || !old(self).tag_history().contains(old_tag@)),
            !r ==> {
                &&& final(scripts)@ == old(scripts)@
                &&& final(templates)@ == old(templates)@
                &&& final(self).tag_history() == old(self).tag_history()
            },
            r ==> {
                &&& final(scripts)@.len() == old(scripts)@.len()
                &&& forall|i: int|
                    0 <= i < old(scripts)@.len() ==> {
                        &&& same_but_tags(#[trigger] final(scripts)@[i], old(scripts)@[i])
                        &&& final(scripts)@[i].tags@ == retag(old(scripts)@[i].tags@, old_tag@, new_tag@, true)
                    }
                &&& final(templates)@.len() == old(templates)@.len()
                &&& forall|i: int|
                    0 <= i < old(templates)@.len() ==> {
                        &&& same_template_but_tags(#[trigger] final(templates)@[i], old(templates)@[i])
                        &&& final(templates)@[i].tags@ == retag(old(templates)@[i].tags@, old_tag@, new_tag@, true)
                    }
                &&& final(self).tag_history() == non_empty(
                    script_tags(final(scripts)@) + template_tags(final(templates)@),
                )
            },
    {
        self.move_tag(old_tag, new_tag, true, scripts, templates)
    }

    /// Replaces the tags of every script and template tagged exactly
    /// `source_tag` by `target_tag` and rebuilds the tree. Does nothing and
    /// answers `false` when the two are equal or `source_tag` is not a known tag.
    pub fn merge_tags(
        &mut self,
        source_tag: &str,
        target_tag: &str,
        scripts: &mut Vec<Script>,
        templates: &mut Vec<Template>,
    ) -> (r: bool)
        requires
            old(scripts)@.len() + old(templates)@.len() < usize::MAX,
        ensures
            r == !(source_tag@ == target_tag@ || !old(self).tag_history().contains(source_tag@)),
            !r ==> {
                &&& final(scripts)@ == old(scripts)@
                &&& final(templates)@ == old(templates)@
                &&& final(self).tag_history() == old(self).tag_history()
            },
            r ==> {
                &&& final(scripts)@.len() == old(scripts)@.len()
                &&& forall|i: int|
                    0 <= i < old(scripts)@.len() ==> {
                        &&& same_but_tags(#[trigger] final(scripts)@[i], old(scripts)@[i])
                        &&& final(scripts)@[i].tags@ == retag(old(scripts)@[i].tags@, source_tag@, target_tag@, false)
                    }
                &&& final(templates)@.len() == old(templates)@.len()
                &&& forall|i: int|
                    0 <= i < old(templates)@.len() ==> {
                        &&& same_template_but_tags(#[trigger] final(templates)@[i], old(templates)@[i])
                        &&& final(templates)@[i].tags@ == retag(old(templates)@[i].tags@, source_tag@, target_tag@, false)
                    }
                &&& final(self).tag_history() == non_empty(
                    script_tags(final(scripts)@) + template_tags(final(templates)@),
                )
            },
    {
        self.move_tag(source_tag, target_tag, false, scripts, templates)
    }
}

// ---------------------------------------------------------------------------
// Tag formats
// ---------------------------------------------------------------------------
/// A character a tag segment may hold: a letter or digit, `_` or `-`.
pub open spec fn segment_char(c: char) -> bool {
    c != '/' && (crate::text::alnum(c) || c == '_' || c == '-')
}

/// A well-formed tag: empty, or made of segment characters and `/`, with no
/// `//`, and neither beginning nor ending with `/`.
pub open spec fn valid_tag(t: Seq<char>) -> bool {
    t.len() == 0 || {
        &&& forall|i: int| 0 <= i < t.len() ==> segment_char(#[trigger] t[i]) || t[i] == '/'
        &&& forall|i: int| 0 <= i < t.len() - 1 ==> !(#[trigger] t[i] == '/' && t[i + 1] == '/')
        &&& t[0] != '/'
        &&& t.last() != '/'
    }
}

/// The segment characters of `t` in order, and each run of `/` between them
/// kept as one `/` (other characters are dropped).
pub open spec fn collapse_slashes(t: Seq<char>) -> Seq<char>
    decreases t.len(),
{
    if t.len() == 0 {
        seq![]
    } else {
        let r = collapse_slashes(t.drop_last());
        let c = t.last();
        if segment_char(c) {
            r.push(c)
        } else if c == '/' && !(r.len() > 0 && r.last() == '/') {
            r.push(c)
        } else {
            r
        }
    }
}

/// `s` without its leading `/` characters.
pub open spec fn strip_leading_slashes(s: Seq<char>) -> Seq<char>
    decreases s.len(),
{
    if s.len() > 0 && s[0] == '/' {
        strip_leading_slashes(s.drop_first())
    } else {
        s
    }
}

/// `s` without its trailing `/` characters.
pub open spec fn strip_trailing_slashes(s: Seq<char>) -> Seq<char>
    decreases s.len(),
{
    if s.len() > 0 && s.last() == '/' {
        strip_trailing_slashes(s.drop_last())
    } else {
        s
    }
}

/// The cleaned form of a tag.
pub open spec fn sanitized(t: Seq<char>) -> Seq<char> {
    strip_trailing_slashes(strip_leading_slashes(collapse_slashes(t)))
}

/// Whether `tag` is well formed (see `valid_tag`).
pub fn validate_tag(tag: &str) -> (r: bool)
    ensures
        r == valid_tag(tag@),
{
    let t = crate::text::chars_of(tag);
    let n = t.len();
    if n == 0 {
        return true;
    }
    let mut i: usize = 0;
    while i < n
        invariant
            n == t@.len(),
            t@ == tag@,
            i <= n,
            forall|j: int| 0 <= j < i ==> segment_char(#[trigger] t@[j]) || t@[j] == '/',
        decreases n - i,
    {
        let c = t[i];
        if !(c == '/' || crate::text::is_alphanumeric(c) || c == '_' || c == '-') {
            return false;
        }
        i = i + 1;
    }
    let mut k: usize = 0;
    while k + 1 < n
        invariant
            n == t@.len(),
            t@ == tag@,
            n > 0,
            k + 1 <= n,
            forall|j: int| 0 <= j < k ==> !(#[trigger] t@[j] == '/' && t@[j + 1] == '/'),
        decreases n - k,
    {
        if t[k] == '/' && t[k + 1] == '/' {
            return false;
        }
        k = k + 1;
    }
    t[0] != '/' && t[n - 1] != '/'
}

/// `collapse_slashes` keeps only segment characters and `/`, never two `/` in a row.
pub proof fn lemma_collapse_slashes_shape(t: Seq<char>)
    ensures
        ({
            let r = collapse_slashes(t);
            &&& forall|i: int| 0 <= i < r.len() ==> segment_char(#[trigger] r[i]) || r[i] == '/'
            &&& forall|i: int| 0 <= i < r.len() - 1 ==> !(#[trigger] r[i] == '/' && r[i + 1] == '/')
        }),
    decreases t.len(),
{
    if t.len() > 0 {
        lemma_collapse_slashes_shape(t.drop_last());
        let r0 = collapse_slashes(t.drop_last());
        let r = collapse_slashes(t);
        assert forall|i: int| 0 <= i < r.len() - 1 implies !(#[trigger] r[i] == '/' && r[i + 1] == '/') by {
            if i + 1 < r0.len() {
                assert(r[i] == r0[i] && r[i + 1] == r0[i + 1]);
            } else if i < r0.len() {
                assert(r[i] == r0[i]);
                assert(r0[i] == r0.last());
            }
        }
        assert forall|i: int| 0 <= i < r.len() implies segment_char(#[trigger] r[i]) || r[i] == '/' by {
            if i < r0.len() {
                assert(r[i] == r0[i]);
            }
        }
    }
}

/// Stripping the leading `/` characters leaves a suffix that does not begin with `/`.
pub proof fn lemma_strip_leading_slashes(s: Seq<char>)
    ensures
        exists|lo: int| 0 <= lo <= s.len() && #[trigger] s.subrange(lo, s.len() as int) == strip_leading_slashes(s),
        strip_leading_slashes(s).len() == 0 || strip_leading_slashes(s)[0] != '/',
    decreases s.len(),
{
    if s.len() > 0 && s[0] == '/' {
        lemma_strip_leading_slashes(s.drop_first());
        let lo = choose|lo: int|
            0 <= lo <= s.drop_first().len() && #[trigger] s.drop_first().subrange(lo, s.drop_first().len() as int)
                == strip_leading_slashes(s.drop_first());
        assert(s.subrange(lo + 1, s.len() as int) =~= s.drop_first().subrange(lo, s.drop_first().len() as int));
    } else {
        assert(s.subrange(0, s.len() as int) =~= s);
    }
}

/// Stripping the trailing `/` characters leaves a prefix that does not end with `/`.
pub proof fn lemma_strip_trailing_slashes(s: Seq<char>)
    ensures
        exists|hi: int| 0 <= hi <= s.len() && #[trigger] s.subrange(0, hi) == strip_trailing_slashes(s),
        strip_trailing_slashes(s).len() == 0 || strip_trailing_slashes(s).last() != '/',
    decreases s.len(),
{
    if s.len() > 0 && s.last() == '/' {
        lemma_strip_trailing_slashes(s.drop_last());
        let hi = choose|hi: int|
            0 <= hi <= s.drop_last().len() && #[trigger] s.drop_last().subrange(0, hi) == strip_trailing_slashes(
                s.drop_last(),
            );
        assert(s.subrange(0, hi) =~= s.drop_last().subrange(0, hi));
    } else {
        assert(s.subrange(0, s.len() as int) =~= s);
    }
}

/// A cleaned tag is always well formed.
pub proof fn lemma_sanitized_is_valid(t: Seq<char>)
    ensures
        valid_tag(sanitized(t)),
{
    let c = collapse_slashes(t);
    lemma_collapse_slashes_shape(t);
    let a = strip_leading_slashes(c);
    lemma_strip_leading_slashes(c);
    let lo = choose|lo: int| 0 <= lo <= c.len() && #[trigger] c.subrange(lo, c.len() as int) == a;
    let b = strip_trailing_slashes(a);
    lemma_strip_trailing_slashes(a);
    let hi = choose|hi: int| 0 <= hi <= a.len() && #[trigger] a.subrange(0, hi) == b;
    assert forall|i: int| 0 <= i < b.len() implies b[i] == c[lo + i] by {
        assert(b[i] == a[i]);
        assert(a[i] == c[lo + i]);
    }
    if b.len() > 0 {
        assert forall|i: int| 0 <= i < b.len() implies segment_char(#[trigger] b[i]) || b[i] == '/' by {
            assert(b[i] == c[lo + i]);
        }
        assert forall|i: int| 0 <= i < b.len() - 1 implies !(#[trigger] b[i] == '/' && b[i + 1] == '/') by {
            assert(b[i] == c[lo + i]);
            assert(b[i + 1] == c[lo + i + 1]);
        }
        assert(b[0] == a[0]);
    }
}

/// `collapse_slashes` keeps a sequence of segment characters and single `/` as it is.
pub proof fn lemma_collapse_slashes_keeps(t: Seq<char>)
    requires
        forall|i: int| 0 <= i < t.len() ==> segment_char(#[trigger] t[i]) || t[i] == '/',
        forall|i: int| 0 <= i < t.len() - 1 ==> !(#[trigger] t[i] == '/' && t[i + 1] == '/'),
    ensures
        collapse_slashes(t) == t,
    decreases t.len(),
{
    if t.len() > 0 {
        let d = t.drop_last();
        assert forall|i: int| 0 <= i < d.len() implies segment_char(#[trigger] d[i]) || d[i] == '/' by {
            assert(d[i] == t[i]);
        }
        assert forall|i: int| 0 <= i < d.len() - 1 implies !(#[trigger] d[i] == '/' && d[i + 1] == '/') by {
            assert(d[i] == t[i] && d[i + 1] == t[i + 1]);
        }
        lemma_collapse_slashes_keeps(d);
        if d.len() > 0 {
            assert(t[d.len() - 1] == d.last());
        }
        assert(d.push(t.last()) =~= t);
    }
}

/// Cleaning a well-formed tag leaves it unchanged.
pub proof fn lemma_sanitize_valid_is_identity(t: Seq<char>)
    requires
        valid_tag(t),
    ensures
        sanitized(t) == t,
{
    if t.len() > 0 {
        lemma_collapse_slashes_keeps(t);
    } else {
        assert(collapse_slashes(t) == t);
    }
}

/// The cleaned form of `tag` (see `sanitized`): runs of `/` become one, other
/// characters that are not letters, digits, `_` or `-` are dropped, and
/// leading and trailing `/` are removed.
pub fn sanitize_tag(tag: &str) -> (r: String)
    ensures
        r@ == sanitized(tag@),
{
    let t = crate::text::chars_of(tag);
    let mut out: Vec<char> = Vec::new();
    let mut last_was_slash = false;
    let mut i: usize = 0;
    while i < t.len()
        invariant
            i <= t@.len(),
            t@ == tag@,
            out@ == collapse_slashes(t@.take(i as int)),
            last_was_slash == (out@.len() > 0 && out@.last() == '/'),
        decreases t@.len() - i,
    {
        let c = t[i];
        proof {
            assert(t@.take(i + 1).drop_last() =~= t@.take(i as int));
            assert(t@.take(i + 1).last() == c);
        }
        if c != '/' && (crate::text::is_alphanumeric(c) || c == '_' || c == '-') {
            out.push(c);
            last_was_slash = false;
        } else if c == '/' && !last_was_slash {
            out.push(c);
            last_was_slash = true;
        }
        i = i + 1;
    }
    proof {
        assert(t@.take(i as int) =~= t@);
    }
    let ghost c = out@;
    let n = out.len();
    assert(c.subrange(0, n as int) =~= c);
    let mut lo: usize = 0;
    while lo < n && out[lo] == '/'
        invariant
            n == c.len(),
            c == out@,
            lo <= n,
            strip_leading_slashes(c) == strip_leading_slashes(c.subrange(lo as int, n as int)),
        decreases n - lo,
    {
        proof {
            let s = c.subrange(lo as int, n as int);
            assert(s.drop_first() =~= c.subrange(lo + 1, n as int));
        }
        lo = lo + 1;
    }
    let ghost a = c.subrange(lo as int, n as int);
    proof {
        assert(strip_leading_slashes(a) == a);
    }
    let mut hi: usize = n;
    while hi > lo && out[hi - 1] == '/'
        invariant
            n == c.len(),
            c == out@,
            lo <= hi <= n,
            a == c.subrange(lo as int, n as int),
            strip_trailing_slashes(a) == strip_trailing_slashes(c.subrange(lo as int, hi as int)),
        decreases hi - lo,
    {
        proof {
            let s = c.subrange(lo as int, hi as int);
            assert(s.drop_last() =~= c.subrange(lo as int, hi - 1));
        }
        hi = hi - 1;
    }
    crate::text::string_of_range(&out, lo, hi)
}

// ---------------------------------------------------------------------------
// Suggestions
// ---------------------------------------------------------------------------
/// The counted tags that begin with `partial`, in order.
pub open spec fn prefixed(counts: Seq<(Seq<char>, nat)>, partial: Seq<char>) -> Seq<(Seq<char>, nat)> {
    select(counts, |e: (Seq<char>, nat)| crate::text::starts_with(e.0, partial))
}

/// Suggestion order: shorter (in bytes) first, then more used first.
pub open spec fn suggestion_keys(s: Seq<(Seq<char>, nat)>) -> Seq<KeyView> {
    s.map_values(|e: (Seq<char>, nat)| (byte_len(e.0), u64::MAX - e.1, Seq::<char>::empty()))
}

/// The entries whose tag begins with `partial`, in order.
fn prefixed_entries(entries: &Vec<(String, usize)>, partial: &str) -> (r: Vec<(String, usize)>)
    ensures
        r@.map_values(|p: (String, usize)| count_pair_view(p)) == prefixed(
            entries@.map_values(|p: (String, usize)| count_pair_view(p)),
            partial@,
        ),
{
    let ghost ev = entries@.map_values(|p: (String, usize)| count_pair_view(p));
    let ghost keep = |e: (Seq<char>, nat)| crate::text::starts_with(e.0, partial@);
    let pc = crate::text::chars_of(partial);
    let mut r: Vec<(String, usize)> = Vec::new();
    let mut i: usize = 0;
    while i < entries.len()
        invariant
            i <= entries@.len(),
            pc@ == partial@,
            ev == entries@.map_values(|p: (String, usize)| count_pair_view(p)),
            keep == (|e: (Seq<char>, nat)| crate::text::starts_with(e.0, partial@)),
            r@.map_values(|p: (String, usize)| count_pair_view(p)) == select(ev.take(i as int), keep),
        decreases entries@.len() - i,
    {
        proof {
            assert(ev.take(i + 1).drop_last() =~= ev.take(i as int));
            assert(ev.take(i + 1).last() == count_pair_view(entries@[i as int]));
        }
        let kc = crate::text::chars_of(entries[i].0.as_str());
        if crate::text::starts_with_exec(&kc, &pc) {
            let ghost prev = r@;
            let e = (entries[i].0.clone(), entries[i].1);
            r.push(e);
            assert(r@.map_values(|p: (String, usize)| count_pair_view(p)) =~= prev.map_values(
                |p: (String, usize)| count_pair_view(p),
            ).push(count_pair_view(e)));
        }
        i = i + 1;
    }
    assert(ev.take(i as int) =~= ev);
    r
}

/// The suggestion keys of the entries.
fn suggestion_key_list(entries: &Vec<(String, usize)>) -> (r: Vec<SortKey>)
    ensures
        r@.map_values(|k: SortKey| key_view(k)) == suggestion_keys(
            entries@.map_values(|p: (String, usize)| count_pair_view(p)),
        ),
{
    let ghost ev = entries@.map_values(|p: (String, usize)| count_pair_view(p));
    let mut r: Vec<SortKey> = Vec::new();
    let mut i: usize = 0;
    while i < entries.len()
        invariant
            i <= entries@.len(),
            ev == entries@.map_values(|p: (String, usize)| count_pair_view(p)),
            r@.map_values(|k: SortKey| key_view(k)) == suggestion_keys(ev).take(i as int),
        decreases entries@.len() - i,
    {
        let len = entries[i].0.as_str().len() as u64;
        let c = entries[i].1 as u64;
        let ghost prev = r@;
        let key = SortKey { major: len, minor: u64::MAX - c, text: Vec::new() };
        assert(key.text@ =~= Seq::<char>::empty());
        r.push(key);
        assert(r@.map_values(|k: SortKey| key_view(k)) =~= prev.map_values(|k: SortKey| key_view(k)).push(key_view(key)));
        assert(suggestion_keys(ev).take(i + 1) =~= suggestion_keys(ev).take(i as int).push(suggestion_keys(ev)[i as int]));
        i = i + 1;
    }
    assert(suggestion_keys(ev).take(i as int) =~= suggestion_keys(ev));
    r
}

impl TagManager {
    /// Up to ten known tags that begin with `partial_tag`: shorter tags first
    /// (in bytes), then more used ones, equal ones in the order they were first seen.
    pub fn get_tag_suggestions(&self, partial_tag: &str) -> (r: Vec<String>)
        ensures
            ({
                let fv = prefixed(tag_counts(self.tag_history()), partial_tag@);
                exists|p: Seq<int>|
                    {
                        &&& stably_sorted(suggestion_keys(fv), p)
                        &&& r@.map_values(|s: String| s@) == permuted(fv, p).map_values(
                            |e: (Seq<char>, nat)| e.0,
                        ).take(if fv.len() < 10 { fv.len() as int } else { 10 })
                    }
            }),
    {
        proof {
            use_type_invariant(self);
        }
        let cand = prefixed_entries(&self.all_tags, partial_tag);
        let keys = suggestion_key_list(&cand);
        let order = stable_order(&keys);
        let ghost fv = cand@.map_values(|p: (String, usize)| count_pair_view(p));
        let ghost pv = order@.map_values(|i: usize| i as int);
        let ghost m = if fv.len() < 10 { fv.len() as int } else { 10 };
        proof {
            assert(fv == prefixed(tag_counts(self.history@), partial_tag@));
            assert(keys@.map_values(|k: SortKey| key_view(k)) == suggestion_keys(fv));
            assert(pv.len() == fv.len());
        }
        let limit: usize = if cand.len() < 10 { cand.len() } else { 10 };
        let mut r: Vec<String> = Vec::new();
        let mut k: usize = 0;
        while k < limit
            invariant
                k <= limit,
                limit as int == m,
                m <= order@.len(),
                order@.len() == cand@.len(),
                pv == order@.map_values(|i: usize| i as int),
                fv == cand@.map_values(|p: (String, usize)| count_pair_view(p)),
                stably_sorted(suggestion_keys(fv), pv),
                r@.map_values(|s: String| s@) == permuted(fv, pv).map_values(|e: (Seq<char>, nat)| e.0).take(
                    k as int,
                ),
            decreases limit - k,
        {
            let idx = order[k];
            assert(pv[k as int] == idx as int);
            assert(0 <= pv[k as int] < suggestion_keys(fv).len());
            let ghost prev = r@;
            r.push(cand[idx].0.clone());
            assert(r@.map_values(|s: String| s@) =~= prev.map_values(|s: String| s@).push(cand@[idx as int].0@));
            assert(permuted(fv, pv).map_values(|e: (Seq<char>, nat)| e.0).take(k + 1) =~= permuted(
                fv,
                pv,
            ).map_values(|e: (Seq<char>, nat)| e.0).take(k as int).push(fv[idx as int].0));
            k = k + 1;
        }
        proof {
            assert(stably_sorted(suggestion_keys(fv), pv));
            assert(r@.map_values(|s: String| s@) == permuted(fv, pv).map_values(|e: (Seq<char>, nat)| e.0).take(m));
            let fv2 = prefixed(tag_counts(self.tag_history()), partial_tag@);
            assert(fv2 == fv);
            let m2 = if fv2.len() < 10 { fv2.len() as int } else { 10 };
            assert(m2 == m);
            assert(stably_sorted(suggestion_keys(fv2), pv) && r@.map_values(|s: String| s@) == permuted(fv2, pv).map_values(
                |e: (Seq<char>, nat)| e.0,
            ).take(m2));
        }
        r
    }
}

/// Each tag of `counts` repeated as many times as its count, in order.
pub open spec fn expanded(counts: Seq<(Seq<char>, nat)>) -> Seq<Seq<char>>
    decreases counts.len(),
{
    if counts.len() == 0 {
        seq![]
    } else {
        expanded(counts.drop_last()) + Seq::new(counts.last().1, |i: int| counts.last().0)
    }
}

impl TagManager {
    /// A manager holding the given tags with their counts (as stored), the
    /// tree rebuilt from them; nothing when the counts add up to `usize::MAX`
    /// or more.
    pub fn from_counts(counts: &Vec<(String, usize)>) -> (r: Option<TagManager>)
        ensures
            match r {
                Some(m) => m.tag_history() == non_empty(expanded(count_views(counts@))),
                None => expanded(count_views(counts@)).len() >= usize::MAX,
            },
    {
        let ghost cv = count_views(counts@);
        let mut list: Vec<String> = Vec::new();
        let mut i: usize = 0;
        while i < counts.len()
            invariant
                i <= counts@.len(),
                cv == count_views(counts@),
                views(list@) == expanded(cv.take(i as int)),
                list@.len() < usize::MAX,
            decreases counts@.len() - i,
        {
            let c = counts[i].1;
            let ghost before = views(list@);
            proof {
                assert(cv.take(i + 1).drop_last() =~= cv.take(i as int));
                assert(cv.take(i + 1).last() == cv[i as int]);
                assert(cv[i as int] == count_pair_view(counts@[i as int]));
            }
            if c >= usize::MAX - list.len() {
                proof {
                    lemma_expanded_prefix(cv, i + 1);
                    assert(expanded(cv.take(i + 1)).len() == before.len() + c);
                    assert(cv.take(counts@.len() as int) =~= cv);
                }
                return None;
            }
            let mut k: usize = 0;
            while k < c
                invariant
                    k <= c,
                    i < counts@.len(),
                    c == counts@[i as int].1,
                    views(list@) == before + Seq::new(k as nat, |j: int| counts@[i as int].0@),
                    list@.len() == before.len() + k,
                    before.len() + c < usize::MAX,
                decreases c - k,
            {
                let ghost prev = list@;
                list.push(counts[i].0.clone());
                assert(views(list@) =~= views(prev).push(counts@[i as int].0@));
                assert(before + Seq::new((k + 1) as nat, |j: int| counts@[i as int].0@) =~= (before + Seq::new(
                    k as nat,
                    |j: int| counts@[i as int].0@,
                )).push(counts@[i as int].0@));
                k = k + 1;
            }
            assert(Seq::new(c as nat, |j: int| counts@[i as int].0@) =~= Seq::new(cv.take(i + 1).last().1, |j: int| cv.take(i + 1).last().0));
            i = i + 1;
        }
        assert(cv.take(i as int) =~= cv);
        let empty: Vec<String> = Vec::new();
        let mut m = TagManager::new();
        m.rebuild(&list, &empty);
        assert(views(list@) + empty@.map_values(|x: String| x@) =~= views(list@));
        assert(views(list@) =~= list@.map_values(|x: String| x@));
        Some(m)
    }

    /// The root of the tag tree.
    pub fn root(&self) -> (r: &TagNode)
        ensures
            node_ok(*r, seq![], self.tag_history()),
    {
        proof {
            use_type_invariant(self);
        }
        &self.root
    }
}

/// The expanded tags of a longer prefix extend those of a shorter one.
pub proof fn lemma_expanded_prefix(cv: Seq<(Seq<char>, nat)>, n: int)
    requires
        0 <= n <= cv.len(),
    ensures
        expanded(cv.take(n)).len() <= expanded(cv).len(),
    decreases cv.len() - n,
{
    if n < cv.len() {
        lemma_expanded_prefix(cv, n + 1);
        assert(cv.take(n + 1).drop_last() =~= cv.take(n));
    } else {
        assert(cv.take(n) =~= cv);
    }
}

impl Default for TagManager {
    fn default() -> (r: TagManager)
        ensures
            r.tag_history() == Seq::<Seq<char>>::empty(),
    {
        TagManager::new()
    }
}

} // verus!
