//! Stable sorting by a key, as `slice::sort_by` orders with a comparator.
use vstd::prelude::*;
use crate::text::views;

verus! {

/// A sort key: compared by `major`, then `minor`, then `text` (lexicographically
/// by code point, which is the order of `String` comparison).
pub struct SortKey {
    pub major: u64,
    pub minor: u64,
    pub text: Vec<char>,
}

/// The view of a sort key.
pub type KeyView = (int, int, Seq<char>);

pub open spec fn key_view(k: SortKey) -> KeyView {
    (k.major as int, k.minor as int, k.text@)
}

/// Strict lexicographic order on character sequences (by code point).
pub open spec fn text_lt(a: Seq<char>, b: Seq<char>) -> bool
    decreases a.len(),
{
    if a.len() == 0 {
        b.len() > 0
    } else if b.len() == 0 {
        false
    } else if (a[0] as int) < (b[0] as int) {
        true
    } else if a[0] == b[0] {
        text_lt(a.drop_first(), b.drop_first())
    } else {
        false
    }
}

/// Strict order on keys.
pub open spec fn key_lt(a: KeyView, b: KeyView) -> bool {
    a.0 < b.0 || (a.0 == b.0 && (a.1 < b.1 || (a.1 == b.1 && text_lt(a.2, b.2))))
}

/// `p` lists the indices of `ks` once each, ordered by key, with equal keys
/// in index order: the order a stable sort gives.
pub open spec fn stably_sorted(ks: Seq<KeyView>, p: Seq<int>) -> bool {
    &&& p.len() == ks.len()
    &&& forall|i: int| 0 <= i < p.len() ==> 0 <= #[trigger] p[i] < ks.len()
    &&& p.no_duplicates()
    &&& forall|i: int, j: int|
        0 <= i < j < p.len() ==> !key_lt(ks[#[trigger] p[j]], ks[#[trigger] p[i]])
    &&& forall|i: int, j: int|
        0 <= i < j < p.len() && !key_lt(ks[#[trigger] p[i]], ks[#[trigger] p[j]]) ==> p[i] < p[j]
}

pub proof fn lemma_text_lt_irreflexive(a: Seq<char>)
    ensures
        !text_lt(a, a),
    decreases a.len(),
{
    if a.len() > 0 {
        lemma_text_lt_irreflexive(a.drop_first());
    }
}

pub proof fn lemma_text_lt_transitive(a: Seq<char>, b: Seq<char>, c: Seq<char>)
    requires
        text_lt(a, b),
        text_lt(b, c),
    ensures
        text_lt(a, c),
    decreases a.len(),
{
    if a.len() > 0 && b.len() > 0 && c.len() > 0 && a[0] == b[0] && b[0] == c[0] {
        lemma_text_lt_transitive(a.drop_first(), b.drop_first(), c.drop_first());
    }
}

pub proof fn lemma_text_lt_total(a: Seq<char>, b: Seq<char>)
    ensures
        text_lt(a, b) || text_lt(b, a) || a == b,
    decreases a.len(),
{
    if a.len() > 0 && b.len() > 0 {
        if a[0] == b[0] {
            lemma_text_lt_total(a.drop_first(), b.drop_first());
            if a.drop_first() == b.drop_first() {
                assert(a =~= seq![a[0]] + a.drop_first());
                assert(b =~= seq![b[0]] + b.drop_first());
            }
        } else {
            assert((a[0] as int) != (b[0] as int));
        }
    } else if a.len() == 0 && b.len() == 0 {
        assert(a =~= b);
    }
}

pub proof fn lemma_key_lt_facts()
    ensures
        forall|a: KeyView| !key_lt(a, a),
        forall|a: KeyView, b: KeyView, c: KeyView|
            #![trigger key_lt(a, b), key_lt(b, c)] key_lt(a, b) && key_lt(b, c) ==> key_lt(a, c),
        forall|a: KeyView, b: KeyView| key_lt(a, b) || key_lt(b, a) || a == b,
{
    assert forall|a: KeyView| !key_lt(a, a) by {
        lemma_text_lt_irreflexive(a.2);
    }
    assert forall|a: KeyView, b: KeyView, c: KeyView|
        #![trigger key_lt(a, b), key_lt(b, c)] key_lt(a, b) && key_lt(b, c) implies key_lt(a, c) by {
        if a.0 == b.0 && b.0 == c.0 && a.1 == b.1 && b.1 == c.1 {
            lemma_text_lt_transitive(a.2, b.2, c.2);
        }
    }
    assert forall|a: KeyView, b: KeyView| key_lt(a, b) || key_lt(b, a) || a == b by {
        lemma_text_lt_total(a.2, b.2);
    }
}

/// Whether `a` sorts strictly before `b` by their text.
fn text_less(a: &[char], b: &[char]) -> (r: bool)
    ensures
        r == text_lt(a@, b@),
{
    let mut i: usize = 0;
    assert(a@.skip(0) =~= a@);
    assert(b@.skip(0) =~= b@);
    while i < a.len() && i < b.len()
        invariant
            i <= a@.len(),
            i <= b@.len(),
            a@.take(i as int) == b@.take(i as int),
            text_lt(a@, b@) == text_lt(a@.skip(i as int), b@.skip(i as int)),
        decreases a@.len() - i,
    {
        if a[i] < b[i] {
            assert(a@.skip(i as int)[0] == a@[i as int]);
            assert(b@.skip(i as int)[0] == b@[i as int]);
            return true;
        }
        if a[i] != b[i] {
            assert(a@.skip(i as int)[0] == a@[i as int]);
            assert(b@.skip(i as int)[0] == b@[i as int]);
            return false;
        }
        assert(a@.skip(i as int).drop_first() =~= a@.skip(i + 1));
        assert(b@.skip(i as int).drop_first() =~= b@.skip(i + 1));
        assert(a@.take(i + 1) =~= a@.take(i as int).push(a@[i as int]));
        assert(b@.take(i + 1) =~= b@.take(i as int).push(b@[i as int]));
        i = i + 1;
    }
    i < b.len()
}

/// Whether key `a` sorts strictly before key `b`.
pub fn key_less(a: &SortKey, b: &SortKey) -> (r: bool)
    ensures
        r == key_lt(key_view(*a), key_view(*b)),
{
    if a.major != b.major {
        return a.major < b.major;
    }
    if a.minor != b.minor {
        return a.minor < b.minor;
    }
    text_less(&a.text, &b.text)
}

/// The indices of `keys` in the order a stable sort by key puts them.
pub fn stable_order(keys: &Vec<SortKey>) -> (p: Vec<usize>)
    ensures
        stably_sorted(keys@.map_values(|k: SortKey| key_view(k)), p@.map_values(|i: usize| i as int)),
{
    let ghost ks = keys@.map_values(|k: SortKey| key_view(k));
    let mut p: Vec<usize> = Vec::new();
    let mut n: usize = 0;
    proof {
        lemma_key_lt_facts();
    }
    while n < keys.len()
        invariant
            n <= keys@.len(),
            ks == keys@.map_values(|k: SortKey| key_view(k)),
            stably_sorted(ks.take(n as int), p@.map_values(|i: usize| i as int)),
            forall|a: KeyView| !key_lt(a, a),
            forall|a: KeyView, b: KeyView, c: KeyView|
                #![trigger key_lt(a, b), key_lt(b, c)] key_lt(a, b) && key_lt(b, c) ==> key_lt(a, c),
            forall|a: KeyView, b: KeyView| key_lt(a, b) || key_lt(b, a) || a == b,
        decreases keys@.len() - n,
    {
        let ghost pv = p@.map_values(|i: usize| i as int);
        let ghost kn = ks.take(n as int);
        let ghost kn1 = ks.take(n + 1);
        assert forall|i: int| 0 <= i < pv.len() implies kn1[pv[i]] == kn[pv[i]] && ks[pv[i]] == kn[pv[i]] by {}
        assert forall|i: int| 0 <= i < p@.len() implies p@[i] < n by {
            assert(pv[i] == p@[i] as int);
        }
        // first position whose key is strictly greater than the new key
        let mut pos: usize = 0;
        while pos < p.len() && !key_less(&keys[n], &keys[p[pos]])
            invariant
                pos <= p@.len(),
                n < keys@.len(),
                pv == p@.map_values(|i: usize| i as int),
                stably_sorted(kn, pv),
                kn == ks.take(n as int),
                ks == keys@.map_values(|k: SortKey| key_view(k)),
                forall|i: int| 0 <= i < pos ==> !key_lt(ks[n as int], #[trigger] ks[pv[i]]),
                forall|i: int| 0 <= i < p@.len() ==> p@[i] < n,
            decreases p@.len() - pos,
        {
            pos = pos + 1;
        }
        p.insert(pos, n);
        proof {
            let np = p@.map_values(|i: usize| i as int);
            assert(np =~= pv.insert(pos as int, n as int));
            let x = ks[n as int];
            assert forall|i: int| 0 <= i < np.len() implies 0 <= #[trigger] np[i] < kn1.len() by {
                if i > pos {
                    assert(np[i] == pv[i - 1]);
                }
            }
            assert forall|i: int| 0 <= i < np.len() implies kn1[#[trigger] np[i]] == ks[np[i]] by {
                if i > pos {
                    assert(np[i] == pv[i - 1]);
                }
            }
            // elements at and after `pos` are strictly greater than the new key
            assert forall|j: int| pos <= j < pv.len() implies key_lt(x, #[trigger] ks[pv[j]]) by {
                if j > pos {
                    assert(!key_lt(kn[pv[j]], kn[pv[pos as int]]));
                    assert(kn[pv[j]] == ks[pv[j]]);
                    assert(kn[pv[pos as int]] == ks[pv[pos as int]]);
                }
            }
            assert forall|i: int, j: int|
                0 <= i < j < np.len() implies !key_lt(kn1[#[trigger] np[j]], kn1[#[trigger] np[i]]) by {
                if i < pos && j < pos {
                    assert(np[i] == pv[i] && np[j] == pv[j]);
                } else if i < pos && j == pos {
                    assert(np[i] == pv[i]);
                } else if i < pos && j > pos {
                    assert(np[i] == pv[i] && np[j] == pv[j - 1]);
                    if j - 1 >= pos {
                        assert(key_lt(x, ks[pv[j - 1]]));
                    }
                } else if i == pos {
                    assert(np[j] == pv[j - 1]);
                    assert(key_lt(x, ks[pv[j - 1]]));
                } else {
                    assert(np[i] == pv[i - 1] && np[j] == pv[j - 1]);
                }
            }
            assert forall|i: int, j: int|
                0 <= i < j < np.len() && !key_lt(kn1[#[trigger] np[i]], kn1[#[trigger] np[j]]) implies np[i]
                < np[j] by {
                if i < pos && j < pos {
                    assert(np[i] == pv[i] && np[j] == pv[j]);
                } else if i < pos && j == pos {
                    assert(np[i] == pv[i]);
                } else if i < pos && j > pos {
                    assert(np[i] == pv[i] && np[j] == pv[j - 1]);
                } else if i == pos {
                    assert(np[j] == pv[j - 1]);
                    assert(key_lt(x, ks[pv[j - 1]]));
                } else {
                    assert(np[i] == pv[i - 1] && np[j] == pv[j - 1]);
                }
            }
            assert forall|i: int, j: int| 0 <= i < j < np.len() implies np[i] != np[j] by {
                if i < pos && j < pos {
                    assert(np[i] == pv[i] && np[j] == pv[j]);
                } else if i < pos && j == pos {
                    assert(np[i] == pv[i]);
                } else if i < pos && j > pos {
                    assert(np[i] == pv[i] && np[j] == pv[j - 1]);
                } else if i == pos {
                    assert(np[j] == pv[j - 1]);
                } else {
                    assert(np[i] == pv[i - 1] && np[j] == pv[j - 1]);
                }
            }
        }
        n = n + 1;
    }
    assert(ks.take(n as int) =~= ks);
    p
}

/// The entries of `ev` in the order of the indices `p`.
pub open spec fn permuted<A>(ev: Seq<A>, p: Seq<int>) -> Seq<A> {
    p.map_values(|i: int| ev[i])
}

/// A stable sort order holds every index, so the sorted entries hold every entry.
pub proof fn lemma_permuted_covers<A>(ev: Seq<A>, ks: Seq<KeyView>, p: Seq<int>, x: A)
    requires
        stably_sorted(ks, p),
        ks.len() == ev.len(),
        ev.contains(x),
    ensures
        permuted(ev, p).contains(x),
{
    let k = choose|k: int| 0 <= k < ev.len() && ev[k] == x;
    let ps = p.to_set();
    p.unique_seq_to_set();
    let full = Set::new(|a: int| 0 <= a < ev.len());
    assert(ps.subset_of(full));
    vstd::set_lib::lemma_int_range(0, ev.len() as int);
    assert(full =~= vstd::set_lib::set_int_range(0, ev.len() as int));
    if !ps.contains(k) {
        assert(ps.subset_of(full.remove(k)));
        vstd::set_lib::lemma_len_subset(ps, full.remove(k));
    }
    assert(ps.contains(k));
    let j = choose|j: int| 0 <= j < p.len() && p[j] == k;
    assert(permuted(ev, p)[j] == x);
}

/// The sorted entries are entries, and distinct entries stay distinct.
pub proof fn lemma_permuted_within<A>(ev: Seq<A>, ks: Seq<KeyView>, p: Seq<int>)
    requires
        stably_sorted(ks, p),
        ks.len() == ev.len(),
    ensures
        permuted(ev, p).len() == ev.len(),
        forall|x: A| #[trigger] permuted(ev, p).contains(x) ==> ev.contains(x),
        ev.no_duplicates() ==> permuted(ev, p).no_duplicates(),
{
    let rv = permuted(ev, p);
    assert forall|x: A| #[trigger] rv.contains(x) implies ev.contains(x) by {
        let j = choose|j: int| 0 <= j < rv.len() && rv[j] == x;
        assert(ev[p[j]] == x);
    }
    if ev.no_duplicates() {
        assert forall|i: int, j: int| 0 <= i < j < rv.len() implies rv[i] != rv[j] by {
            assert(p[i] != p[j]);
        }
    }
}

/// Keys that order texts by their text alone.
pub open spec fn text_keys(s: Seq<Seq<char>>) -> Seq<KeyView> {
    s.map_values(|t: Seq<char>| (0int, 0int, t))
}

/// Strictly increasing texts.
pub open spec fn strictly_sorted(s: Seq<Seq<char>>) -> bool {
    forall|i: int, j: int| 0 <= i < j < s.len() ==> text_lt(#[trigger] s[i], #[trigger] s[j])
}

/// Distinct texts in increasing order.
pub fn sort_texts(v: &Vec<String>) -> (r: Vec<String>)
    requires
        views(v@).no_duplicates(),
    ensures
        strictly_sorted(views(r@)),
        forall|x: Seq<char>| #[trigger] views(r@).contains(x) <==> views(v@).contains(x),
{
    let ghost ev = v@.map_values(|x: String| x@);
    let mut keys: Vec<SortKey> = Vec::new();
    let mut i: usize = 0;
    while i < v.len()
        invariant
            i <= v@.len(),
            ev == v@.map_values(|x: String| x@),
            keys@.map_values(|k: SortKey| key_view(k)) == text_keys(ev).take(i as int),
        decreases v@.len() - i,
    {
        let ghost prev = keys@;
        let key = SortKey { major: 0, minor: 0, text: crate::text::chars_of(v[i].as_str()) };
        keys.push(key);
        assert(keys@.map_values(|k: SortKey| key_view(k)) =~= prev.map_values(|k: SortKey| key_view(k)).push(key_view(key)));
        assert(text_keys(ev).take(i + 1) =~= text_keys(ev).take(i as int).push(text_keys(ev)[i as int]));
        i = i + 1;
    }
    assert(text_keys(ev).take(i as int) =~= text_keys(ev));
    let order = stable_order(&keys);
    let ghost pv = order@.map_values(|i: usize| i as int);
    let ghost ks = text_keys(ev);
    let mut r: Vec<String> = Vec::new();
    let mut k: usize = 0;
    while k < order.len()
        invariant
            k <= order@.len(),
            order@.len() == v@.len(),
            pv == order@.map_values(|i: usize| i as int),
            ev == v@.map_values(|x: String| x@),
            ks == text_keys(ev),
            stably_sorted(ks, pv),
            r@.map_values(|x: String| x@) == permuted(ev, pv.take(k as int)),
        decreases order@.len() - k,
    {
        let idx = order[k];
        assert(pv[k as int] == idx as int);
        let ghost prev = r@;
        r.push(v[idx].clone());
        assert(r@.map_values(|x: String| x@) =~= prev.map_values(|x: String| x@).push(ev[idx as int]));
        assert(permuted(ev, pv.take(k + 1)) =~= permuted(ev, pv.take(k as int)).push(ev[pv[k as int]]));
        k = k + 1;
    }
    assert(pv.take(k as int) =~= pv);
    proof {
        lemma_key_lt_facts();
        lemma_permuted_within(ev, ks, pv);
        let rv = permuted(ev, pv);
        assert forall|i: int, j: int| 0 <= i < j < rv.len() implies text_lt(#[trigger] rv[i], #[trigger] rv[j]) by {
            assert(!key_lt(ks[pv[j]], ks[pv[i]]));
            assert(ks[pv[i]] == (0int, 0int, rv[i]));
            assert(ks[pv[j]] == (0int, 0int, rv[j]));
            assert(rv[i] != rv[j]);
            lemma_text_lt_total(rv[i], rv[j]);
        }
        assert forall|x: Seq<char>| ev.contains(x) implies rv.contains(x) by {
            lemma_permuted_covers(ev, ks, pv, x);
        }
        assert(views(r@) == rv);
        assert(views(v@) == ev);
    }
    r
}

} // verus!
