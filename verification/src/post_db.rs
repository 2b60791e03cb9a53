//! The document collection: all posts stably sorted by descending
//! creation date, chronological neighbor links, and slug and tag
//! indices, built in one batch pass with duplicate-slug detection.

use vstd::prelude::*;

use crate::date::{date_le, date_lt, MyDate};
use crate::post::{Post, PostError, Tag};
use crate::text::str_eq;

verus! {

/// The creation date of a document.
pub open spec fn created_of(p: Post) -> MyDate {
    p.meta.created_date
}

/// `perm` is a permutation of `0 .. n`.
pub open spec fn is_perm(perm: Seq<int>, n: int) -> bool {
    &&& perm.len() == n
    &&& forall|k: int| 0 <= k < n ==> 0 <= #[trigger] perm[k] < n
    &&& forall|k1: int, k2: int|
        #![trigger perm[k1], perm[k2]]
        0 <= k1 < n && 0 <= k2 < n && k1 != k2 ==> perm[k1] != perm[k2]
}

/// `out` is `inp` stably sorted by descending creation date; `perm`
/// names each output position's source position. Equal dates keep
/// their input order.
pub open spec fn stable_desc_sort(out: Seq<Post>, inp: Seq<Post>, perm: Seq<int>) -> bool {
    &&& is_perm(perm, inp.len() as int)
    &&& out.len() == inp.len()
    &&& forall|k: int| 0 <= k < out.len() ==> #[trigger] out[k] == inp[perm[k]]
    &&& forall|a: int, b: int|
        #![trigger out[a], out[b]]
        0 <= a < b < out.len() ==> date_le(created_of(out[b]), created_of(out[a]))
    &&& forall|a: int, b: int|
        #![trigger out[a], out[b]]
        0 <= a < b < out.len() && created_of(out[a]) == created_of(out[b]) ==> perm[a] < perm[b]
}

/// Insertion sort by descending creation date; stable because each
/// element is inserted after every earlier element whose date is not
/// strictly older.
fn sort_posts(posts: Vec<Post>) -> (r: Vec<Post>)
    ensures
        exists|perm: Seq<int>| stable_desc_sort(r@, posts@, perm),
{
    let ghost orig = posts@;
    let mut v = posts;
    let n = v.len();
    let ghost mut perm: Seq<int> = Seq::new(n as nat, |k: int| k);
    let mut i: usize = 1;
    while i < n
        invariant
            n == v@.len(),
            orig.len() == n,
            1 <= i,
            n > 0 ==> i <= n,
            is_perm(perm, n as int),
            forall|m: int| 0 <= m < n ==> #[trigger] v@[m] == orig[perm[m]],
            forall|a: int, b: int|
                #![trigger v@[a], v@[b]]
                0 <= a < b < i && b < n ==> date_le(created_of(v@[b]), created_of(v@[a])),
            forall|a: int, b: int|
                #![trigger v@[a], v@[b]]
                0 <= a < b < i && b < n && created_of(v@[a]) == created_of(v@[b]) ==> perm[a]
                    < perm[b],
            forall|m: int| 0 <= m < i && m < n ==> 0 <= #[trigger] perm[m] < i,
            forall|m: int| i <= m < n ==> #[trigger] perm[m] == m,
        decreases n - i,
    {
        let mut k: usize = 0;
        while k < i && !v[k].meta.created_date.lt(&v[i].meta.created_date)
            invariant
                k <= i < n,
                n == v@.len(),
                forall|m: int|
                    0 <= m < k ==> !date_lt(created_of(#[trigger] v@[m]), created_of(v@[i as int])),
            decreases i - k,
        {
            k += 1;
        }
        if k < i {
            let ghost old_v = v@;
            let ghost old_perm = perm;
            let p = v.remove(i);
            v.insert(k, p);
            proof {
                perm = old_perm.remove(i as int).insert(k as int, old_perm[i as int]);
                old_v.remove_ensures(i as int);
                old_v.remove(i as int).insert_ensures(k as int, p);
                old_perm.remove_ensures(i as int);
                old_perm.remove(i as int).insert_ensures(k as int, old_perm[i as int]);
                assert(v@.len() == n);
                assert(perm.len() == n);
                assert forall|m: int| 0 <= m < n implies #[trigger] v@[m] == (if m < k {
                    old_v[m]
                } else if m == k {
                    old_v[i as int]
                } else if m <= i {
                    old_v[m - 1]
                } else {
                    old_v[m]
                }) by {
                    assert(v@ == old_v.remove(i as int).insert(k as int, p));
                }
                assert forall|m: int| 0 <= m < n implies #[trigger] perm[m] == (if m < k {
                    old_perm[m]
                } else if m == k {
                    old_perm[i as int]
                } else if m <= i {
                    old_perm[m - 1]
                } else {
                    old_perm[m]
                }) by {
                    assert(perm == old_perm.remove(i as int).insert(
                        k as int,
                        old_perm[i as int],
                    ));
                }
                assert(is_perm(perm, n as int));
                assert(date_lt(created_of(old_v[k as int]), created_of(old_v[i as int])));
                assert forall|a: int, b: int|
                    #![trigger v@[a], v@[b]]
                    0 <= a < b < i + 1 && b < n implies date_le(
                    created_of(v@[b]),
                    created_of(v@[a]),
                ) by {}
                assert forall|a: int, b: int|
                    #![trigger v@[a], v@[b]]
                    0 <= a < b < i + 1 && b < n && created_of(v@[a]) == created_of(v@[b]) implies
                    perm[a] < perm[b] by {}
                assert(forall|m: int| 0 <= m < i + 1 && m < n ==> 0 <= #[trigger] perm[m] < i + 1);
                assert(forall|m: int| i + 1 <= m < n ==> #[trigger] perm[m] == m);
            }
        }
        i += 1;
    }
    proof {
        assert(stable_desc_sort(v@, orig, perm));
    }
    v
}

/// The chronologically next document of position `k`.
pub open spec fn spec_newer(k: int) -> Option<usize> {
    if k == 0 {
        None
    } else {
        Some((k - 1) as usize)
    }
}

/// The chronologically previous document of position `k` out of `n`.
pub open spec fn spec_older(k: int, n: int) -> Option<usize> {
    if k + 1 < n {
        Some((k + 1) as usize)
    } else {
        None
    }
}

/// `p` with its two neighbor links replaced, all else unchanged.
pub open spec fn with_links(p: Post, newer: Option<usize>, older: Option<usize>) -> Post {
    Post {
        meta: crate::post::PostMeta {
            input_path: p.meta.input_path,
            slug: p.meta.slug,
            author: p.meta.author,
            title: p.meta.title,
            blurb: p.meta.blurb,
            created_date: p.meta.created_date,
            modified_date: p.meta.modified_date,
            draft: p.meta.draft,
            tags: p.meta.tags,
            newer_post: newer,
            older_post: older,
        },
        rendered_html: p.rendered_html,
    }
}

/// Set every document's neighbor links from its position: the newest
/// has no newer neighbor, the oldest no older one, and adjacent
/// documents point at each other.
fn link_posts(v: &mut Vec<Post>)
    ensures
        final(v)@.len() == old(v)@.len(),
        forall|k: int|
            0 <= k < old(v)@.len() ==> #[trigger] final(v)@[k] == with_links(
                old(v)@[k],
                spec_newer(k),
                spec_older(k, old(v)@.len() as int),
            ),
{
    let n = v.len();
    let mut k: usize = 0;
    while k < n
        invariant
            n == v@.len(),
            n == old(v)@.len(),
            k <= n,
            forall|m: int|
                0 <= m < k ==> #[trigger] v@[m] == with_links(
                    old(v)@[m],
                    spec_newer(m),
                    spec_older(m, n as int),
                ),
            forall|m: int| k <= m < n ==> #[trigger] v@[m] == old(v)@[m],
        decreases n - k,
    {
        let ghost prev = v@;
        let mut p = v.remove(k);
        if k == 0 {
            p.meta.newer_post = None;
        } else {
            p.meta.newer_post = Some(k - 1);
        }
        if k + 1 < n {
            p.meta.older_post = Some(k + 1);
        } else {
            p.meta.older_post = None;
        }
        v.insert(k, p);
        proof {
            prev.remove_ensures(k as int);
            prev.remove(k as int).insert_ensures(k as int, p);
            assert(p == with_links(prev[k as int], spec_newer(k as int), spec_older(k as int, n as int)));
            assert forall|m: int| 0 <= m < n implies #[trigger] v@[m] == (if m == k {
                p
            } else {
                prev[m]
            }) by {
                assert(v@ == prev.remove(k as int).insert(k as int, p));
            }
        }
        k += 1;
    }
}

/// `out` is `inp` stably sorted by descending date, with the neighbor
/// links of each position filled in; `perm` maps output positions to
/// input positions.
pub open spec fn arranged(out: Seq<Post>, inp: Seq<Post>, perm: Seq<int>) -> bool {
    &&& is_perm(perm, inp.len() as int)
    &&& out.len() == inp.len()
    &&& forall|k: int|
        0 <= k < out.len() ==> #[trigger] out[k] == with_links(
            inp[perm[k]],
            spec_newer(k),
            spec_older(k, out.len() as int),
        )
    &&& forall|a: int, b: int|
        #![trigger out[a], out[b]]
        0 <= a < b < out.len() ==> date_le(created_of(out[b]), created_of(out[a]))
    &&& forall|a: int, b: int|
        #![trigger out[a], out[b]]
        0 <= a < b < out.len() && created_of(out[a]) == created_of(out[b]) ==> perm[a] < perm[b]
}

/// Two documents somewhere in `s` share a slug.
pub open spec fn has_dup_slug(s: Seq<Post>) -> bool {
    exists|a: int, b: int|
        #![trigger s[a], s[b]]
        0 <= a < b < s.len() && s[a].meta.slug@ == s[b].meta.slug@
}

/// No two documents in `s` share a slug.
pub open spec fn no_dup_slugs(s: Seq<Post>) -> bool {
    forall|a: int, b: int|
        #![trigger s[a], s[b]]
        0 <= a < b < s.len() ==> s[a].meta.slug@ != s[b].meta.slug@
}

/// The least index in `s` whose slug is `slug`, or the length.
pub open spec fn find_slug(s: Seq<Post>, slug: Seq<char>) -> nat
    decreases s.len(),
{
    if s.len() == 0 {
        0
    } else if s[0].meta.slug@ == slug {
        0
    } else {
        1 + find_slug(s.drop_first(), slug)
    }
}

/// Characterization of [`find_slug`]: the least index with that slug.
pub proof fn lemma_find_slug(s: Seq<Post>, slug: Seq<char>)
    ensures
        find_slug(s, slug) <= s.len(),
        forall|j: int| 0 <= j < find_slug(s, slug) ==> (#[trigger] s[j]).meta.slug@ != slug,
        find_slug(s, slug) < s.len() ==> s[find_slug(s, slug) as int].meta.slug@ == slug,
    decreases s.len(),
{
    if s.len() > 0 && s[0].meta.slug@ != slug {
        lemma_find_slug(s.drop_first(), slug);
        assert(forall|j: int| 1 <= j < find_slug(s, slug) ==> s[j] == s.drop_first()[j - 1]);
    }
}

/// [`find_slug`] is pinned down by its characterization.
pub proof fn lemma_find_slug_is(s: Seq<Post>, slug: Seq<char>, i: int)
    requires
        0 <= i <= s.len(),
        forall|j: int| 0 <= j < i ==> (#[trigger] s[j]).meta.slug@ != slug,
        i < s.len() ==> s[i].meta.slug@ == slug,
    ensures
        find_slug(s, slug) == i,
{
    lemma_find_slug(s, slug);
}

/// The first slug collision in the order the builder walks `s`: the
/// pair `(i, j)` with the least conflicting `j`, and for that `j` the
/// first earlier document `i` with the same slug.
pub open spec fn first_conflict(s: Seq<Post>) -> Option<(int, int)>
    decreases s.len(),
{
    if s.len() == 0 {
        None
    } else {
        match first_conflict(s.drop_last()) {
            Some(c) => Some(c),
            None => {
                let j = s.len() - 1;
                let i = find_slug(s.drop_last(), s.last().meta.slug@);
                if i < j {
                    Some((i as int, j as int))
                } else {
                    None
                }
            },
        }
    }
}

/// A conflict found in a prefix stays the first conflict of the whole.
pub proof fn lemma_conflict_extends(s: Seq<Post>, m: int)
    requires
        0 <= m <= s.len(),
        first_conflict(s.subrange(0, m)) is Some,
    ensures
        first_conflict(s) == first_conflict(s.subrange(0, m)),
    decreases s.len(),
{
    if m == s.len() {
        assert(s.subrange(0, m) =~= s);
    } else {
        assert(s.drop_last().subrange(0, m) =~= s.subrange(0, m));
        lemma_conflict_extends(s.drop_last(), m);
    }
}

/// The tag occurrences of one document: one `(tag text, position)`
/// pair per listed tag, in listing order.
pub open spec fn occs_of_post(p: Post, idx: usize) -> Seq<(Seq<char>, usize)> {
    Seq::new(p.meta.tags@.len(), |j: int| (p.meta.tags@[j]@, idx))
}

/// All tag occurrences of a document sequence, in document order.
pub open spec fn occs(posts: Seq<Post>) -> Seq<(Seq<char>, usize)>
    decreases posts.len(),
{
    if posts.len() == 0 {
        Seq::empty()
    } else {
        occs(posts.drop_last()) + occs_of_post(posts.last(), (posts.len() - 1) as usize)
    }
}

/// The distinct elements of `keys` in order of first occurrence.
pub open spec fn dedup(keys: Seq<Seq<char>>) -> Seq<Seq<char>>
    decreases keys.len(),
{
    if keys.len() == 0 {
        Seq::empty()
    } else {
        let pre = dedup(keys.drop_last());
        if pre.contains(keys.last()) {
            pre
        } else {
            pre.push(keys.last())
        }
    }
}

/// The tag texts of the occurrences, with repetitions.
pub open spec fn occ_keys(os: Seq<(Seq<char>, usize)>) -> Seq<Seq<char>> {
    Seq::new(os.len(), |j: int| os[j].0)
}

/// The distinct tags among the occurrences, in order of first use.
pub open spec fn keys_of(os: Seq<(Seq<char>, usize)>) -> Seq<Seq<char>> {
    dedup(occ_keys(os))
}

/// The positions carrying tag `t`, in occurrence order, repetitions kept.
pub open spec fn occ_positions(os: Seq<(Seq<char>, usize)>, t: Seq<char>) -> Seq<usize>
    decreases os.len(),
{
    if os.len() == 0 {
        Seq::empty()
    } else {
        let pre = occ_positions(os.drop_last(), t);
        if os.last().0 == t {
            pre.push(os.last().1)
        } else {
            pre
        }
    }
}

/// The distinct tags of a document sequence, in order of first use.
pub open spec fn tag_keys(posts: Seq<Post>) -> Seq<Seq<char>> {
    keys_of(occs(posts))
}

/// The positions of the documents carrying tag `t`, in index order.
pub open spec fn tag_positions(posts: Seq<Post>, t: Seq<char>) -> Seq<usize> {
    occ_positions(occs(posts), t)
}

/// Membership in a pushed sequence.
pub proof fn lemma_push_contains<A>(s: Seq<A>, x: A, t: A)
    ensures
        s.push(x).contains(t) <==> (s.contains(t) || t == x),
{
    if s.push(x).contains(t) {
        let i = choose|i: int| 0 <= i < s.push(x).len() && s.push(x)[i] == t;
        if i < s.len() {
            assert(s[i] == t);
        }
    }
    if s.contains(t) {
        let i = choose|i: int| 0 <= i < s.len() && s[i] == t;
        assert(s.push(x)[i] == t);
    }
    assert(s.push(x)[s.len() as int] == x);
}

/// [`dedup`] keeps exactly the distinct elements, without repetition.
pub proof fn lemma_dedup_props(keys: Seq<Seq<char>>)
    ensures
        forall|k1: int, k2: int|
            #![trigger dedup(keys)[k1], dedup(keys)[k2]]
            0 <= k1 < k2 < dedup(keys).len() ==> dedup(keys)[k1] != dedup(keys)[k2],
        forall|t: Seq<char>| #[trigger] dedup(keys).contains(t) <==> keys.contains(t),
    decreases keys.len(),
{
    if keys.len() == 0 {
        assert forall|t: Seq<char>| #[trigger] dedup(keys).contains(t) <==> keys.contains(
            t,
        ) by {
            if keys.contains(t) {
                let i = choose|i: int| 0 <= i < keys.len() && keys[i] == t;
            }
            if dedup(keys).contains(t) {
                let i = choose|i: int| 0 <= i < dedup(keys).len() && dedup(keys)[i] == t;
            }
        }
    } else {
        let pre = keys.drop_last();
        let y = keys.last();
        lemma_dedup_props(pre);
        assert(keys =~= pre.push(y));
        assert forall|t: Seq<char>| #[trigger] dedup(keys).contains(t) <==> keys.contains(
            t,
        ) by {
            lemma_push_contains(pre, y, t);
            lemma_push_contains(dedup(pre), y, t);
        }
        if !dedup(pre).contains(y) {
            assert forall|k1: int, k2: int|
                #![trigger dedup(keys)[k1], dedup(keys)[k2]]
                0 <= k1 < k2 < dedup(keys).len() implies dedup(keys)[k1] != dedup(keys)[k2] by {
                if k2 < dedup(pre).len() {
                    assert(dedup(keys)[k1] == dedup(pre)[k1]);
                    assert(dedup(keys)[k2] == dedup(pre)[k2]);
                } else {
                    assert(dedup(keys)[k2] == y);
                    assert(dedup(keys)[k1] == dedup(pre)[k1]);
                    assert(dedup(pre).contains(dedup(pre)[k1]));
                }
            }
        }
    }
}

/// Pushing one occurrence extends the keys and position lists locally.
pub proof fn lemma_occ_push(os: Seq<(Seq<char>, usize)>, o: (Seq<char>, usize))
    ensures
        keys_of(os).contains(o.0) ==> keys_of(os.push(o)) == keys_of(os),
        !keys_of(os).contains(o.0) ==> keys_of(os.push(o)) == keys_of(os).push(o.0),
        forall|t: Seq<char>| t != o.0 ==> #[trigger] occ_positions(os.push(o), t) == occ_positions(
            os,
            t,
        ),
        occ_positions(os.push(o), o.0) == occ_positions(os, o.0).push(o.1),
{
    assert(occ_keys(os.push(o)) =~= occ_keys(os).push(o.0));
    assert(occ_keys(os.push(o)).drop_last() =~= occ_keys(os));
    assert(occ_keys(os.push(o)).last() == o.0);
    assert forall|t: Seq<char>| t != o.0 implies #[trigger] occ_positions(os.push(o), t)
        == occ_positions(os, t) by {
        assert(os.push(o).drop_last() =~= os);
    }
    assert(os.push(o).drop_last() =~= os);
}

/// Every occurrence position is a valid document position.
pub proof fn lemma_occs_bounded(posts: Seq<Post>)
    ensures
        forall|j: int|
            0 <= j < occs(posts).len() ==> (#[trigger] occs(posts)[j]).1 < posts.len(),
    decreases posts.len(),
{
    if posts.len() > 0 {
        lemma_occs_bounded(posts.drop_last());
        let pre = occs(posts.drop_last());
        let app = occs_of_post(posts.last(), (posts.len() - 1) as usize);
        assert forall|j: int| 0 <= j < occs(posts).len() implies (#[trigger] occs(posts)[j]).1
            < posts.len() by {
            if j < pre.len() {
                assert(occs(posts)[j] == pre[j]);
            } else {
                assert(occs(posts)[j] == app[j - pre.len()]);
            }
        }
    }
}

/// Position lists inherit any bound on the occurrence positions.
pub proof fn lemma_positions_bounded(os: Seq<(Seq<char>, usize)>, t: Seq<char>, bound: int)
    requires
        forall|j: int| 0 <= j < os.len() ==> (#[trigger] os[j]).1 < bound,
    ensures
        forall|m: int|
            0 <= m < occ_positions(os, t).len() ==> (#[trigger] occ_positions(os, t)[m]) < bound,
    decreases os.len(),
{
    if os.len() > 0 {
        assert(forall|j: int|
            0 <= j < os.drop_last().len() ==> (#[trigger] os.drop_last()[j]).1 < bound);
        lemma_positions_bounded(os.drop_last(), t, bound);
        let pre = occ_positions(os.drop_last(), t);
        assert forall|m: int| 0 <= m < occ_positions(os, t).len() implies (#[trigger] occ_positions(
            os,
            t,
        )[m]) < bound by {
            if m < pre.len() {
                assert(occ_positions(os, t)[m] == pre[m]);
            } else {
                assert(occ_positions(os, t)[m] == os.last().1);
            }
        }
    }
}

/// A tag that occurs has a nonempty position list.
pub proof fn lemma_positions_nonempty(os: Seq<(Seq<char>, usize)>, t: Seq<char>)
    requires
        occ_keys(os).contains(t),
    ensures
        occ_positions(os, t).len() > 0,
    decreases os.len(),
{
    if os.len() > 0 {
        if os.last().0 != t {
            let i = choose|i: int| 0 <= i < occ_keys(os).len() && occ_keys(os)[i] == t;
            assert(occ_keys(os.drop_last())[i] == t);
            lemma_positions_nonempty(os.drop_last(), t);
        }
    }
}

/// A tag that never occurs has an empty position list.
pub proof fn lemma_positions_empty(os: Seq<(Seq<char>, usize)>, t: Seq<char>)
    requires
        forall|j: int| 0 <= j < os.len() ==> (#[trigger] os[j]).0 != t,
    ensures
        occ_positions(os, t).len() == 0,
    decreases os.len(),
{
    if os.len() > 0 {
        lemma_positions_empty(os.drop_last(), t);
    }
}

/// A sequence without a first conflict has no duplicate slugs at all.
pub proof fn lemma_no_conflict_no_dup(s: Seq<Post>)
    requires
        first_conflict(s) is None,
    ensures
        no_dup_slugs(s),
    decreases s.len(),
{
    if s.len() > 0 {
        lemma_no_conflict_no_dup(s.drop_last());
        lemma_find_slug(s.drop_last(), s.last().meta.slug@);
        assert forall|a: int, b: int|
            #![trigger s[a], s[b]]
            0 <= a < b < s.len() implies s[a].meta.slug@ != s[b].meta.slug@ by {
            if b < s.len() - 1 {
                assert(s.drop_last()[a] == s[a] && s.drop_last()[b] == s[b]);
            } else {
                assert(s.drop_last()[a] == s[a]);
                assert(find_slug(s.drop_last(), s.last().meta.slug@) >= s.len() - 1);
            }
        }
    }
}

/// An injective map of `0 .. n` into `0 .. n` hits every value.
pub proof fn lemma_perm_onto(perm: Seq<int>, n: int, x: int)
    requires
        is_perm(perm, n),
        0 <= x < n,
    ensures
        exists|k: int| 0 <= k < n && #[trigger] perm[k] == x,
{
    broadcast use vstd::seq_lib::seq_to_set_is_finite;

    assert(perm.no_duplicates());
    perm.unique_seq_to_set();
    let s = perm.to_set();
    vstd::set_lib::lemma_int_range(0, n);
    assert forall|y: int| s.contains(y) implies vstd::set_lib::set_int_range(0, n).contains(
        y,
    ) by {
        assert(perm.contains(y));
        let i = choose|i: int| 0 <= i < perm.len() && perm[i] == y;
    }
    vstd::set_lib::lemma_subset_equality(s, vstd::set_lib::set_int_range(0, n));
    assert(s.contains(x));
    assert(perm.contains(x));
    let k = choose|k: int| 0 <= k < perm.len() && perm[k] == x;
    assert(0 <= k < n && perm[k] == x);
}

/// The collection: documents newest first, with slug and tag indices.
/// Both index vectors hold positions into `all_posts`.
#[derive(Debug)]
pub struct PostDb {
    pub all_posts: Vec<Post>,
    pub posts_by_slug: Vec<(String, usize)>,
    pub posts_by_tag: Vec<(Tag, Vec<usize>)>,
}

/// The slug index lists each document's slug with its position.
pub open spec fn slug_index_ok(db: PostDb) -> bool {
    &&& db.posts_by_slug@.len() == db.all_posts@.len()
    &&& forall|k: int|
        0 <= k < db.posts_by_slug@.len() ==> (#[trigger] db.posts_by_slug@[k]).1 as int == k
            && db.posts_by_slug@[k].0@ == db.all_posts@[k].meta.slug@
}

/// The tag entries list exactly the distinct tags of the occurrences,
/// in first-use order, each with its full position list.
pub open spec fn tag_entries_match(
    entries: Seq<(Tag, Vec<usize>)>,
    os: Seq<(Seq<char>, usize)>,
) -> bool {
    &&& entries.len() == keys_of(os).len()
    &&& forall|k: int|
        0 <= k < entries.len() ==> (#[trigger] entries[k]).0@ == keys_of(os)[k] && entries[k].1@
            == occ_positions(os, keys_of(os)[k])
}

/// The tag index describes the documents' tags exactly.
pub open spec fn tag_index_ok(db: PostDb) -> bool {
    tag_entries_match(db.posts_by_tag@, occs(db.all_posts@))
}

impl PostDb {
    /// Internal consistency relied on by the query surface: correct
    /// indices, unique slugs, distinct tag keys each naming at least
    /// one valid position, and in-range neighbor links.
    pub open spec fn wf(self) -> bool {
        let n = self.all_posts@.len() as int;
        &&& slug_index_ok(self)
        &&& no_dup_slugs(self.all_posts@)
        &&& tag_index_ok(self)
        &&& forall|k: int|
            0 <= k < self.posts_by_tag@.len() ==> (#[trigger] self.posts_by_tag@[k]).1@.len() > 0
        &&& forall|k: int, m: int|
            #![trigger self.posts_by_tag@[k].1@[m]]
            0 <= k < self.posts_by_tag@.len() && 0 <= m < self.posts_by_tag@[k].1@.len() ==> (
            self.posts_by_tag@[k].1@[m] as int) < n
        &&& forall|k1: int, k2: int|
            #![trigger self.posts_by_tag@[k1], self.posts_by_tag@[k2]]
            0 <= k1 < k2 < self.posts_by_tag@.len() ==> self.posts_by_tag@[k1].0@
                != self.posts_by_tag@[k2].0@
        &&& forall|k: int|
            0 <= k < n ==> ((#[trigger] self.all_posts@[k]).meta.newer_post matches Some(x) ==> (
            x as int) < n) && (self.all_posts@[k].meta.older_post matches Some(x) ==> (x as int)
                < n)
    }
}

/// How a duplicate-slug error relates to the input: the arrangement `s`
/// of the input has its first conflict at the pair the error names.
pub open spec fn err_witness(e: PostError, inp: Seq<Post>, s: Seq<Post>, perm: Seq<int>) -> bool {
    &&& arranged(s, inp, perm)
    &&& first_conflict(s) is Some
    &&& {
        let c = first_conflict(s).unwrap();
        &&& 0 <= c.0 < c.1 < s.len()
        &&& s[c.0].meta.slug@ == s[c.1].meta.slug@
        &&& e matches PostError::DuplicateSlug { slug, path_a, path_b } && slug@
            == s[c.1].meta.slug@ && path_a@ == s[c.0].meta.input_path@ && path_b@
            == s[c.1].meta.input_path@
    }
}

/// A successful build: a well-formed collection that arranges the
/// input, which had no duplicate slugs.
pub open spec fn built_ok(db: PostDb, inp: Seq<Post>) -> bool {
    &&& db.wf()
    &&& exists|perm: Seq<int>| arranged(db.all_posts@, inp, perm)
    &&& !has_dup_slug(inp)
}

/// A failed build: the input had duplicate slugs, and the error names
/// the first collision of some arrangement of the input.
pub open spec fn built_err(e: PostError, inp: Seq<Post>) -> bool {
    &&& has_dup_slug(inp)
    &&& exists|s: Seq<Post>, perm: Seq<int>| err_witness(e, inp, s, perm)
}

impl PostDb {
    /// Build the collection: stably sort by descending creation date,
    /// link chronological neighbors, then walk once more indexing by
    /// slug and by tag. The first duplicate slug aborts the whole
    /// build; no collection is returned.
    #[verifier::loop_isolation(false)]
    #[verifier::rlimit(50)]
    pub fn build(posts: Vec<Post>) -> (r: Result<PostDb, PostError>)
        ensures
            match r {
                Ok(db) => built_ok(db, posts@),
                Err(e) => built_err(e, posts@),
            },
    {
        let ghost inp = posts@;
        let mut v = sort_posts(posts);
        let ghost perm = choose|perm: Seq<int>| stable_desc_sort(v@, inp, perm);
        let ghost sorted = v@;
        link_posts(&mut v);
        let ghost sv = v@;
        proof {
            assert forall|k: int| 0 <= k < sv.len() implies #[trigger] sv[k] == with_links(
                inp[perm[k]],
                spec_newer(k),
                spec_older(k, sv.len() as int),
            ) by {
                assert(sv[k] == with_links(
                    sorted[k],
                    spec_newer(k),
                    spec_older(k, sorted.len() as int),
                ));
            }
            assert forall|a: int, b: int|
                #![trigger sv[a], sv[b]]
                0 <= a < b < sv.len() implies date_le(created_of(sv[b]), created_of(sv[a])) && (
            created_of(sv[a]) == created_of(sv[b]) ==> perm[a] < perm[b]) by {
                assert(sv[a] == with_links(
                    sorted[a],
                    spec_newer(a),
                    spec_older(a, sorted.len() as int),
                ));
                assert(sv[b] == with_links(
                    sorted[b],
                    spec_newer(b),
                    spec_older(b, sorted.len() as int),
                ));
                assert(created_of(sv[a]) == created_of(sorted[a]));
                assert(created_of(sv[b]) == created_of(sorted[b]));
            }
            assert(arranged(sv, inp, perm));
        }
        let n = v.len();
        let mut by_slug: Vec<(String, usize)> = Vec::new();
        let mut by_tag: Vec<(Tag, Vec<usize>)> = Vec::new();
        let mut idx: usize = 0;
        proof {
            assert(sv.subrange(0, 0) =~= Seq::<Post>::empty());
            assert(occs(sv.subrange(0, 0)) =~= Seq::<(Seq<char>, usize)>::empty());
            assert(occ_keys(occs(sv.subrange(0, 0))) =~= Seq::<Seq<char>>::empty());
        }
        while idx < n
            invariant
                idx <= n,
                sv == v@,
                by_slug@.len() == idx,
                forall|m: int|
                    0 <= m < idx ==> (#[trigger] by_slug@[m]).1 as int == m && by_slug@[m].0@
                        == sv[m].meta.slug@,
                first_conflict(sv.subrange(0, idx as int)) is None,
                tag_entries_match(by_tag@, occs(sv.subrange(0, idx as int))),
            decreases n - idx,
        {
            let ghost prefix = sv.subrange(0, idx as int);
            let mut f: usize = 0;
            let mut dup = false;
            while f < idx && !dup
                invariant
                    f <= idx,
                    !dup ==> forall|m: int|
                        0 <= m < f ==> (#[trigger] sv[m]).meta.slug@ != sv[idx as int].meta.slug@,
                    dup ==> f < idx && sv[f as int].meta.slug@ == sv[idx as int].meta.slug@
                        && forall|m: int|
                        0 <= m < f ==> (#[trigger] sv[m]).meta.slug@ != sv[idx as int].meta.slug@,
                decreases idx - f + (if dup {
                    0int
                } else {
                    1int
                }),
            {
                if str_eq(by_slug[f].0.as_str(), v[idx].meta.slug.as_str()) {
                    dup = true;
                } else {
                    f += 1;
                }
            }
            if dup {
                let e = PostError::DuplicateSlug {
                    slug: v[idx].meta.slug.clone(),
                    path_a: v[f].meta.input_path.clone(),
                    path_b: v[idx].meta.input_path.clone(),
                };
                proof {
                    assert(forall|j: int| 0 <= j < idx ==> prefix[j] == sv[j]);
                    lemma_find_slug_is(prefix, sv[idx as int].meta.slug@, f as int);
                    let pfx1 = sv.subrange(0, idx as int + 1);
                    assert(pfx1.drop_last() =~= prefix);
                    assert(pfx1.last() == sv[idx as int]);
                    assert(first_conflict(pfx1) == Some((f as int, idx as int)));
                    lemma_conflict_extends(sv, idx as int + 1);
                    assert(first_conflict(sv) == Some((f as int, idx as int)));
                    let pa = perm[f as int];
                    let pb = perm[idx as int];
                    assert(sv[f as int].meta.slug@ == inp[pa].meta.slug@);
                    assert(sv[idx as int].meta.slug@ == inp[pb].meta.slug@);
                    if pa < pb {
                        assert(inp[pa].meta.slug@ == inp[pb].meta.slug@);
                    } else {
                        assert(inp[pb].meta.slug@ == inp[pa].meta.slug@);
                    }
                    assert(has_dup_slug(inp));
                    assert(err_witness(e, inp, sv, perm));
                    assert(built_err(e, posts@));
                }
                return Err(e);
            }
            by_slug.push((v[idx].meta.slug.clone(), idx));
            proof {
                assert(forall|j: int| 0 <= j < idx ==> prefix[j] == sv[j]);
                lemma_find_slug_is(prefix, sv[idx as int].meta.slug@, idx as int);
                let pfx1 = sv.subrange(0, idx as int + 1);
                assert(pfx1.drop_last() =~= prefix);
                assert(pfx1.last() == sv[idx as int]);
                assert(first_conflict(pfx1) is None);
            }
            let ghost base = occs(prefix);
            let tcount = v[idx].meta.tags.len();
            let mut ti: usize = 0;
            proof {
                assert(occs_of_post(sv[idx as int], idx).subrange(0, 0) =~= Seq::<
                    (Seq<char>, usize),
                >::empty());
                assert(base + occs_of_post(sv[idx as int], idx).subrange(0, 0) =~= base);
            }
            while ti < tcount
                invariant
                    ti <= tcount,
                    tag_entries_match(
                        by_tag@,
                        base + occs_of_post(sv[idx as int], idx).subrange(0, ti as int),
                    ),
                decreases tcount - ti,
            {
                let ghost o = (sv[idx as int].meta.tags@[ti as int]@, idx);
                let ghost cur = base + occs_of_post(sv[idx as int], idx).subrange(0, ti as int);
                let mut g: usize = 0;
                let mut found = false;
                while g < by_tag.len() && !found
                    invariant
                        g <= by_tag@.len(),
                        !found ==> forall|m: int|
                            0 <= m < g ==> (#[trigger] by_tag@[m]).0@ != o.0,
                        found ==> g < by_tag@.len() && by_tag@[g as int].0@ == o.0,
                    decreases by_tag@.len() - g + (if found {
                        0int
                    } else {
                        1int
                    }),
                {
                    if str_eq(by_tag[g].0.0.as_str(), v[idx].meta.tags[ti].0.as_str()) {
                        found = true;
                    } else {
                        g += 1;
                    }
                }
                proof {
                    lemma_dedup_props(occ_keys(cur));
                    lemma_occ_push(cur, o);
                }
                let ghost prev_bt = by_tag@;
                if found {
                    let mut entry = by_tag.remove(g);
                    entry.1.push(idx);
                    by_tag.insert(g, entry);
                    proof {
                        prev_bt.remove_ensures(g as int);
                        prev_bt.remove(g as int).insert_ensures(
                            g as int,
                            by_tag@[g as int],
                        );
                        assert(keys_of(cur).contains(o.0));
                        assert(keys_of(cur.push(o)) == keys_of(cur));
                        assert forall|k: int| 0 <= k < by_tag@.len() implies (#[trigger] by_tag@[k]).0@
                            == keys_of(cur.push(o))[k] && by_tag@[k].1@ == occ_positions(
                            cur.push(o),
                            keys_of(cur.push(o))[k],
                        ) by {
                            if k != g {
                                assert(by_tag@[k] == prev_bt[k]);
                                assert(keys_of(cur)[k] != keys_of(cur)[g as int]);
                            } else {
                                assert(by_tag@[k].1@ == prev_bt[g as int].1@.push(idx));
                            }
                        }
                        assert(tag_entries_match(by_tag@, cur.push(o)));
                    }
                } else {
                    let mut ids: Vec<usize> = Vec::new();
                    ids.push(idx);
                    by_tag.push((v[idx].meta.tags[ti].clone(), ids));
                    proof {
                        assert forall|k: int| 0 <= k < keys_of(cur).len() implies keys_of(
                            cur,
                        )[k] != o.0 by {
                            assert(prev_bt[k].0@ == keys_of(cur)[k]);
                        }
                        if keys_of(cur).contains(o.0) {
                            let i0 = choose|i0: int|
                                0 <= i0 < keys_of(cur).len() && keys_of(cur)[i0] == o.0;
                            assert(false);
                        }
                        assert(keys_of(cur.push(o)) == keys_of(cur).push(o.0));
                        assert forall|j: int| 0 <= j < cur.len() implies (#[trigger] cur[j]).0
                            != o.0 by {
                            assert(occ_keys(cur)[j] == cur[j].0);
                            if cur[j].0 == o.0 {
                                assert(occ_keys(cur).contains(o.0));
                                assert(keys_of(cur).contains(o.0));
                            }
                        }
                        lemma_positions_empty(cur, o.0);
                        assert(occ_positions(cur.push(o), o.0) =~= seq![idx]);
                        assert forall|k: int| 0 <= k < by_tag@.len() implies (#[trigger] by_tag@[k]).0@
                            == keys_of(cur.push(o))[k] && by_tag@[k].1@ == occ_positions(
                            cur.push(o),
                            keys_of(cur.push(o))[k],
                        ) by {
                            if k < prev_bt.len() {
                                assert(by_tag@[k] == prev_bt[k]);
                            } else {
                                assert(by_tag@[k].0@ == o.0);
                            }
                        }
                        assert(tag_entries_match(by_tag@, cur.push(o)));
                    }
                }
                proof {
                    let op = occs_of_post(sv[idx as int], idx);
                    assert(op.subrange(0, ti as int + 1) =~= op.subrange(0, ti as int).push(o));
                    assert(base + op.subrange(0, ti as int + 1) =~= cur.push(o));
                }
                ti += 1;
            }
            proof {
                let pfx1 = sv.subrange(0, idx as int + 1);
                assert(pfx1.drop_last() =~= prefix);
                assert(pfx1.last() == sv[idx as int]);
                let op = occs_of_post(sv[idx as int], idx);
                assert(occs(pfx1) == occs(prefix) + occs_of_post(
                    pfx1.last(),
                    (pfx1.len() - 1) as usize,
                ));
                assert(op.subrange(0, tcount as int) =~= op);
            }
            idx += 1;
        }
        proof {
            assert(sv.subrange(0, n as int) =~= sv);
        }
        let db = PostDb { all_posts: v, posts_by_slug: by_slug, posts_by_tag: by_tag };
        proof {
            lemma_no_conflict_no_dup(sv);
            let os_all = occs(sv);
            lemma_dedup_props(occ_keys(os_all));
            lemma_occs_bounded(sv);
            lemma_positions_bounded(os_all, Seq::empty(), n as int);
            assert forall|k: int| 0 <= k < db.posts_by_tag@.len() implies (
            #[trigger] db.posts_by_tag@[k]).1@.len() > 0 by {
                assert(db.posts_by_tag@[k].1@ == occ_positions(os_all, keys_of(os_all)[k]));
                assert(keys_of(os_all).contains(keys_of(os_all)[k]));
                assert(occ_keys(os_all).contains(keys_of(os_all)[k]));
                lemma_positions_nonempty(os_all, keys_of(os_all)[k]);
            }
            assert forall|k: int, m: int|
                #![trigger db.posts_by_tag@[k].1@[m]]
                0 <= k < db.posts_by_tag@.len() && 0 <= m < db.posts_by_tag@[k].1@.len() implies (
            db.posts_by_tag@[k].1@[m] as int) < n as int by {
                lemma_positions_bounded(os_all, keys_of(os_all)[k], n as int);
                assert(db.posts_by_tag@[k].1@ == occ_positions(os_all, keys_of(os_all)[k]));
            }
            assert forall|k: int| 0 <= k < n as int implies ((
            #[trigger] db.all_posts@[k]).meta.newer_post matches Some(x) ==> (x as int)
                < n as int) && (db.all_posts@[k].meta.older_post matches Some(x) ==> (x as int)
                < n as int) by {
                assert(sv[k] == with_links(inp[perm[k]], spec_newer(k), spec_older(k, n as int)));
            }
            assert(db.wf());
            if has_dup_slug(inp) {
                let (a, b) = choose|a: int, b: int|
                    0 <= a < b < inp.len() && (#[trigger] inp[a]).meta.slug@ == (
                    #[trigger] inp[b]).meta.slug@;
                lemma_perm_onto(perm, n as int, a);
                lemma_perm_onto(perm, n as int, b);
                let k1 = choose|k: int| 0 <= k < n as int && #[trigger] perm[k] == a;
                let k2 = choose|k: int| 0 <= k < n as int && #[trigger] perm[k] == b;
                assert(sv[k1] == with_links(inp[a], spec_newer(k1), spec_older(k1, n as int)));
                assert(sv[k2] == with_links(inp[b], spec_newer(k2), spec_older(k2, n as int)));
                assert(sv[k1].meta.slug@ == sv[k2].meta.slug@);
                assert(k1 != k2);
                if k1 < k2 {
                    assert(sv[k1].meta.slug@ != sv[k2].meta.slug@);
                } else {
                    assert(sv[k2].meta.slug@ != sv[k1].meta.slug@);
                }
                assert(false);
            }
            assert(arranged(db.all_posts@, inp, perm));
            assert(exists|p2: Seq<int>| arranged(db.all_posts@, inp, p2));
            assert(!has_dup_slug(inp));
            assert(built_ok(db, posts@));
        }
        Ok(db)
    }
}

impl PostDb {
    /// Bounds-checked lookup by position: the document at `id`, or
    /// nothing for an out-of-range position, never a failure.
    pub fn get_by_id(&self, id: usize) -> (r: Option<&Post>)
        ensures
            match r {
                Some(p) => id < self.all_posts@.len() && *p == self.all_posts@[id as int],
                None => id >= self.all_posts@.len(),
            },
    {
        if id < self.all_posts.len() {
            Some(&self.all_posts[id])
        } else {
            None
        }
    }

    /// Every tag in the index, in first-use order; by construction each
    /// has at least one document.
    pub fn tags(&self) -> (r: Vec<&Tag>)
        ensures
            r@.len() == self.posts_by_tag@.len(),
            forall|k: int| 0 <= k < r@.len() ==> *(#[trigger] r@[k]) == self.posts_by_tag@[k].0,
    {
        let mut r: Vec<&Tag> = Vec::new();
        let mut k: usize = 0;
        while k < self.posts_by_tag.len()
            invariant
                k <= self.posts_by_tag@.len(),
                r@.len() == k,
                forall|m: int| 0 <= m < k ==> *(#[trigger] r@[m]) == self.posts_by_tag@[m].0,
            decreases self.posts_by_tag@.len() - k,
        {
            r.push(&self.posts_by_tag[k].0);
            k += 1;
        }
        r
    }

    /// The documents carrying `tag`, in position order; an empty vector
    /// for a tag the index does not know, never a failure.
    #[verifier::loop_isolation(false)]
    pub fn get_by_tag(&self, tag: &Tag) -> (r: Vec<&Post>)
        requires
            self.wf(),
        ensures
            forall|k: int|
                0 <= k < self.posts_by_tag@.len() && (#[trigger] self.posts_by_tag@[k]).0@ == tag@
                    ==> r@.len() == self.posts_by_tag@[k].1@.len() && (forall|m: int|
                    0 <= m < r@.len() ==> *(#[trigger] r@[m]) == self.all_posts@[self.posts_by_tag@[k].1@[m] as int]),
            (forall|k: int|
                0 <= k < self.posts_by_tag@.len() ==> (#[trigger] self.posts_by_tag@[k]).0@
                    != tag@) ==> r@.len() == 0,
    {
        let mut g: usize = 0;
        let mut found = false;
        while g < self.posts_by_tag.len() && !found
            invariant
                g <= self.posts_by_tag@.len(),
                !found ==> forall|m: int|
                    0 <= m < g ==> (#[trigger] self.posts_by_tag@[m]).0@ != tag@,
                found ==> g < self.posts_by_tag@.len() && self.posts_by_tag@[g as int].0@ == tag@,
            decreases self.posts_by_tag@.len() - g + (if found {
                0int
            } else {
                1int
            }),
        {
            if str_eq(self.posts_by_tag[g].0.0.as_str(), tag.0.as_str()) {
                found = true;
            } else {
                g += 1;
            }
        }
        let mut r: Vec<&Post> = Vec::new();
        if found {
            let ids: &Vec<usize> = &self.posts_by_tag[g].1;
            let mut m: usize = 0;
            while m < ids.len()
                invariant
                    m <= ids@.len(),
                    r@.len() == m,
                    forall|j: int|
                        0 <= j < m ==> *(#[trigger] r@[j]) == self.all_posts@[ids@[j] as int],
                decreases ids@.len() - m,
            {
                let id = ids[m];
                r.push(&self.all_posts[id]);
                m += 1;
            }
            proof {
                assert forall|k: int|
                    0 <= k < self.posts_by_tag@.len() && (#[trigger] self.posts_by_tag@[k]).0@
                        == tag@ implies r@.len() == self.posts_by_tag@[k].1@.len() && (forall|j: int|
                    0 <= j < r@.len() ==> *(#[trigger] r@[j])
                        == self.all_posts@[self.posts_by_tag@[k].1@[j] as int]) by {
                    if k < g {
                        assert(self.posts_by_tag@[k].0@ != tag@);
                    }
                    if k > g {
                        assert(self.posts_by_tag@[g as int].0@ != self.posts_by_tag@[k].0@);
                    }
                    assert(k == g);
                }
            }
        }
        r
    }
}

/// The positions the landing page lists, computed over the first
/// `upto` documents: positions of non-draft documents in collection
/// order, stopping once `limit` are found.
pub open spec fn front_ids(s: Seq<Post>, upto: int, limit: int) -> Seq<usize>
    decreases upto,
{
    if upto <= 0 {
        Seq::empty()
    } else {
        let pre = front_ids(s, upto - 1, limit);
        if !s[upto - 1].meta.draft && pre.len() < limit {
            pre.push((upto - 1) as usize)
        } else {
            pre
        }
    }
}

impl PostDb {
    /// Positions of the newest documents that are not drafts, at most
    /// `limit` of them, in collection order.
    pub fn front_posts(&self, limit: usize) -> (r: Vec<usize>)
        ensures
            r@ == front_ids(self.all_posts@, self.all_posts@.len() as int, limit as int),
    {
        let mut r: Vec<usize> = Vec::new();
        let mut k: usize = 0;
        proof {
            assert(r@ =~= front_ids(self.all_posts@, 0, limit as int));
        }
        while k < self.all_posts.len()
            invariant
                k <= self.all_posts@.len(),
                r@ == front_ids(self.all_posts@, k as int, limit as int),
                r@.len() <= limit,
            decreases self.all_posts@.len() - k,
        {
            if !self.all_posts[k].meta.draft && r.len() < limit {
                r.push(k);
            }
            k += 1;
        }
        r
    }
}

/// Law: a well-formed collection lists a tag only with at least one
/// document, and the tag's entry holds exactly the positions of the
/// documents carrying it, in collection order.
pub proof fn lemma_tags_have_documents(db: PostDb, k: int)
    requires
        db.wf(),
        0 <= k < db.posts_by_tag@.len(),
    ensures
        db.posts_by_tag@[k].1@.len() > 0,
        db.posts_by_tag@[k].1@ == tag_positions(db.all_posts@, db.posts_by_tag@[k].0@),
{
}

/// Law: what a successful build promises of the ordering. Every
/// document's neighbor links follow from its position alone, and when
/// all creation dates are distinct the collection is sorted strictly
/// descending.
pub proof fn lemma_build_ordering(out: Seq<Post>, inp: Seq<Post>, perm: Seq<int>)
    requires
        arranged(out, inp, perm),
    ensures
        forall|k: int|
            0 <= k < out.len() ==> (#[trigger] out[k]).meta.newer_post == spec_newer(k)
                && out[k].meta.older_post == spec_older(k, out.len() as int),
        (forall|a: int, b: int|
            #![trigger inp[a], inp[b]]
            0 <= a < b < inp.len() ==> created_of(inp[a]) != created_of(inp[b])) ==> (forall|
            a: int,
            b: int,
        |
            #![trigger out[a], out[b]]
            0 <= a < b < out.len() ==> date_lt(created_of(out[b]), created_of(out[a]))),
{
    assert forall|k: int| 0 <= k < out.len() implies (#[trigger] out[k]).meta.newer_post
        == spec_newer(k) && out[k].meta.older_post == spec_older(k, out.len() as int) by {
        assert(out[k] == with_links(inp[perm[k]], spec_newer(k), spec_older(k, out.len() as int)));
    }
    if forall|a: int, b: int|
        #![trigger inp[a], inp[b]]
        0 <= a < b < inp.len() ==> created_of(inp[a]) != created_of(inp[b]) {
        assert forall|a: int, b: int|
            #![trigger out[a], out[b]]
            0 <= a < b < out.len() implies date_lt(created_of(out[b]), created_of(out[a])) by {
            assert(out[a] == with_links(
                inp[perm[a]],
                spec_newer(a),
                spec_older(a, out.len() as int),
            ));
            assert(out[b] == with_links(
                inp[perm[b]],
                spec_newer(b),
                spec_older(b, out.len() as int),
            ));
            if created_of(out[a]) == created_of(out[b]) {
                let pa = perm[a];
                let pb = perm[b];
                assert(created_of(inp[pa]) == created_of(inp[pb]));
                assert(pa < pb);
                assert(created_of(inp[pa]) != created_of(inp[pb]));
            }
        }
    }
}

} // verus!
