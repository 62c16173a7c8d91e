//! The `list` command: the symlinks found are shown sorted by their source,
//! and each distinct link once.

use crate::commands::link::links_view;
use crate::paths::{
    comps_order, comps_view, components, components_order, lemma_comps_order_antisym, lemma_comps_order_trans,
    path_components, path_eq, Comp, Component,
};
use vstd::prelude::*;

verus! {

/// The key a link is sorted by: the components of its source.
pub open spec fn source_key(l: (Seq<char>, Seq<char>)) -> Seq<Comp> {
    components(l.0)
}

/// `perm` puts `links` in the order of a stable sort by source: it holds each
/// position once, sorts by source, and keeps links with the same source in
/// their given order.
pub open spec fn is_stable_sort(links: Seq<(Seq<char>, Seq<char>)>, perm: Seq<int>) -> bool {
    &&& perm.len() == links.len()
    &&& forall|i: int| 0 <= i < perm.len() ==> 0 <= #[trigger] perm[i] < links.len()
    &&& forall|i: int, j: int| 0 <= i < j < perm.len() ==> perm[i] != perm[j]
    &&& forall|i: int, j: int|
        0 <= i < j < perm.len() ==> comps_order(source_key(links[perm[i]]), source_key(links[perm[j]])) <= 0
    &&& forall|i: int, j: int|
        0 <= i < j < perm.len() && comps_order(source_key(links[perm[i]]), source_key(links[perm[j]])) == 0
            ==> perm[i] < perm[j]
}

/// Two links are the same when their sources and their destinations are the
/// same paths.
pub open spec fn same_link(a: (Seq<char>, Seq<char>), b: (Seq<char>, Seq<char>)) -> bool {
    components(a.0) == components(b.0) && components(a.1) == components(b.1)
}

/// `Vec::dedup` by `same_link`: a link that is the same as the last one kept
/// is dropped.
pub open spec fn dedup_links(s: Seq<(Seq<char>, Seq<char>)>) -> Seq<(Seq<char>, Seq<char>)>
    decreases s.len(),
{
    if s.len() == 0 {
        s
    } else {
        let d = dedup_links(s.drop_last());
        if d.len() > 0 && same_link(d.last(), s.last()) {
            d
        } else {
            d.push(s.last())
        }
    }
}

/// `links` in the order that `perm` gives.
pub open spec fn permute(links: Seq<(Seq<char>, Seq<char>)>, perm: Seq<int>) -> Seq<(Seq<char>, Seq<char>)> {
    perm.map_values(|i: int| links[i])
}

/// The positions of a stable sort by source, so far for the first `m` links.
spec fn sorted_prefix(links: Seq<(Seq<char>, Seq<char>)>, order: Seq<usize>, m: int) -> bool {
    &&& order.len() == m
    &&& forall|i: int| 0 <= i < order.len() ==> 0 <= #[trigger] order[i] < m
    &&& forall|i: int, j: int| 0 <= i < j < order.len() ==> order[i] != order[j]
    &&& forall|i: int, j: int|
        0 <= i < j < order.len() ==> comps_order(source_key(links[order[i] as int]), source_key(links[order[j] as int])) <= 0
    &&& forall|i: int, j: int|
        0 <= i < j < order.len() && comps_order(source_key(links[order[i] as int]), source_key(links[order[j] as int])) == 0
            ==> order[i] < order[j]
}

/// The positions of `links` in the order of a stable insertion sort by source.
fn stable_order(links: &Vec<(String, String)>) -> (order: Vec<usize>)
    ensures
        sorted_prefix(links_view(links@), order@, links@.len() as int),
{
    let ghost lv = links_view(links@);
    let n = links.len();
    let mut keys: Vec<Vec<Component>> = Vec::new();
    let mut k: usize = 0;
    while k < n
        invariant
            n == links@.len(),
            lv == links_view(links@),
            k <= n,
            keys@.len() == k,
            forall|i: int| 0 <= i < k ==> comps_view(#[trigger] keys@[i]@) == source_key(lv[i]),
        decreases n - k,
    {
        keys.push(path_components(links[k].0.as_str()));
        k += 1;
    }
    let mut order: Vec<usize> = Vec::new();
    let mut m: usize = 0;
    while m < n
        invariant
            n == links@.len(),
            lv == links_view(links@),
            keys@.len() == n,
            forall|i: int| 0 <= i < n ==> comps_view(#[trigger] keys@[i]@) == source_key(lv[i]),
            m <= n,
            sorted_prefix(lv, order@, m as int),
        decreases n - m,
    {
        let mut j: usize = order.len();
        while j > 0 && components_order(&keys[order[j - 1]], &keys[m]) > 0
            invariant
                n == links@.len(),
                lv == links_view(links@),
                keys@.len() == n,
                forall|i: int| 0 <= i < n ==> comps_view(#[trigger] keys@[i]@) == source_key(lv[i]),
                m < n,
                sorted_prefix(lv, order@, m as int),
                j <= order@.len(),
                forall|i: int| j <= i < order@.len() ==> comps_order(source_key(lv[#[trigger] order@[i] as int]), source_key(lv[m as int])) > 0,
            decreases j,
        {
            j -= 1;
        }
        let ghost old_order = order@;
        proof {
            if j > 0 {
                assert(comps_order(source_key(lv[old_order[j - 1] as int]), source_key(lv[m as int])) <= 0);
            }
        }
        order.insert(j, m);
        proof {
            let o = order@;
            assert(o =~= old_order.take(j as int).push(m) + old_order.skip(j as int));
            assert forall|i: int| 0 <= i < o.len() implies 0 <= #[trigger] o[i] < m + 1 by {
                if i < j {
                    assert(o[i] == old_order[i]);
                } else if i > j {
                    assert(o[i] == old_order[i - 1]);
                }
            }
            assert forall|a: int, b: int| 0 <= a < b < o.len() implies o[a] != o[b] by {
                if a != j && b != j {
                    let oa = if a < j { a } else { a - 1 };
                    let ob = if b < j { b } else { b - 1 };
                    assert(o[a] == old_order[oa] && o[b] == old_order[ob]);
                } else if a == j {
                    assert(o[b] == old_order[b - 1]);
                } else {
                    assert(o[a] == old_order[a]);
                }
            }
            assert forall|a: int, b: int| 0 <= a < b < o.len() implies comps_order(
                source_key(lv[o[a] as int]),
                source_key(lv[o[b] as int]),
            ) <= 0 && (comps_order(source_key(lv[o[a] as int]), source_key(lv[o[b] as int])) == 0 ==> o[a] < o[b]) by {
                let ka = source_key(lv[o[a] as int]);
                let kb = source_key(lv[o[b] as int]);
                let km = source_key(lv[m as int]);
                if a != j && b != j {
                    let oa = if a < j { a } else { a - 1 };
                    let ob = if b < j { b } else { b - 1 };
                    assert(o[a] == old_order[oa] && o[b] == old_order[ob]);
                } else if a == j {
                    assert(o[b] == old_order[b - 1]);
                    assert(comps_order(kb, km) > 0);
                    lemma_comps_order_antisym(kb, km);
                } else {
                    assert(o[a] == old_order[a]);
                    assert(a < j);
                    let kl = source_key(lv[old_order[j - 1] as int]);
                    if a < j - 1 {
                        assert(comps_order(ka, kl) <= 0);
                    }
                    lemma_comps_order_trans(ka, kl, km);
                    assert(comps_order(ka, km) <= 0);
                    assert(o[a] < m);
                }
            }
        }
        m += 1;
    }
    order
}


/// The links found, as the list command shows them: sorted stably by source
/// (as `Path`s order), and with each run of the same link kept once.
pub fn sorted_links(links: &Vec<(String, String)>) -> (res: Vec<(String, String)>)
    ensures
        exists|perm: Seq<int>| is_stable_sort(links_view(links@), perm)
            && links_view(res@) == dedup_links(permute(links_view(links@), perm)),
{
    let ghost lv = links_view(links@);
    let order = stable_order(links);
    let ghost perm = order@.map_values(|x: usize| x as int);
    let ghost sorted = permute(lv, perm);
    assert(is_stable_sort(lv, perm));
    let n = order.len();
    let mut out: Vec<(String, String)> = Vec::new();
    let mut i: usize = 0;
    assert(sorted.take(0) =~= Seq::<(Seq<char>, Seq<char>)>::empty());
    while i < n
        invariant
            n == order@.len(),
            n == links@.len(),
            lv == links_view(links@),
            perm == order@.map_values(|x: usize| x as int),
            sorted == permute(lv, perm),
            forall|k: int| 0 <= k < n ==> 0 <= #[trigger] order@[k] < n,
            i <= n,
            links_view(out@) == dedup_links(sorted.take(i as int)),
        decreases n - i,
    {
        let l = &links[order[i]];
        let ghost cur = sorted.take(i + 1);
        assert(cur.drop_last() =~= sorted.take(i as int));
        assert(cur.last() == (l.0@, l.1@));
        let olen = out.len();
        let dup = if olen > 0 {
            let last = &out[olen - 1];
            assert(links_view(out@).last() == (last.0@, last.1@));
            path_eq(last.0.as_str(), l.0.as_str()) && path_eq(last.1.as_str(), l.1.as_str())
        } else {
            false
        };
        if !dup {
            let ghost before = out@;
            out.push((l.0.clone(), l.1.clone()));
            assert(links_view(out@) =~= links_view(before).push((l.0@, l.1@)));
        }
        i += 1;
    }
    assert(sorted.take(n as int) =~= sorted);
    out
}


/// Sorted by source.
pub open spec fn sorted_by_source(s: Seq<(Seq<char>, Seq<char>)>) -> bool {
    forall|i: int, j: int| 0 <= i < j < s.len() ==> comps_order(source_key(s[i]), source_key(s[j])) <= 0
}

/// No link directly follows the same link.
pub open spec fn no_adjacent_same(s: Seq<(Seq<char>, Seq<char>)>) -> bool {
    forall|i: int| 0 <= i < s.len() - 1 ==> !same_link(#[trigger] s[i], s[i + 1])
}

/// What dedup keeps is among what it was given, the last one included.
proof fn lemma_dedup_members(s: Seq<(Seq<char>, Seq<char>)>)
    ensures
        forall|i: int| 0 <= i < dedup_links(s).len() ==> exists|k: int| 0 <= k < s.len() && #[trigger] dedup_links(s)[i] == s[k],
        dedup_links(s).len() <= s.len(),
        s.len() > 0 ==> dedup_links(s).len() > 0,
    decreases s.len(),
{
    if s.len() > 0 {
        let t = s.drop_last();
        lemma_dedup_members(t);
        let d = dedup_links(t);
        assert forall|i: int| 0 <= i < dedup_links(s).len() implies exists|k: int| 0 <= k < s.len() && #[trigger] dedup_links(s)[i] == s[k] by {
            if i < d.len() {
                let k = choose|k: int| 0 <= k < t.len() && d[i] == t[k];
                assert(dedup_links(s)[i] == s[k]);
            } else {
                assert(dedup_links(s)[i] == s[s.len() - 1]);
            }
        }
    }
}

/// Dedup of a list sorted by source is sorted by source, and no link in it
/// directly follows the same link.
proof fn lemma_dedup_sorted(s: Seq<(Seq<char>, Seq<char>)>)
    requires
        sorted_by_source(s),
    ensures
        sorted_by_source(dedup_links(s)),
        no_adjacent_same(dedup_links(s)),
    decreases s.len(),
{
    if s.len() > 0 {
        let t = s.drop_last();
        assert(sorted_by_source(t));
        lemma_dedup_sorted(t);
        lemma_dedup_members(t);
        let d = dedup_links(t);
        let r = dedup_links(s);
        if r != d {
            assert(r == d.push(s.last()));
            assert forall|i: int, j: int| 0 <= i < j < r.len() implies comps_order(source_key(r[i]), source_key(r[j])) <= 0 by {
                if j == r.len() - 1 {
                    let k = choose|k: int| 0 <= k < t.len() && d[i] == t[k];
                    assert(r[i] == s[k]);
                    assert(r[j] == s[s.len() - 1]);
                } else {
                    assert(r[i] == d[i] && r[j] == d[j]);
                }
            }
            assert forall|i: int| 0 <= i < r.len() - 1 implies !same_link(#[trigger] r[i], r[i + 1]) by {
                if i == r.len() - 2 {
                    assert(r[i] == d.last());
                } else {
                    assert(r[i] == d[i] && r[i + 1] == d[i + 1]);
                }
            }
        }
    }
}

/// What the list command shows is sorted by source, and no link in it
/// directly follows the same link.
pub proof fn lemma_list_sorted_unique(links: Seq<(Seq<char>, Seq<char>)>, perm: Seq<int>)
    requires
        is_stable_sort(links, perm),
    ensures
        sorted_by_source(dedup_links(permute(links, perm))),
        no_adjacent_same(dedup_links(permute(links, perm))),
{
    let p = permute(links, perm);
    assert forall|i: int, j: int| 0 <= i < j < p.len() implies comps_order(source_key(p[i]), source_key(p[j])) <= 0 by {
        assert(p[i] == links[perm[i]] && p[j] == links[perm[j]]);
    }
    lemma_dedup_sorted(p);
}

} // verus!
