//! Ids in ascending order.
use vstd::prelude::*;

verus! {

/// The members of `dom` below `k`, in ascending order.
pub open spec fn ids_below(dom: Set<u16>, k: int) -> Seq<u16>
    decreases k,
{
    if k <= 0 {
        Seq::<u16>::empty()
    } else if dom.contains((k - 1) as u16) {
        ids_below(dom, k - 1).push((k - 1) as u16)
    } else {
        ids_below(dom, k - 1)
    }
}

/// All members of a set of ids, in ascending order.
pub open spec fn sorted_ids(dom: Set<u16>) -> Seq<u16> {
    ids_below(dom, 0x10000)
}

pub open spec fn strictly_ascending(s: Seq<u16>) -> bool {
    forall|i: int, j: int| 0 <= i < j < s.len() ==> s[i] < s[j]
}

/// A strictly ascending sequence holding exactly the members of `dom` below
/// `k` is `ids_below(dom, k)`.
pub proof fn lemma_ascending_is_ids_below(s: Seq<u16>, dom: Set<u16>, k: int)
    requires
        0 <= k <= 0x10000,
        strictly_ascending(s),
        forall|x: u16| s.contains(x) <==> (dom.contains(x) && x < k),
    ensures
        s == ids_below(dom, k),
    decreases k,
{
    if k == 0 {
        if s.len() > 0 {
            assert(s.contains(s[0]));
        }
        assert(s =~= Seq::<u16>::empty());
    } else {
        let top = (k - 1) as u16;
        if dom.contains(top) {
            assert(s.contains(top));
            let j = choose|j: int| 0 <= j < s.len() && s[j] == top;
            let n = s.len() - 1;
            if j < n {
                assert(s.contains(s[n]));
                assert(s[j] < s[n]);
            }
            let t = s.drop_last();
            assert forall|x: u16| t.contains(x) <==> (dom.contains(x) && x < k - 1) by {
                if t.contains(x) {
                    let i = choose|i: int| 0 <= i < t.len() && t[i] == x;
                    assert(s[i] == x);
                    assert(s.contains(x));
                    assert(s[i] < s[n]);
                }
                if dom.contains(x) && x < k - 1 {
                    assert(s.contains(x));
                    let i = choose|i: int| 0 <= i < s.len() && s[i] == x;
                    assert(i != n);
                    assert(t[i] == x);
                }
            }
            lemma_ascending_is_ids_below(t, dom, k - 1);
            assert(s =~= t.push(top));
        } else {
            assert forall|x: u16| s.contains(x) <==> (dom.contains(x) && x < k - 1) by {
                if s.contains(x) {
                    assert(x != top);
                }
            }
            lemma_ascending_is_ids_below(s, dom, k - 1);
        }
    }
}

/// `ids_below(dom, k)` holds exactly the members of `dom` below `k`.
pub proof fn lemma_ids_below_members(dom: Set<u16>, k: int)
    requires
        0 <= k <= 0x10000,
    ensures
        forall|x: u16| #[trigger] ids_below(dom, k).contains(x) <==> (dom.contains(x) && x < k),
    decreases k,
{
    if k > 0 {
        lemma_ids_below_members(dom, k - 1);
        let prev = ids_below(dom, k - 1);
        if dom.contains((k - 1) as u16) {
            let cur = prev.push((k - 1) as u16);
            assert forall|x: u16| cur.contains(x) <==> (dom.contains(x) && x < k) by {
                if prev.contains(x) {
                    let j = choose|j: int| 0 <= j < prev.len() && prev[j] == x;
                    assert(cur[j] == x);
                }
                if x == (k - 1) as u16 {
                    assert(cur[prev.len() as int] == x);
                }
                if cur.contains(x) && x != (k - 1) as u16 {
                    let j = choose|j: int| 0 <= j < cur.len() && cur[j] == x;
                    assert(prev[j] == x);
                }
            }
        }
    }
}

/// `ids_below(dom, k)` is strictly ascending.
pub proof fn lemma_ids_below_ascending(dom: Set<u16>, k: int)
    requires
        0 <= k <= 0x10000,
    ensures
        strictly_ascending(ids_below(dom, k)),
    decreases k,
{
    if k > 0 {
        lemma_ids_below_ascending(dom, k - 1);
        lemma_ids_below_members(dom, k - 1);
        let prev = ids_below(dom, k - 1);
        if dom.contains((k - 1) as u16) {
            let cur = prev.push((k - 1) as u16);
            assert forall|a: int, b: int| 0 <= a < b < cur.len() implies cur[a] < cur[b] by {
                assert(cur[a] == prev[a]);
                if b == prev.len() {
                    let x = prev[a];
                    assert(prev.contains(x));
                    assert(cur[b] == (k - 1) as u16);
                } else {
                    assert(cur[b] == prev[b]);
                }
            }
        }
    }
}

/// Puts `x`, which `v` does not hold, into the ascending sequence `v`.
pub fn insert_ascending(v: &mut Vec<u16>, x: u16)
    requires
        strictly_ascending(old(v)@),
        !old(v)@.contains(x),
    ensures
        strictly_ascending(final(v)@),
        forall|y: u16| final(v)@.contains(y) <==> (old(v)@.contains(y) || y == x),
{
    let mut p: usize = 0;
    while p < v.len() && v[p] < x
        invariant
            p <= v@.len(),
            forall|j: int| 0 <= j < p ==> v@[j] < x,
        decreases v@.len() - p,
    {
        p += 1;
    }
    let ghost old_v = v@;
    v.insert(p, x);
    assert forall|a: int, b: int| 0 <= a < b < v@.len() implies v@[a] < v@[b] by {
        if p < old_v.len() {
            assert(old_v[p as int] >= x);
            assert(old_v.contains(old_v[p as int]));
            assert(old_v[p as int] != x);
        }
        if a < p && b > p {
            assert(old_v[a] < x);
        }
        if a == p && b > p {
            assert(old_v[b - 1] >= old_v[p as int]);
        }
    }
    assert forall|y: u16| v@.contains(y) <==> (old_v.contains(y) || y == x) by {
        if v@.contains(y) {
            let j = choose|j: int| 0 <= j < v@.len() && v@[j] == y;
            if j < p {
                assert(old_v[j] == y);
            } else if j > p {
                assert(old_v[j - 1] == y);
            }
        }
        if old_v.contains(y) {
            let j = choose|j: int| 0 <= j < old_v.len() && old_v[j] == y;
            if j < p {
                assert(v@[j] == y);
            } else {
                assert(v@[j + 1] == y);
            }
        }
        if y == x {
            assert(v@[p as int] == y);
        }
    }
}

/// The ids of `ids`, in ascending order; `ids` holds no id twice.
pub fn sort_ids(ids: &Vec<u16>) -> (r: Vec<u16>)
    requires
        ids@.no_duplicates(),
    ensures
        r@ == sorted_ids(ids@.to_set()),
{
    let mut sorted: Vec<u16> = Vec::new();
    let mut i: usize = 0;
    while i < ids.len()
        invariant
            i <= ids@.len(),
            ids@.no_duplicates(),
            strictly_ascending(sorted@),
            forall|x: u16| sorted@.contains(x) <==> ids@.subrange(0, i as int).contains(x),
        decreases ids@.len() - i,
    {
        let x = ids[i];
        assert(!sorted@.contains(x)) by {
            if sorted@.contains(x) {
                let j = choose|j: int| 0 <= j < i && ids@[j] == x;
                assert(ids@[j] == ids@[i as int]);
            }
        }
        insert_ascending(&mut sorted, x);
        assert forall|y: u16| sorted@.contains(y) <==> ids@.subrange(0, i + 1).contains(y) by {
            let sub = ids@.subrange(0, i + 1);
            if ids@.subrange(0, i as int).contains(y) {
                let k = choose|k: int| 0 <= k < i && ids@.subrange(0, i as int)[k] == y;
                assert(sub[k] == y);
            }
            if y == x {
                assert(sub[i as int] == y);
            }
            if sub.contains(y) {
                let k = choose|k: int| 0 <= k < sub.len() && sub[k] == y;
                if k < i {
                    assert(ids@.subrange(0, i as int)[k] == y);
                }
            }
        }
        i += 1;
    }
    assert(ids@.subrange(0, ids@.len() as int) =~= ids@);
    proof {
        assert forall|x: u16| sorted@.contains(x) <==> (ids@.to_set().contains(x) && x < 0x10000) by {
        }
        lemma_ascending_is_ids_below(sorted@, ids@.to_set(), 0x10000);
    }
    sorted
}

} // verus!
