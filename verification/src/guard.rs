//! The inclusion recursion guard: a reference-only breadth-first walk of the
//! inclusion graph that bounds its depth before any real recursive resolution
//! is attempted. A cyclic graph never empties its frontier and is rejected by
//! the depth bound; a graph of legitimate depth within the bound passes.

use vstd::prelude::*;

use crate::errors::VaultError;
use crate::variables::contains_string;

verus! {

/// The inclusion references declared by a manifest reference, or none for a
/// reference outside the graph.
pub open spec fn children_of(g: Seq<(String, Vec<String>)>, r: Seq<char>) -> Seq<Seq<char>>
    decreases g.len(),
{
    if g.len() == 0 {
        Seq::empty()
    } else if g[0].0@ == r {
        g[0].1.deep_view()
    } else {
        children_of(g.skip(1), r)
    }
}

/// The references one step down from a set of references.
pub open spec fn next_refs(g: Seq<(String, Vec<String>)>, s: Set<Seq<char>>) -> Set<Seq<char>> {
    Set::new(
        |y: Seq<char>| exists|x: Seq<char>| #[trigger] s.contains(x) && children_of(g, x).contains(y),
    )
}

/// The set of references named at depth `d` of the inclusion graph.
pub open spec fn frontier(g: Seq<(String, Vec<String>)>, root: Seq<char>, d: nat) -> Set<
    Seq<char>,
>
    decreases d,
{
    if d == 0 {
        Set::empty().insert(root)
    } else {
        next_refs(g, frontier(g, root, (d - 1) as nat))
    }
}

/// Stepping preserves containment of reference sets.
pub proof fn lemma_next_mono(g: Seq<(String, Vec<String>)>, s: Set<Seq<char>>, t: Set<Seq<char>>)
    requires
        s.subset_of(t),
    ensures
        next_refs(g, s).subset_of(next_refs(g, t)),
{
    assert forall|y: Seq<char>| next_refs(g, s).contains(y) implies next_refs(g, t).contains(
        y,
    ) by {
        let x = choose|x: Seq<char>| #[trigger] s.contains(x) && children_of(g, x).contains(y);
        assert(t.contains(x) && children_of(g, x).contains(y));
    }
}

/// An empty frontier stays empty forever after.
pub proof fn lemma_empty_propagates(g: Seq<(String, Vec<String>)>, root: Seq<char>, e: nat, f: nat)
    requires
        e <= f,
        frontier(g, root, e) =~= Set::<Seq<char>>::empty(),
    ensures
        frontier(g, root, f) =~= Set::<Seq<char>>::empty(),
    decreases f - e,
{
    if f > e {
        lemma_empty_propagates(g, root, e, (f - 1) as nat);
        assert forall|y: Seq<char>| !frontier(g, root, f).contains(y) by {
            if frontier(g, root, f).contains(y) {
                let x = choose|x: Seq<char>| #[trigger] frontier(g, root, (f - 1) as nat).contains(
                    x,
                ) && children_of(g, x).contains(y);
            }
        }
    }
}

/// The frontier of a deeper level is the earlier frontier stepped the
/// remaining number of times.
pub open spec fn step_refs(g: Seq<(String, Vec<String>)>, s: Set<Seq<char>>, b: nat) -> Set<
    Seq<char>,
>
    decreases b,
{
    if b == 0 {
        s
    } else {
        next_refs(g, step_refs(g, s, (b - 1) as nat))
    }
}

/// Splitting a frontier depth into two legs of stepping.
pub proof fn lemma_frontier_compose(
    g: Seq<(String, Vec<String>)>,
    root: Seq<char>,
    a: nat,
    b: nat,
)
    ensures
        frontier(g, root, a + b) == step_refs(g, frontier(g, root, a), b),
    decreases b,
{
    if b > 0 {
        lemma_frontier_compose(g, root, a, (b - 1) as nat);
        assert(a + b - 1 == a + (b - 1) as nat);
    }
}

/// Stepping preserves containment, any number of times.
pub proof fn lemma_step_mono(
    g: Seq<(String, Vec<String>)>,
    s: Set<Seq<char>>,
    t: Set<Seq<char>>,
    b: nat,
)
    requires
        s.subset_of(t),
    ensures
        step_refs(g, s, b).subset_of(step_refs(g, t, b)),
    decreases b,
{
    if b > 0 {
        lemma_step_mono(g, s, t, (b - 1) as nat);
        lemma_next_mono(g, step_refs(g, s, (b - 1) as nat), step_refs(g, t, (b - 1) as nat));
    }
}

/// A graph whose inclusion walk returns to the root keeps its frontier
/// non-empty at every depth: the guard's depth bound will reject it.
pub proof fn lemma_cycle_never_empties(
    g: Seq<(String, Vec<String>)>,
    root: Seq<char>,
    k: nat,
    d: nat,
)
    requires
        k >= 1,
        frontier(g, root, k).contains(root),
    ensures
        !(frontier(g, root, d) =~= Set::<Seq<char>>::empty()),
    decreases d,
{
    if d <= k {
        if frontier(g, root, d) =~= Set::<Seq<char>>::empty() {
            lemma_empty_propagates(g, root, d, k);
            assert(!frontier(g, root, k).contains(root));
        }
    } else {
        lemma_cycle_never_empties(g, root, k, (d - k) as nat);
        // frontier(d) contains the whole frontier at depth d - k, walked
        // around the cycle once.
        lemma_frontier_compose(g, root, k, (d - k) as nat);
        lemma_frontier_compose(g, root, 0, (d - k) as nat);
        assert(frontier(g, root, 0) =~= Set::empty().insert(root));
        assert(frontier(g, root, 0).subset_of(frontier(g, root, k)));
        lemma_step_mono(g, frontier(g, root, 0), frontier(g, root, k), (d - k) as nat);
        assert(frontier(g, root, (d - k) as nat) == step_refs(
            g,
            frontier(g, root, 0),
            (d - k) as nat,
        ));
        let y = choose|y: Seq<char>| #[trigger] frontier(g, root, (d - k) as nat).contains(y);
        assert(frontier(g, root, d).contains(y));
    }
}

/// Look up the declared children of a reference.
fn lookup_children(g: &Vec<(String, Vec<String>)>, r: &String) -> (out: Vec<String>)
    ensures
        out.deep_view() == children_of(g@, r@),
{
    let mut i: usize = 0;
    proof {
        assert(g@.skip(0) =~= g@);
    }
    while i < g.len()
        invariant
            i <= g.len(),
            children_of(g@, r@) == children_of(g@.skip(i as int), r@),
        decreases g.len() - i,
    {
        proof {
            assert(g@.skip(i as int)[0] == g@[i as int]);
            assert(g@.skip(i as int).skip(1) =~= g@.skip(i + 1));
        }
        if g[i].0.eq(r) {
            return crate::variables::clone_tags(&g[i].1);
        }
        i = i + 1;
    }
    let empty: Vec<String> = Vec::new();
    proof {
        assert(empty.deep_view() =~~= Seq::<Seq<char>>::empty());
    }
    empty
}

/// Appending an element to a name list inserts it into the set of its
/// elements.
proof fn lemma_toset_push(s: Seq<Seq<char>>, x: Seq<char>)
    ensures
        s.push(x).to_set() =~= s.to_set().insert(x),
{
    assert forall|y: Seq<char>| s.push(x).to_set().contains(y) implies s.to_set().insert(
        x,
    ).contains(y) by {
        let i = choose|i: int| 0 <= i < s.push(x).len() && s.push(x)[i] == y;
        if i < s.len() {
            assert(s[i] == y);
        }
    }
    assert forall|y: Seq<char>| s.to_set().insert(x).contains(y) implies s.push(x).to_set(
    ).contains(y) by {
        if y == x {
            assert(s.push(x)[s.len() as int] == y);
        } else {
            let i = choose|i: int| 0 <= i < s.len() && s[i] == y;
            assert(s.push(x)[i] == y);
        }
    }
}

/// Walk the inclusion graph breadth-first from the root, collecting at each
/// depth the set of references named there, and fail where the frontier has
/// not emptied within the depth limit. A cyclic graph never empties it.
pub fn recursion_guard(root: &String, graph: &Vec<(String, Vec<String>)>, limit: usize) -> (r:
    Result<(), VaultError>)
    requires
        limit < usize::MAX,
    ensures
        r is Ok <==> (exists|d: nat|
            d <= limit && frontier(graph@, root@, d) =~= Set::<Seq<char>>::empty()),
        r matches Err(e) ==> e is RecursionLimit,
{
    let mut level: Vec<String> = Vec::new();
    level.push(root.clone());
    proof {
        assert(level.deep_view() =~~= Seq::<Seq<char>>::empty().push(root@));
        lemma_toset_push(Seq::<Seq<char>>::empty(), root@);
        assert(Seq::<Seq<char>>::empty().to_set() =~= Set::<Seq<char>>::empty());
        assert(level.deep_view().to_set() =~= frontier(graph@, root@, 0));
    }
    let mut d: usize = 0;
    while d <= limit
        invariant
            limit < usize::MAX,
            d <= limit + 1,
            level.deep_view().to_set() =~= frontier(graph@, root@, d as nat),
            forall|e: nat| e < d ==> !(frontier(graph@, root@, e) =~= Set::<Seq<char>>::empty()),
        decreases limit + 1 - d,
    {
        if level.len() == 0 {
            proof {
                assert(level.deep_view().to_set() =~= Set::<Seq<char>>::empty());
                assert(frontier(graph@, root@, d as nat) =~= Set::<Seq<char>>::empty());
            }
            return Ok(());
        }
        proof {
            assert(level.deep_view()[0] == level@[0]@);
            assert(level.deep_view().to_set().contains(level.deep_view()[0]));
            assert(!(frontier(graph@, root@, d as nat) =~= Set::<Seq<char>>::empty()));
        }
        let ghost lv = level.deep_view();
        let mut next: Vec<String> = Vec::new();
        let mut u: usize = 0;
        proof {
            assert(next.deep_view() =~~= Seq::<Seq<char>>::empty());
            assert forall|y: Seq<char>| !partial_next(graph@, lv, 0, y) by {}
            assert(next.deep_view().to_set() =~= Set::new(
                |y: Seq<char>| partial_next(graph@, lv, 0, y),
            ));
        }
        while u < level.len()
            invariant
                u <= level.len(),
                lv == level.deep_view(),
                lv.len() == level@.len(),
                next.deep_view().to_set() =~= Set::new(
                    |y: Seq<char>| partial_next(graph@, lv, u as int, y),
                ),
            decreases level.len() - u,
        {
            let kids = lookup_children(graph, &level[u]);
            let ghost kv = kids.deep_view();
            proof {
                assert(lv[u as int] == level@[u as int]@);
            }
            let mut w: usize = 0;
            while w < kids.len()
                invariant
                    w <= kids.len(),
                    u < level.len(),
                    lv == level.deep_view(),
                    lv.len() == level@.len(),
                    kv == kids.deep_view(),
                    kv.len() == kids@.len(),
                    kv == children_of(graph@, lv[u as int]),
                    next.deep_view().to_set() =~= Set::new(
                        |y: Seq<char>|
                            partial_next(graph@, lv, u as int, y) || kv.subrange(
                                0,
                                w as int,
                            ).contains(y),
                    ),
                decreases kids.len() - w,
            {
                let ghost pre = next.deep_view();
                proof {
                    assert(kv[w as int] == kids@[w as int]@);
                    assert(kv.subrange(0, w + 1).drop_last() =~= kv.subrange(0, w as int));
                    assert(kv.subrange(0, w + 1).last() == kv[w as int]);
                }
                if !contains_string(&next, &kids[w]) {
                    next.push(kids[w].clone());
                    proof {
                        assert(next.deep_view() =~~= pre.push(kv[w as int]));
                        lemma_toset_push(pre, kv[w as int]);
                    }
                }
                proof {
                    assert forall|y: Seq<char>|
                        (partial_next(graph@, lv, u as int, y) || kv.subrange(
                            0,
                            w + 1,
                        ).contains(y)) implies next.deep_view().to_set().contains(y) by {
                        if partial_next(graph@, lv, u as int, y) || kv.subrange(
                            0,
                            w as int,
                        ).contains(y) {
                            assert(pre.to_set().contains(y));
                        } else {
                            assert(kv.subrange(0, w + 1)[w as int] == y);
                        }
                    }
                    assert forall|y: Seq<char>| next.deep_view().to_set().contains(y) implies (
                    partial_next(graph@, lv, u as int, y) || kv.subrange(0, w + 1).contains(
                        y,
                    )) by {
                        if pre.to_set().contains(y) {
                            if kv.subrange(0, w as int).contains(y) {
                                let t = choose|t: int|
                                    0 <= t < w && kv.subrange(0, w as int)[t] == y;
                                assert(kv.subrange(0, w + 1)[t] == y);
                            }
                        }
                    }
                    assert(next.deep_view().to_set() =~= Set::new(
                        |y: Seq<char>|
                            partial_next(graph@, lv, u as int, y) || kv.subrange(
                                0,
                                w + 1,
                            ).contains(y),
                    ));
                }
                w = w + 1;
            }
            proof {
                assert(kv.subrange(0, w as int) =~= kv);
                assert forall|y: Seq<char>|
                    (partial_next(graph@, lv, u as int, y) || kv.contains(y)) implies partial_next(
                    graph@,
                    lv,
                    u + 1,
                    y,
                ) by {
                    if partial_next(graph@, lv, u as int, y) {
                        let t = choose|t: int|
                            0 <= t < u && children_of(graph@, lv[t]).contains(y);
                        assert(0 <= t < u + 1 && children_of(graph@, lv[t]).contains(y));
                    } else {
                        assert(children_of(graph@, lv[u as int]).contains(y));
                    }
                }
                assert forall|y: Seq<char>| partial_next(graph@, lv, u + 1, y) implies (
                partial_next(graph@, lv, u as int, y) || kv.contains(y)) by {
                    let t = choose|t: int| 0 <= t < u + 1 && children_of(graph@, lv[t]).contains(
                        y,
                    );
                    if t < u {
                        assert(partial_next(graph@, lv, u as int, y));
                    }
                }
                assert(next.deep_view().to_set() =~= Set::new(
                    |y: Seq<char>| partial_next(graph@, lv, u + 1, y),
                ));
            }
            u = u + 1;
        }
        proof {
            // The collected set is exactly the next frontier.
            assert forall|y: Seq<char>| partial_next(graph@, lv, lv.len() as int, y) implies
                next_refs(graph@, lv.to_set()).contains(y) by {
                let t = choose|t: int| 0 <= t < lv.len() && children_of(graph@, lv[t]).contains(
                    y,
                );
                assert(lv.to_set().contains(lv[t]));
            }
            assert forall|y: Seq<char>| next_refs(graph@, lv.to_set()).contains(y) implies
                partial_next(graph@, lv, lv.len() as int, y) by {
                let x = choose|x: Seq<char>| #[trigger] lv.to_set().contains(x) && children_of(
                    graph@,
                    x,
                ).contains(y);
                let t = choose|t: int| 0 <= t < lv.len() && lv[t] == x;
            }
            assert(next.deep_view().to_set() =~= next_refs(graph@, lv.to_set()));
            assert(next.deep_view().to_set() =~= frontier(graph@, root@, (d + 1) as nat));
        }
        level = next;
        d = d + 1;
    }
    proof {
        assert forall|e: nat| e <= limit implies !(frontier(graph@, root@, e) =~= Set::<
            Seq<char>,
        >::empty()) by {}
    }
    Err(VaultError::RecursionLimit(root.clone()))
}

/// A reference reached from one of the first `u` members of the level.
pub open spec fn partial_next(
    g: Seq<(String, Vec<String>)>,
    lv: Seq<Seq<char>>,
    u: int,
    y: Seq<char>,
) -> bool {
    exists|t: int| 0 <= t < u && children_of(g, lv[t]).contains(y)
}

} // verus!
