//! Which passes a frame needs.
use std::collections::HashSet;

use vstd::prelude::*;

use crate::render_graph::access::ResourceRef;

verus! {

broadcast use vstd::std_specs::hash::group_hash_axioms;

/// Whether a pass writes one of `ids`.
pub open spec fn writes_any(writes: Seq<ResourceRef>, ids: Set<u32>) -> bool {
    exists|i: int| 0 <= i < writes.len() && ids.contains((#[trigger] writes[i]).id)
}

/// Whether a pass is needed whatever reads from it: see [`live_passes`].
pub open spec fn is_root(
    writes: Seq<Vec<ResourceRef>>,
    outputs: Set<u32>,
    temporal: Set<u32>,
    internal_count: int,
    p: int,
) -> bool {
    &&& 0 <= p < writes.len()
    &&& p < internal_count || writes_any(writes[p]@, outputs) || writes_any(writes[p]@, temporal)
}

/// Whether pass `p` wrote data that pass `q` reads.
pub open spec fn produces_for(raw_producers: Seq<Vec<usize>>, p: int, q: int) -> bool {
    0 <= q < raw_producers.len() && 0 <= p <= usize::MAX && raw_producers[q]@.contains(p as usize)
}

/// Whether the `k`-th pass of a chain reads from the one behind it.
pub open spec fn fed_at(raw_producers: Seq<Vec<usize>>, chain: Seq<int>, k: int) -> bool {
    produces_for(raw_producers, chain[k + 1], chain[k])
}

/// Whether a chain of reads leads from a pass that is needed back to `p`.
pub open spec fn is_chain(
    raw_producers: Seq<Vec<usize>>,
    roots: spec_fn(int) -> bool,
    chain: Seq<int>,
    p: int,
) -> bool {
    &&& chain.len() > 0
    &&& roots(chain[0])
    &&& chain[chain.len() - 1] == p
    &&& forall|k: int| 0 <= k < chain.len() - 1 ==> #[trigger] fed_at(raw_producers, chain, k)
}

/// Whether some needed pass depends on `p`, directly or through others.
pub open spec fn is_live(
    raw_producers: Seq<Vec<usize>>,
    roots: spec_fn(int) -> bool,
    p: int,
) -> bool {
    exists|chain: Seq<int>| #[trigger] is_chain(raw_producers, roots, chain, p)
}

/// The passes that are needed in themselves.
pub open spec fn roots_of(
    writes: Seq<Vec<ResourceRef>>,
    outputs: Set<u32>,
    temporal: Set<u32>,
    internal_count: int,
) -> spec_fn(int) -> bool {
    |p: int| is_root(writes, outputs, temporal, internal_count, p)
}

/// A root is live.
pub proof fn lemma_root_is_live(
    raw_producers: Seq<Vec<usize>>,
    roots: spec_fn(int) -> bool,
    p: int,
)
    requires
        roots(p),
    ensures
        is_live(raw_producers, roots, p),
{
    assert(is_chain(raw_producers, roots, seq![p], p));
}

/// What a live pass reads from is live.
pub proof fn lemma_producer_is_live(
    raw_producers: Seq<Vec<usize>>,
    roots: spec_fn(int) -> bool,
    p: int,
    q: int,
)
    requires
        is_live(raw_producers, roots, q),
        produces_for(raw_producers, p, q),
    ensures
        is_live(raw_producers, roots, p),
{
    let chain = choose|chain: Seq<int>| #[trigger] is_chain(raw_producers, roots, chain, q);
    let longer = chain.push(p);
    assert forall|k: int| 0 <= k < longer.len() - 1 implies #[trigger] fed_at(
        raw_producers,
        longer,
        k,
    ) by {
        if k < chain.len() - 1 {
            assert(fed_at(raw_producers, chain, k));
        }
    }
    assert(is_chain(raw_producers, roots, longer, p));
}

/// Every set of passes that holds the roots and what its members read from holds
/// all live passes: the live passes are the least such set.
pub proof fn law_live_set_is_least(
    raw_producers: Seq<Vec<usize>>,
    roots: spec_fn(int) -> bool,
    kept: spec_fn(int) -> bool,
    p: int,
)
    requires
        forall|q: int| #[trigger] roots(q) ==> kept(q),
        forall|a: int, b: int| #[trigger]
            produces_for(raw_producers, a, b) && kept(b) ==> kept(a),
        is_live(raw_producers, roots, p),
    ensures
        kept(p),
{
    let chain = choose|chain: Seq<int>| #[trigger] is_chain(raw_producers, roots, chain, p);
    lemma_chain_kept(raw_producers, roots, kept, chain, chain.len() - 1);
}

proof fn lemma_chain_kept(
    raw_producers: Seq<Vec<usize>>,
    roots: spec_fn(int) -> bool,
    kept: spec_fn(int) -> bool,
    chain: Seq<int>,
    k: int,
)
    requires
        0 <= k < chain.len(),
        roots(chain[0]),
        forall|j: int| 0 <= j < chain.len() - 1 ==> #[trigger] fed_at(raw_producers, chain, j),
        forall|q: int| #[trigger] roots(q) ==> kept(q),
        forall|a: int, b: int| #[trigger]
            produces_for(raw_producers, a, b) && kept(b) ==> kept(a),
    ensures
        kept(chain[k]),
    decreases k,
{
    if k > 0 {
        lemma_chain_kept(raw_producers, roots, kept, chain, k - 1);
        assert(fed_at(raw_producers, chain, k - 1));
        assert(produces_for(raw_producers, chain[k], chain[k - 1]));
    }
}

/// How many passes have not been found live.
spec fn dead_count(live: Seq<bool>) -> nat
    decreases live.len(),
{
    if live.len() == 0 {
        0
    } else {
        dead_count(live.drop_last()) + if live.last() {
            0nat
        } else {
            1nat
        }
    }
}

proof fn lemma_dead_count_update(live: Seq<bool>, i: int)
    requires
        0 <= i < live.len(),
        !live[i],
    ensures
        dead_count(live.update(i, true)) + 1 == dead_count(live),
    decreases live.len(),
{
    let after = live.update(i, true);
    if i < live.len() - 1 {
        lemma_dead_count_update(live.drop_last(), i);
        assert(after.drop_last() =~= live.drop_last().update(i, true));
    } else {
        assert(after.drop_last() =~= live.drop_last());
    }
}

/// Does the pass write one of `ids`?
fn writes_one_of(writes: &Vec<ResourceRef>, ids: &HashSet<u32>) -> (r: bool)
    ensures
        r == writes_any(writes@, ids@),
{
    let mut i: usize = 0;
    while i < writes.len()
        invariant
            i <= writes.len(),
            forall|k: int| 0 <= k < i ==> !ids@.contains((#[trigger] writes[k]).id),
        decreases writes.len() - i,
    {
        if ids.contains(&writes[i].id) {
            return true;
        }
        i = i + 1;
    }
    false
}

/// Backward reachability from the frame's declared results: `live[i]` is false for
/// every pass that cannot reach one and is therefore never recorded.
///
/// Roots are:
///   * the passes `0..internal_count` that the graph itself adds in front: they seed
///     every import's incoming access, and carry staging uploads whose sources were
///     already taken, so losing one loses the upload for good;
///   * any pass writing a resource in `outputs`;
///   * any pass writing a resource in `temporal`: those are read by the next frame,
///     which a single compile cannot see.
pub fn live_passes(
    writes: &Vec<Vec<ResourceRef>>,
    raw_producers: &Vec<Vec<usize>>,
    outputs: &HashSet<u32>,
    temporal: &HashSet<u32>,
    internal_count: usize,
) -> (live: Vec<bool>)
    requires
        writes.len() <= raw_producers.len(),
        forall|q: int, k: int|
            0 <= q < writes.len() && 0 <= k < raw_producers[q]@.len() ==> (
            #[trigger] raw_producers[q]@[k]) < writes.len(),
    ensures
        live.len() == writes.len(),
        forall|p: int|
            0 <= p < live.len() ==> (#[trigger] live[p] <==> is_live(
                raw_producers@,
                roots_of(writes@, outputs@, temporal@, internal_count as int),
                p,
            )),
{
    let n: usize = writes.len();
    let ghost raw = raw_producers@;
    let ghost roots = roots_of(writes@, outputs@, temporal@, internal_count as int);
    let mut live: Vec<bool> = Vec::with_capacity(n);
    let mut worklist: Vec<usize> = Vec::new();
    let mut i: usize = 0;
    while i < n
        invariant
            i <= n,
            n == writes.len(),
            live.len() == i,
            roots == roots_of(writes@, outputs@, temporal@, internal_count as int),
            forall|p: int| 0 <= p < i ==> (#[trigger] live[p] <==> roots(p)),
            forall|k: int|
                0 <= k < worklist.len() ==> #[trigger] worklist[k] < i
                    && live[worklist[k] as int],
            forall|p: int| 0 <= p < i && #[trigger] live[p] ==> worklist@.contains(p as usize),
        decreases n - i,
    {
        let root: bool = i < internal_count || writes_one_of(&writes[i], outputs) || writes_one_of(
            &writes[i],
            temporal,
        );
        let ghost before = worklist@;
        live.push(root);
        if root {
            worklist.push(i);
            proof {
                assert(worklist@[before.len() as int] == i);
            }
        }
        proof {
            assert forall|p: int| 0 <= p < i + 1 && #[trigger] live[p] implies worklist@.contains(
                p as usize,
            ) by {
                if p < i {
                    assert(before.contains(p as usize));
                    let k = choose|k: int| 0 <= k < before.len() && before[k] == p as usize;
                    assert(worklist@[k] == p as usize);
                }
            }
        }
        i = i + 1;
    }
    proof {
        assert forall|p: int| 0 <= p < n && #[trigger] live[p] implies is_live(raw, roots, p) by {
            lemma_root_is_live(raw, roots, p);
        }
    }
    while worklist.len() > 0
        invariant
            n == writes.len(),
            n <= raw_producers.len(),
            raw == raw_producers@,
            live.len() == n,
            roots == roots_of(writes@, outputs@, temporal@, internal_count as int),
            forall|q: int, k: int|
                0 <= q < n && 0 <= k < raw_producers[q]@.len() ==> (
                #[trigger] raw_producers[q]@[k]) < n,
            forall|p: int| 0 <= p < n && roots(p) ==> #[trigger] live[p],
            forall|p: int| 0 <= p < n && #[trigger] live[p] ==> is_live(raw, roots, p),
            forall|k: int|
                0 <= k < worklist.len() ==> #[trigger] worklist[k] < n
                    && live[worklist[k] as int],
            forall|q: int|
                0 <= q < n && #[trigger] live[q] && !worklist@.contains(q as usize)
                    ==> all_live(raw, live@, q),
        decreases dead_count(live@), worklist.len(),
    {
        let ghost before = worklist@;
        let q: usize = match worklist.pop() {
            Some(q) => q,
            None => 0,
        };
        let ghost popped = worklist@;
        let ghost live_before = live@;
        proof {
            assert(before == popped.push(q));
            assert(before[before.len() - 1] == q);
        }
        let producers = &raw_producers[q];
        let mut k: usize = 0;
        while k < producers.len()
            invariant
                n == writes.len(),
                raw == raw_producers@,
                q < n,
                n <= raw_producers.len(),
                producers@ == raw_producers@[q as int]@,
                k <= producers.len(),
                live.len() == n,
                live_before.len() == n,
                is_live(raw, roots, q as int),
                forall|j: int| 0 <= j < producers.len() ==> #[trigger] producers[j] < n,
                forall|p: int| 0 <= p < n && live_before[p] ==> #[trigger] live[p],
                forall|p: int| 0 <= p < n && #[trigger] live[p] ==> is_live(raw, roots, p),
                forall|j: int| 0 <= j < k ==> live[#[trigger] producers[j] as int],
                forall|j: int|
                    0 <= j < worklist.len() ==> #[trigger] worklist[j] < n
                        && live[worklist[j] as int],
                popped.len() <= worklist.len(),
                forall|j: int| 0 <= j < popped.len() ==> #[trigger] worklist[j] == popped[j],
                forall|p: int|
                    0 <= p < n && #[trigger] live[p] ==> live_before[p] || worklist@.contains(
                        p as usize,
                    ),
                live@ == live_before ==> worklist@ == popped,
                live@ != live_before ==> dead_count(live@) < dead_count(live_before),
                dead_count(live@) <= dead_count(live_before),
            decreases producers.len() - k,
        {
            let p: usize = producers[k];
            if !live[p] {
                let ghost listed = worklist@;
                let ghost lives = live@;
                proof {
                    assert(raw[q as int]@[k as int] == p);
                    assert(produces_for(raw, p as int, q as int));
                    lemma_producer_is_live(raw, roots, p as int, q as int);
                    lemma_dead_count_update(lives, p as int);
                }
                live.set(p, true);
                worklist.push(p);
                proof {
                    assert(live@ == lives.update(p as int, true));
                    assert(live@[p as int] && !live_before[p as int]);
                    assert(worklist@[listed.len() as int] == p);
                    assert forall|x: int| 0 <= x < n && #[trigger] live[x] implies live_before[x]
                        || worklist@.contains(x as usize) by {
                        if x != p {
                            assert(lives[x]);
                            if !live_before[x] {
                                let j = choose|j: int|
                                    0 <= j < listed.len() && listed[j] == x as usize;
                                assert(worklist@[j] == x as usize);
                            }
                        }
                    }
                }
            }
            k = k + 1;
        }
        proof {
            assert forall|x: int|
                0 <= x < n && #[trigger] live[x] && !worklist@.contains(
                    x as usize,
                ) implies all_live(raw, live@, x) by {
                assert(live_before[x]);
                if x == q {
                    assert forall|j: int| 0 <= j < raw[x]@.len() implies live@[#[trigger] raw[x]@[j] as int] by {
                        assert(live[producers[j] as int]);
                    }
                } else {
                    assert(!before.contains(x as usize)) by {
                        if before.contains(x as usize) {
                            let j = choose|j: int| 0 <= j < before.len() && before[j] == x as usize;
                            assert(j < popped.len());
                            assert(worklist@[j] == popped[j]);
                        }
                    }
                    assert(all_live(raw, live_before, x));
                    assert forall|j: int| 0 <= j < raw[x]@.len() implies live@[#[trigger] raw[x]@[j] as int] by {
                        assert(live_before[raw[x]@[j] as int]);
                        assert(raw_producers[x]@[j] < n);
                        assert(live[raw[x]@[j] as int]);
                    }
                }
            }
        }
    }
    proof {
        let found = live@;
        let kept = |p: int| 0 <= p < n && found[p];
        assert forall|p: int| 0 <= p < live.len() implies (#[trigger] live[p] <==> is_live(
            raw,
            roots,
            p,
        )) by {
            if is_live(raw, roots, p) {
                assert forall|x: int| #[trigger] roots(x) implies kept(x) by {
                    assert(live[x]);
                }
                assert forall|a: int, b: int| #[trigger]
                    produces_for(raw, a, b) && kept(b) implies kept(a) by {
                    assert(live[b]);
                    assert(all_live(raw, found, b));
                    let j = choose|j: int| 0 <= j < raw[b]@.len() && raw[b]@[j] == a as usize;
                    assert(raw_producers[b]@[j] < n);
                    assert(found[raw[b]@[j] as int]);
                    assert(a as usize == a);
                }
                law_live_set_is_least(raw, roots, kept, p);
            }
        }
    }
    live
}

spec fn all_live(raw: Seq<Vec<usize>>, live: Seq<bool>, q: int) -> bool {
    forall|j: int| 0 <= j < raw[q]@.len() ==> live[#[trigger] raw[q]@[j] as int]
}

} // verus!
