//! Reachability along a step relation, the model behind every flood fill.
use vstd::prelude::*;

verus! {

/// The nodes reachable from `seeds` in at most `n` steps.
pub open spec fn reach_within<A>(step: spec_fn(A, A) -> bool, seeds: Set<A>, n: nat) -> Set<A>
    decreases n,
{
    if n == 0 {
        seeds
    } else {
        let prev = reach_within(step, seeds, (n - 1) as nat);
        prev.union(Set::new(|q: A| exists|p: A| prev.contains(p) && step(p, q)))
    }
}

/// `q` is reachable from `seeds` by a finite number of steps.
pub open spec fn reachable<A>(step: spec_fn(A, A) -> bool, seeds: Set<A>, q: A) -> bool {
    exists|n: nat| #[trigger] reach_within(step, seeds, n).contains(q)
}

/// No step leads out of `s`.
pub open spec fn closed_under<A>(step: spec_fn(A, A) -> bool, s: Set<A>) -> bool {
    forall|p: A, q: A| s.contains(p) && #[trigger] step(p, q) ==> s.contains(q)
}

/// Every seed is reachable.
pub proof fn lemma_seed_reachable<A>(step: spec_fn(A, A) -> bool, seeds: Set<A>, q: A)
    requires
        seeds.contains(q),
    ensures
        reachable(step, seeds, q),
{
    assert(reach_within(step, seeds, 0).contains(q));
}

/// One step from a reachable node reaches a reachable node.
pub proof fn lemma_step_reachable<A>(step: spec_fn(A, A) -> bool, seeds: Set<A>, p: A, q: A)
    requires
        reachable(step, seeds, p),
        step(p, q),
    ensures
        reachable(step, seeds, q),
{
    let n = choose|n: nat| #[trigger] reach_within(step, seeds, n).contains(p);
    assert(reach_within(step, seeds, n + 1).contains(q));
}

/// A set that holds the seeds and is closed under the step holds every
/// reachable node.
pub proof fn lemma_closed_holds_reachable<A>(
    step: spec_fn(A, A) -> bool,
    seeds: Set<A>,
    s: Set<A>,
    q: A,
)
    requires
        seeds.subset_of(s),
        closed_under(step, s),
        reachable(step, seeds, q),
    ensures
        s.contains(q),
{
    let n = choose|n: nat| #[trigger] reach_within(step, seeds, n).contains(q);
    lemma_closed_holds_within(step, seeds, s, n);
}

proof fn lemma_closed_holds_within<A>(step: spec_fn(A, A) -> bool, seeds: Set<A>, s: Set<A>, n: nat)
    requires
        seeds.subset_of(s),
        closed_under(step, s),
    ensures
        reach_within(step, seeds, n).subset_of(s),
    decreases n,
{
    if n > 0 {
        lemma_closed_holds_within(step, seeds, s, (n - 1) as nat);
        let prev = reach_within(step, seeds, (n - 1) as nat);
        assert forall|q: A| reach_within(step, seeds, n).contains(q) implies s.contains(q) by {
            if !prev.contains(q) {
                let p = choose|p: A| prev.contains(p) && step(p, q);
            }
        }
    }
}


/// Reachability only grows when the step relation grows.
pub proof fn lemma_reachable_mono<A>(
    small: spec_fn(A, A) -> bool,
    big: spec_fn(A, A) -> bool,
    seeds: Set<A>,
    q: A,
)
    requires
        forall|p: A, r: A| #[trigger] small(p, r) ==> big(p, r),
        reachable(small, seeds, q),
    ensures
        reachable(big, seeds, q),
{
    let s = Set::new(|r: A| reachable(big, seeds, r));
    assert forall|r: A| seeds.contains(r) implies s.contains(r) by {
        lemma_seed_reachable(big, seeds, r);
    }
    assert forall|p: A, r: A| s.contains(p) && #[trigger] small(p, r) implies s.contains(r) by {
        lemma_step_reachable(big, seeds, p, r);
    }
    lemma_closed_holds_reachable(small, seeds, s, q);
}

/// `path` starts at a seed and takes one step at a time.
pub open spec fn is_path<A>(step: spec_fn(A, A) -> bool, seeds: Set<A>, path: Seq<A>) -> bool {
    &&& path.len() > 0
    &&& seeds.contains(path[0])
    &&& forall|i: int| 0 <= i < path.len() - 1 ==> #[trigger] step(path[i], path[i + 1])
}

proof fn lemma_path_reaches<A>(step: spec_fn(A, A) -> bool, seeds: Set<A>, path: Seq<A>, k: int)
    requires
        is_path(step, seeds, path),
        0 <= k < path.len(),
    ensures
        reachable(step, seeds, path[k]),
    decreases k,
{
    if k == 0 {
        lemma_seed_reachable(step, seeds, path[0]);
    } else {
        lemma_path_reaches(step, seeds, path, k - 1);
        let i = k - 1;
        assert(step(path[i], path[i + 1]));
        lemma_step_reachable(step, seeds, path[k - 1], path[k]);
    }
}

proof fn lemma_within_has_path<A>(step: spec_fn(A, A) -> bool, seeds: Set<A>, n: nat, q: A)
    requires
        reach_within(step, seeds, n).contains(q),
    ensures
        exists|path: Seq<A>| is_path(step, seeds, path) && path.last() == q,
    decreases n,
{
    if n == 0 {
        let path = seq![q];
        assert(path[0] == q);
        assert(path.last() == q);
        assert(is_path(step, seeds, path));
    } else {
        let prev = reach_within(step, seeds, (n - 1) as nat);
        if prev.contains(q) {
            lemma_within_has_path(step, seeds, (n - 1) as nat, q);
        } else {
            let p = choose|p: A| prev.contains(p) && step(p, q);
            lemma_within_has_path(step, seeds, (n - 1) as nat, p);
            let pp = choose|path: Seq<A>| is_path(step, seeds, path) && path.last() == p;
            let path = pp.push(q);
            assert forall|i: int| 0 <= i < path.len() - 1 implies #[trigger] step(path[i], path[i + 1]) by {
                if i < pp.len() - 1 {
                    assert(step(pp[i], pp[i + 1]));
                } else {
                    assert(path[i] == p);
                }
            }
            assert(is_path(step, seeds, path));
            assert(path.last() == q);
        }
    }
}

/// A node is reachable exactly when some path from a seed ends at it.
pub proof fn lemma_reachable_iff_path<A>(step: spec_fn(A, A) -> bool, seeds: Set<A>, q: A)
    ensures
        reachable(step, seeds, q) <==> exists|path: Seq<A>| is_path(step, seeds, path) && path.last() == q,
{
    if reachable(step, seeds, q) {
        let n = choose|n: nat| #[trigger] reach_within(step, seeds, n).contains(q);
        lemma_within_has_path(step, seeds, n, q);
    }
    if exists|path: Seq<A>| is_path(step, seeds, path) && path.last() == q {
        let path = choose|path: Seq<A>| is_path(step, seeds, path) && path.last() == q;
        lemma_path_reaches(step, seeds, path, path.len() - 1);
    }
}

} // verus!
