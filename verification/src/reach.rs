//! Reachability in a set of pairs: what it means, what contraction does to
//! it, and a depth-first search that computes it on a relation.

use vstd::prelude::*;
use crate::fx::{visited_insert, visited_new};
use crate::relation::model::{contract, contract_all};
use crate::relation::Relation;
use crate::vec_family::{IndexType, VecFamily};

verus! {

/// `path` is a walk along `pairs`: it has a first entry, and each entry is
/// paired with the next.
pub open spec fn is_path(pairs: Set<(int, int)>, path: Seq<int>) -> bool {
    &&& path.len() > 0
    &&& forall|i: int| 0 <= i < path.len() - 1 ==> pairs.contains((#[trigger] path[i], path[i + 1]))
}

/// `to` is reachable from `from`: it is `from` itself, or some walk along
/// `pairs` leads from `from` to it.
pub open spec fn reachable(pairs: Set<(int, int)>, from: int, to: int) -> bool {
    exists|path: Seq<int>| #[trigger] is_path(pairs, path) && path[0] == from && path.last() == to
}

/// Every node reaches itself.
pub proof fn lemma_reachable_self(pairs: Set<(int, int)>, a: int)
    ensures
        reachable(pairs, a, a),
{
    assert(is_path(pairs, seq![a]));
}

/// A walk can be made one pair longer.
pub proof fn lemma_reachable_step(pairs: Set<(int, int)>, a: int, b: int, c: int)
    requires
        reachable(pairs, a, b),
        pairs.contains((b, c)),
    ensures
        reachable(pairs, a, c),
{
    let path = choose|path: Seq<int>| #[trigger]
        is_path(pairs, path) && path[0] == a && path.last() == b;
    let longer = path.push(c);
    assert forall|i: int| 0 <= i < longer.len() - 1 implies pairs.contains(
        (#[trigger] longer[i], longer[i + 1]),
    ) by {
        if i < path.len() - 1 {
            assert(pairs.contains((path[i], path[i + 1])));
        }
    }
    assert(is_path(pairs, longer));
}

/// Every entry of a walk that starts in a set closed under `pairs` is in that set.
proof fn lemma_path_in_closed(pairs: Set<(int, int)>, closed: Set<int>, path: Seq<int>, i: int)
    requires
        is_path(pairs, path),
        closed.contains(path[0]),
        forall|x: int, y: int| closed.contains(x) && #[trigger] pairs.contains((x, y)) ==> closed.contains(y),
        0 <= i < path.len(),
    ensures
        closed.contains(path[i]),
    decreases i,
{
    if i > 0 {
        lemma_path_in_closed(pairs, closed, path, i - 1);
        assert(pairs.contains((path[i - 1], path[i - 1 + 1])));
    }
}

/// A set that holds `a` and is closed under `pairs` holds all that `a` reaches.
pub proof fn lemma_reachable_in_closed(pairs: Set<(int, int)>, closed: Set<int>, a: int, b: int)
    requires
        closed.contains(a),
        forall|x: int, y: int| closed.contains(x) && #[trigger] pairs.contains((x, y)) ==> closed.contains(y),
        reachable(pairs, a, b),
    ensures
        closed.contains(b),
{
    let path = choose|path: Seq<int>| #[trigger]
        is_path(pairs, path) && path[0] == a && path.last() == b;
    lemma_path_in_closed(pairs, closed, path, path.len() - 1);
}

/// Along a walk that starts away from `d`, every entry other than `d` is
/// reachable after `d` was contracted out, and where the walk stands on `d`
/// some node reachable after the contraction is paired with `d`.
proof fn lemma_path_after_contraction(pairs: Set<(int, int)>, d: int, path: Seq<int>, i: int)
    requires
        is_path(pairs, path),
        path[0] != d,
        0 <= i < path.len(),
    ensures
        path[i] != d ==> reachable(contract(pairs, d), path[0], path[i]),
        path[i] == d ==> exists|u: int|
            u != d && #[trigger] reachable(contract(pairs, d), path[0], u) && pairs.contains((u, d)),
    decreases i,
{
    let after = contract(pairs, d);
    if i == 0 {
        lemma_reachable_self(after, path[0]);
    } else {
        lemma_path_after_contraction(pairs, d, path, i - 1);
        assert(pairs.contains((path[i - 1], path[i - 1 + 1])));
        if path[i - 1] != d {
            if path[i] != d {
                assert(after.contains((path[i - 1], path[i])));
                lemma_reachable_step(after, path[0], path[i - 1], path[i]);
            } else {
                assert(reachable(after, path[0], path[i - 1]));
            }
        } else {
            let u = choose|u: int|
                u != d && #[trigger] reachable(after, path[0], u) && pairs.contains((u, d));
            if path[i] != d {
                assert(after.contains((u, path[i])));
                lemma_reachable_step(after, path[0], u, path[i]);
            } else {
                assert(reachable(after, path[0], u));
            }
        }
    }
}

/// Contracting a node out leaves reachability between the other nodes as it
/// was: from a node `r` other than `d`, what is reachable after `d` was
/// contracted out is what was reachable before, without `d`.
pub proof fn law_reachable_after_contraction(pairs: Set<(int, int)>, d: int, r: int, x: int)
    requires
        r != d,
    ensures
        reachable(contract(pairs, d), r, x) <==> (reachable(pairs, r, x) && x != d),
{
    let after = contract(pairs, d);
    if reachable(after, r, x) {
        let closed = Set::new(|y: int| y != d && reachable(pairs, r, y));
        lemma_reachable_self(pairs, r);
        assert forall|a: int, b: int| closed.contains(a) && #[trigger] after.contains((a, b)) implies closed.contains(b) by {
            if pairs.contains((a, b)) {
                lemma_reachable_step(pairs, r, a, b);
            } else {
                lemma_reachable_step(pairs, r, a, d);
                lemma_reachable_step(pairs, r, d, b);
            }
        }
        lemma_reachable_in_closed(after, closed, r, x);
    }
    if reachable(pairs, r, x) && x != d {
        let path = choose|path: Seq<int>| #[trigger]
            is_path(pairs, path) && path[0] == r && path.last() == x;
        lemma_path_after_contraction(pairs, d, path, path.len() - 1);
    }
}

/// Killing regions leaves reachability between the other regions as it was:
/// from a region `r` that is not killed, what is reachable after the regions
/// of `dead` were contracted out is what was reachable before, without the
/// regions of `dead`.
pub proof fn law_reachable_after_kill(pairs: Set<(int, int)>, dead: Seq<int>, r: int, x: int)
    requires
        !dead.contains(r),
    ensures
        reachable(contract_all(pairs, dead), r, x) <==> (reachable(pairs, r, x) && !dead.contains(
            x,
        )),
    decreases dead.len(),
{
    if dead.len() > 0 {
        let rest = dead.drop_last();
        let d = dead.last();
        assert(dead[dead.len() - 1] == d);
        assert(!rest.contains(r)) by {
            if rest.contains(r) {
                let k = choose|k: int| 0 <= k < rest.len() && rest[k] == r;
                assert(dead[k] == r);
            }
        }
        law_reachable_after_kill(pairs, rest, r, x);
        law_reachable_after_contraction(contract_all(pairs, rest), d, r, x);
        assert(dead.contains(x) <==> (rest.contains(x) || x == d)) by {
            if rest.contains(x) {
                let k = choose|k: int| 0 <= k < rest.len() && rest[k] == x;
                assert(dead[k] == x);
            }
            if dead.contains(x) {
                let k = choose|k: int| 0 <= k < dead.len() && dead[k] == x;
                if k < dead.len() - 1 {
                    assert(rest[k] == x);
                }
            }
        }
    }
}

/// Killing one region joins each of its predecessors to each of its
/// successors and leaves no pair that touches it: with `a` and `b` other than
/// `d`, where `a` was paired with `d` and `d` with `b`, `a` is paired with `b`
/// after `d` was killed; and `d` is in no pair.
pub proof fn law_kill_transparent(pairs: Set<(int, int)>, d: int, a: int, b: int)
    ensures
        a != d && b != d && pairs.contains((a, d)) && pairs.contains((d, b)) ==> contract_all(
            pairs,
            seq![d],
        ).contains((a, b)),
        !contract_all(pairs, seq![d]).contains((a, d)),
        !contract_all(pairs, seq![d]).contains((d, b)),
{
    assert(seq![d].drop_last() =~= Seq::<int>::empty());
    assert(contract_all(pairs, seq![d].drop_last()) == pairs);
    assert(seq![d].last() == d);
}

/// The positions that a sequence of handles stands for.
pub open spec fn positions<N: IndexType>(nodes: Seq<N>) -> Seq<int> {
    Seq::new(nodes.len(), |k: int| nodes[k].index())
}

/// A sequence of distinct numbers below `bound` has at most `bound` entries.
pub proof fn lemma_distinct_bounded(s: Seq<int>, bound: int)
    requires
        0 <= bound,
        s.no_duplicates(),
        forall|k: int| 0 <= k < s.len() ==> 0 <= #[trigger] s[k] < bound,
    ensures
        s.len() <= bound,
{
    if s.len() > 0 {
        assert(0 <= s[0] < bound);
        let range = vstd::set_lib::set_int_range(0, bound);
        vstd::set_lib::lemma_int_range(0, bound);
        assert(s.to_set().subset_of(range)) by {
            assert forall|x: int| s.to_set().contains(x) implies range.contains(x) by {
                let k = choose|k: int| 0 <= k < s.len() && s[k] == x;
            }
        }
        vstd::set_lib::lemma_len_subset(s.to_set(), range);
        s.unique_seq_to_set();
    }
}

/// What holds while a depth-first search from `origin` runs. `stack` holds
/// the nodes met and not yet taken up, `found` those taken up, `visited` both.
/// Every node met is reachable, and all that a node in `found` is paired with
/// has been met, except for the last `open` entries of `found`.
#[verifier::opaque]
pub closed spec fn searching(
    pairs: Set<(int, int)>,
    bound: int,
    origin: int,
    stack: Seq<int>,
    found: Seq<int>,
    visited: Set<usize>,
    open: int,
) -> bool {
    &&& 0 <= origin < bound <= usize::MAX
    &&& forall|k: int|
        0 <= k < stack.len() ==> 0 <= #[trigger] stack[k] < bound && visited.contains(
            stack[k] as usize,
        )
    &&& forall|k: int|
        0 <= k < found.len() ==> 0 <= #[trigger] found[k] < bound && visited.contains(
            found[k] as usize,
        )
    &&& forall|x: usize| #[trigger]
        visited.contains(x) ==> reachable(pairs, origin, x as int) && (stack.contains(x as int)
            || found.contains(x as int))
    &&& found.no_duplicates()
    &&& stack.no_duplicates()
    &&& forall|k: int, l: int|
        0 <= k < found.len() && 0 <= l < stack.len() ==> #[trigger] found[k] != #[trigger] stack[l]
    &&& forall|k: int, y: int|
        0 <= k < found.len() - open && #[trigger] pairs.contains((#[trigger] found[k], y)) ==> 0
            <= y < bound && visited.contains(y as usize)
    &&& visited.contains(origin as usize)
    &&& found.len() > 0 ==> found[0] == origin
    &&& found.len() == 0 ==> stack.len() == 1 && stack[0] == origin
}

proof fn lemma_search_start(pairs: Set<(int, int)>, bound: int, origin: int)
    requires
        0 <= origin < bound <= usize::MAX,
    ensures
        searching(
            pairs,
            bound,
            origin,
            seq![origin],
            Seq::empty(),
            Set::<usize>::empty().insert(origin as usize),
            0,
        ),
{
    reveal(searching);
    lemma_reachable_self(pairs, origin);
    assert(seq![origin][0] == origin);
}

#[verifier::rlimit(60)]
proof fn lemma_search_pop(
    pairs: Set<(int, int)>,
    bound: int,
    origin: int,
    stack: Seq<int>,
    found: Seq<int>,
    visited: Set<usize>,
)
    requires
        searching(pairs, bound, origin, stack, found, visited, 0),
        stack.len() > 0,
    ensures
        searching(pairs, bound, origin, stack.drop_last(), found.push(stack.last()), visited, 1),
        found.len() < bound,
        0 <= stack.last() < bound,
        reachable(pairs, origin, stack.last()),
{
    reveal(searching);
    let p = stack.last();
    let stack2 = stack.drop_last();
    let found2 = found.push(p);
    assert(stack[stack.len() - 1] == p);
    assert(visited.contains(p as usize));
    assert forall|i: int, j: int|
        0 <= i < found2.len() && 0 <= j < found2.len() && i != j implies found2[i] != found2[j] by {
        if i < found.len() && j < found.len() {
        } else if i < found.len() {
            assert(found[i] != stack[stack.len() - 1]);
        } else {
            assert(found[j] != stack[stack.len() - 1]);
        }
    }
    assert forall|k: int| 0 <= k < found2.len() implies 0 <= #[trigger] found2[k] < bound
        && visited.contains(found2[k] as usize) by {
        if k < found.len() {
            assert(found2[k] == found[k]);
        }
    }
    lemma_distinct_bounded(found2, bound);
    assert forall|k: int, l: int| 0 <= k < found2.len() && 0 <= l < stack2.len() implies
        #[trigger] found2[k] != #[trigger] stack2[l] by {
        assert(stack2[l] == stack[l]);
        if k < found.len() {
            assert(found2[k] == found[k]);
        }
    }
    assert forall|x: usize| #[trigger] visited.contains(x) implies stack2.contains(x as int)
        || found2.contains(x as int) by {
        if stack.contains(x as int) {
            let k = choose|k: int| 0 <= k < stack.len() && stack[k] == x as int;
            if k == stack.len() - 1 {
                assert(found2[found.len() as int] == x as int);
            } else {
                assert(stack2[k] == x as int);
            }
        } else {
            let k = choose|k: int| 0 <= k < found.len() && found[k] == x as int;
            assert(found2[k] == x as int);
        }
    }
    assert forall|k: int, y: int|
        0 <= k < found2.len() - 1 && #[trigger] pairs.contains(
            (#[trigger] found2[k], y),
        ) implies 0 <= y < bound && visited.contains(y as usize) by {
        assert(found2[k] == found[k]);
    }
    assert forall|k: int| 0 <= k < stack2.len() implies 0 <= #[trigger] stack2[k] < bound
        && visited.contains(stack2[k] as usize) by {
        assert(stack2[k] == stack[k]);
    }
    assert(found2[0] == origin) by {
        if found.len() > 0 {
            assert(found2[0] == found[0]);
        }
    }
}

proof fn lemma_search_push(
    pairs: Set<(int, int)>,
    bound: int,
    origin: int,
    stack: Seq<int>,
    found: Seq<int>,
    visited: Set<usize>,
    q: int,
)
    requires
        searching(pairs, bound, origin, stack, found, visited, 1),
        found.len() > 0,
        pairs.contains((found.last(), q)),
        0 <= q < bound,
        !visited.contains(q as usize),
    ensures
        searching(pairs, bound, origin, stack.push(q), found, visited.insert(q as usize), 1),
{
    reveal(searching);
    let p = found.last();
    let stack2 = stack.push(q);
    let visited2 = visited.insert(q as usize);
    assert(visited.contains(found[found.len() - 1] as usize));
    lemma_reachable_step(pairs, origin, p, q);
    assert forall|k: int| 0 <= k < stack2.len() implies 0 <= #[trigger] stack2[k] < bound
        && visited2.contains(stack2[k] as usize) by {
        if k < stack.len() {
            assert(stack2[k] == stack[k]);
        }
    }
    assert forall|i: int, j: int|
        0 <= i < stack2.len() && 0 <= j < stack2.len() && i != j implies stack2[i] != stack2[j] by {
        if i < stack.len() && j < stack.len() {
        } else if i < stack.len() {
            assert(visited.contains(stack[i] as usize));
        } else {
            assert(visited.contains(stack[j] as usize));
        }
    }
    assert forall|k: int, l: int| 0 <= k < found.len() && 0 <= l < stack2.len() implies
        #[trigger] found[k] != #[trigger] stack2[l] by {
        if l < stack.len() {
            assert(stack2[l] == stack[l]);
        } else {
            assert(visited.contains(found[k] as usize));
        }
    }
    assert forall|x: usize| #[trigger] visited2.contains(x) implies reachable(
        pairs,
        origin,
        x as int,
    ) && (stack2.contains(x as int) || found.contains(x as int)) by {
        if x == q as usize {
            assert(stack2[stack.len() as int] == q);
        } else {
            assert(visited.contains(x));
            if stack.contains(x as int) {
                let k = choose|k: int| 0 <= k < stack.len() && stack[k] == x as int;
                assert(stack2[k] == x as int);
            }
        }
    }
}

proof fn lemma_search_close(
    pairs: Set<(int, int)>,
    bound: int,
    origin: int,
    stack: Seq<int>,
    found: Seq<int>,
    visited: Set<usize>,
)
    requires
        searching(pairs, bound, origin, stack, found, visited, 1),
        found.len() > 0,
        forall|y: int| #[trigger]
            pairs.contains((found.last(), y)) ==> 0 <= y < bound && visited.contains(y as usize),
    ensures
        searching(pairs, bound, origin, stack, found, visited, 0),
{
    reveal(searching);
    assert forall|k: int, y: int|
        0 <= k < found.len() && #[trigger] pairs.contains((#[trigger] found[k], y)) implies 0 <= y
        < bound && visited.contains(y as usize) by {
        if k == found.len() - 1 {
            assert(pairs.contains((found.last(), y)));
        }
    }
}

proof fn lemma_search_done(
    pairs: Set<(int, int)>,
    bound: int,
    origin: int,
    found: Seq<int>,
    visited: Set<usize>,
)
    requires
        searching(pairs, bound, origin, Seq::empty(), found, visited, 0),
    ensures
        found.no_duplicates(),
        found.len() > 0,
        found[0] == origin,
        forall|k: int| 0 <= k < found.len() ==> 0 <= #[trigger] found[k] < bound,
        forall|x: int| found.contains(x) <==> reachable(pairs, origin, x),
{
    reveal(searching);
    let closed = Set::new(|x: int| found.contains(x));
    assert(visited.contains(origin as usize));
    assert(found.contains(origin));
    assert forall|x: int, y: int| closed.contains(x) && #[trigger] pairs.contains(
        (x, y),
    ) implies closed.contains(y) by {
        let k = choose|k: int| 0 <= k < found.len() && found[k] == x;
        assert(pairs.contains((found[k], y)));
        assert(visited.contains(y as usize));
    }
    assert forall|x: int| found.contains(x) <==> reachable(pairs, origin, x) by {
        if found.contains(x) {
            let k = choose|k: int| 0 <= k < found.len() && found[k] == x;
            assert(visited.contains(found[k] as usize));
        }
        if reachable(pairs, origin, x) {
            lemma_reachable_in_closed(pairs, closed, origin, x);
        }
    }
}

/// The nodes reachable from `start`, `start` itself first, each once, in the
/// order in which a depth-first search with an explicit stack takes them up.
pub fn depth_first<F: VecFamily>(relation: &Relation<F>, start: F::Node) -> (found: Vec<F::Node>)
    requires
        relation.wf(),
        relation@.is_node(start.index()),
    ensures
        positions(found@).no_duplicates(),
        forall|x: int|
            positions(found@).contains(x) <==> reachable(relation@.pairs(), start.index(), x),
        found@.len() > 0,
        found@[0].index() == start.index(),
        forall|k: int|
            0 <= k < found@.len() ==> relation@.is_node((#[trigger] found@[k]).index()),
{
    let ghost pairs = relation@.pairs();
    let ghost bound = relation@.num_nodes;
    let ghost origin = start.index();
    let num_nodes = relation.num_nodes();
    let mut found: Vec<F::Node> = Vec::new();
    let mut stack: Vec<F::Node> = Vec::new();
    let mut visited = visited_new();
    stack.push(start);
    visited_insert(&mut visited, start.to_usize());
    proof {
        lemma_search_start(pairs, bound, origin);
        assert(positions(stack@) =~= seq![origin]);
        assert(positions(found@) =~= Seq::empty());
    }
    loop
        invariant
            relation.wf(),
            pairs == relation@.pairs(),
            bound == relation@.num_nodes,
            searching(pairs, bound, origin, positions(stack@), positions(found@), visited@, 0),
            found@.len() <= bound,
        ensures
            stack@.len() == 0,
        decreases bound - found@.len(),
    {
        let ghost stack_before = stack@;
        let ghost found_before = found@;
        let node = match stack.pop() {
            Some(node) => node,
            None => {
                break ;
            },
        };
        let ghost p = node.index();
        found.push(node);
        proof {
            lemma_search_pop(
                pairs,
                bound,
                origin,
                positions(stack_before),
                positions(found_before),
                visited@,
            );
            assert(positions(stack@) =~= positions(stack_before).drop_last());
            assert(positions(found@) =~= positions(found_before).push(p));
            relation.lemma_view_wf();
            relation@.lemma_successors(p);
        }
        let successors = relation.successors(node);
        let mut j: usize = 0;
        while j < successors.len()
            invariant
                relation.wf(),
                pairs == relation@.pairs(),
                bound == relation@.num_nodes,
                found@.len() == found_before.len() + 1,
                found@.len() <= bound,
                positions(found@).last() == p,
                searching(pairs, bound, origin, positions(stack@), positions(found@), visited@, 1),
                j <= successors@.len(),
                successors@.len() == relation@.successors(p).len(),
                forall|i: int|
                    0 <= i < successors@.len() ==> (#[trigger] successors@[i]).index()
                        == relation@.successors(p)[i],
                forall|k: int|
                    0 <= k < relation@.successors(p).len() ==> relation@.is_node(
                        #[trigger] relation@.successors(p)[k],
                    ) && relation@.contains(p, relation@.successors(p)[k]),
                forall|i: int|
                    0 <= i < j ==> visited@.contains(
                        (#[trigger] relation@.successors(p)[i]) as usize,
                    ),
            decreases successors@.len() - j,
        {
            let next = successors[j];
            let ghost q = next.index();
            let ghost stack_old = stack@;
            let ghost visited_old = visited@;
            assert(relation@.successors(p)[j as int] == q);
            assert(relation@.contains(p, q));
            assert(pairs.contains((p, q)));
            if visited_insert(&mut visited, next.to_usize()) {
                stack.push(next);
                proof {
                    lemma_search_push(
                        pairs,
                        bound,
                        origin,
                        positions(stack_old),
                        positions(found@),
                        visited_old,
                        q,
                    );
                    assert(positions(stack@) =~= positions(stack_old).push(q));
                }
            } else {
                assert(visited@ =~= visited_old);
            }
            j = j + 1;
        }
        proof {
            assert forall|y: int| #[trigger] pairs.contains((p, y)) implies 0 <= y < bound
                && visited@.contains(y as usize) by {
                assert(relation@.contains(p, y));
                let i = choose|i: int|
                    0 <= i < relation@.successors(p).len() && relation@.successors(p)[i] == y;
                assert(visited@.contains(relation@.successors(p)[i] as usize));
            }
            lemma_search_close(
                pairs,
                bound,
                origin,
                positions(stack@),
                positions(found@),
                visited@,
            );
        }
    }
    proof {
        assert(positions(stack@) =~= Seq::empty());
        lemma_search_done(pairs, bound, origin, positions(found@), visited@);
        assert forall|k: int| 0 <= k < found@.len() implies relation@.is_node(
            (#[trigger] found@[k]).index(),
        ) by {
            assert(positions(found@)[k] == found@[k].index());
        }
    }
    found
}

} // verus!
