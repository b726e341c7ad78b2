//! Walks down the DAG: the anticone of a block as seen from a set of tips.
use vstd::prelude::*;

use crate::model::{contains_hash, copy_hashes, lemma_push_to_set, BlockHash};
use crate::reachability::{reach_wf, ReachabilityStore, ReachabilityView};
use crate::stores::RelationsStore;

verus! {

/// Each parent of a block of `rel` is itself a block of `rel`.
pub open spec fn parents_closed(rel: Map<BlockHash, (Seq<BlockHash>, Seq<BlockHash>)>) -> bool {
    forall|h: BlockHash, p: BlockHash|
        #[trigger] rel.contains_key(h) && #[trigger] rel[h].0.contains(p) ==> rel.contains_key(p)
}

/// `path` leads along parent edges of `rel` through blocks outside `avoid`.
pub open spec fn is_down_path(
    rel: Map<BlockHash, (Seq<BlockHash>, Seq<BlockHash>)>,
    avoid: Set<BlockHash>,
    path: Seq<BlockHash>,
) -> bool {
    &&& path.len() > 0
    &&& forall|i: int|
        0 <= i < path.len() ==> rel.contains_key(#[trigger] path[i]) && !avoid.contains(path[i])
    &&& forall|i: int| 0 <= i < path.len() - 1 ==> rel[#[trigger] path[i]].0.contains(path[i + 1])
}

/// `x` is reached from one of `tips` along parent edges of `rel` without
/// passing through a block of `avoid`.
pub open spec fn reached_outside(
    rel: Map<BlockHash, (Seq<BlockHash>, Seq<BlockHash>)>,
    avoid: Set<BlockHash>,
    tips: Seq<BlockHash>,
    x: BlockHash,
) -> bool {
    exists|path: Seq<BlockHash>|
        #[trigger] is_down_path(rel, avoid, path) && tips.contains(path[0]) && path.last() == x
}

/// The anticone of `block` as seen from `tips`: the blocks below the tips,
/// reached without passing through the past of `block`, that are not in the
/// future of `block` either.
pub open spec fn anticone_set(
    rel: Map<BlockHash, (Seq<BlockHash>, Seq<BlockHash>)>,
    reach: Map<BlockHash, ReachabilityView>,
    block: BlockHash,
    tips: Seq<BlockHash>,
) -> Set<BlockHash> {
    Set::new(
        |x: BlockHash|
            reached_outside(rel, reach[block].ancestors, tips, x) && !reach[x].ancestors.contains(
                block,
            ),
    )
}

/// The state of the walk: the blocks still to look at `stack` and the blocks
/// seen `v`.
pub open spec fn walk_inv(
    rel: Map<BlockHash, (Seq<BlockHash>, Seq<BlockHash>)>,
    avoid: Set<BlockHash>,
    tips: Seq<BlockHash>,
    stack: Seq<BlockHash>,
    v: Seq<BlockHash>,
) -> bool {
    &&& v.no_duplicates()
    &&& forall|k: int| 0 <= k < v.len() ==> rel.contains_key(#[trigger] v[k])
    &&& forall|k: int| 0 <= k < stack.len() ==> rel.contains_key(#[trigger] stack[k])
    &&& forall|x: BlockHash|
        #[trigger] v.contains(x) && !avoid.contains(x) ==> reached_outside(rel, avoid, tips, x)
    &&& forall|x: BlockHash|
        #[trigger] stack.contains(x) && !avoid.contains(x) ==> reached_outside(rel, avoid, tips, x)
    &&& forall|t: BlockHash| #[trigger] tips.contains(t) ==> v.contains(t) || stack.contains(t)
    &&& forall|x: BlockHash, p: BlockHash|
        #[trigger] v.contains(x) && !avoid.contains(x) && #[trigger] rel[x].0.contains(p)
            ==> v.contains(p) || stack.contains(p)
}

/// A set of blocks that holds the tips, and each parent of each of its blocks
/// outside `avoid`, holds the end of each path from a tip outside `avoid`.
pub proof fn lemma_down_path_seen(
    rel: Map<BlockHash, (Seq<BlockHash>, Seq<BlockHash>)>,
    avoid: Set<BlockHash>,
    tips: Seq<BlockHash>,
    v: Seq<BlockHash>,
    path: Seq<BlockHash>,
)
    requires
        forall|t: BlockHash| #[trigger] tips.contains(t) ==> v.contains(t),
        forall|x: BlockHash, p: BlockHash|
            #[trigger] v.contains(x) && !avoid.contains(x) && #[trigger] rel[x].0.contains(p)
                ==> v.contains(p),
        is_down_path(rel, avoid, path),
        tips.contains(path[0]),
    ensures
        v.contains(path.last()),
    decreases path.len(),
{
    if path.len() > 1 {
        let init = path.drop_last();
        assert(is_down_path(rel, avoid, init)) by {
            assert forall|i: int| 0 <= i < init.len() implies rel.contains_key(#[trigger] init[i])
                && !avoid.contains(init[i]) by {
                assert(init[i] == path[i]);
            }
            assert forall|i: int| 0 <= i < init.len() - 1 implies rel[#[trigger] init[i]].0.contains(
                init[i + 1],
            ) by {
                assert(init[i] == path[i] && init[i + 1] == path[i + 1]);
            }
        }
        lemma_down_path_seen(rel, avoid, tips, v, init);
        let k = path.len() - 2;
        assert(rel[path[k]].0.contains(path[k + 1]));
        assert(!avoid.contains(path[k]));
        assert(init.last() == path[k]);
    }
}

/// A path extended by one more parent edge outside `avoid` is still a path.
pub proof fn lemma_extend_down_path(
    rel: Map<BlockHash, (Seq<BlockHash>, Seq<BlockHash>)>,
    avoid: Set<BlockHash>,
    path: Seq<BlockHash>,
    p: BlockHash,
)
    requires
        is_down_path(rel, avoid, path),
        rel[path.last()].0.contains(p),
        rel.contains_key(p),
        !avoid.contains(p),
    ensures
        is_down_path(rel, avoid, path.push(p)),
{
    let ext = path.push(p);
    assert forall|i: int| 0 <= i < ext.len() implies rel.contains_key(#[trigger] ext[i])
        && !avoid.contains(ext[i]) by {
        if i < path.len() {
            assert(ext[i] == path[i]);
        }
    }
    assert forall|i: int| 0 <= i < ext.len() - 1 implies rel[#[trigger] ext[i]].0.contains(
        ext[i + 1],
    ) by {
        assert(ext[i] == path[i]);
        if i < path.len() - 1 {
            assert(ext[i + 1] == path[i + 1]);
        }
    }
}

/// The anticone of `block` as seen from `tips`, each block once, found by
/// walking down the parent edges of `relations` from the tips and stopping
/// at the past of `block`.
pub fn anticone(
    relations: &RelationsStore,
    reachability: &ReachabilityStore,
    block: BlockHash,
    tips: &Vec<BlockHash>,
) -> (r: Vec<BlockHash>)
    requires
        parents_closed(relations@),
        forall|i: int| 0 <= i < tips@.len() ==> relations@.contains_key(#[trigger] tips@[i]),
        forall|h: BlockHash| #[trigger] relations@.contains_key(h) ==> reachability@.contains_key(h),
        reachability@.contains_key(block),
    ensures
        r@.no_duplicates(),
        r@.to_set() == anticone_set(relations@, reachability@, block, tips@),
{
    let ghost rel = relations@;
    let ghost reach = reachability@;
    let ghost avoid = reach[block].ancestors;
    let ghost ts = tips@;
    let mut stack = copy_hashes(tips);
    let mut visited: Vec<BlockHash> = Vec::new();
    let mut out: Vec<BlockHash> = Vec::new();
    proof {
        relations.lemma_dom_finite();
        assert forall|x: BlockHash| #[trigger] stack@.contains(x) && !avoid.contains(x) implies reached_outside(rel, avoid, ts, x) by {
            let k = choose|k: int| 0 <= k < stack@.len() && stack@[k] == x;
            let path = seq![x];
            assert(is_down_path(rel, avoid, path));
            assert(ts[k] == x);
            assert(ts.contains(path[0]));
        }
        assert forall|k: int| 0 <= k < stack@.len() implies rel.contains_key(#[trigger] stack@[k]) by {
            assert(stack@[k] == ts[k]);
        }
    }
    while stack.len() > 0
        invariant
            rel == relations@,
            reach == reachability@,
            avoid == reach[block].ancestors,
            ts == tips@,
            rel.dom().finite(),
            parents_closed(rel),
            forall|h: BlockHash| #[trigger] rel.contains_key(h) ==> reach.contains_key(h),
            reach.contains_key(block),
            walk_inv(rel, avoid, ts, stack@, visited@),
            out@.no_duplicates(),
            forall|x: BlockHash|
                #[trigger] out@.contains(x) <==> visited@.contains(x) && !avoid.contains(x)
                    && !reach[x].ancestors.contains(block),
        decreases rel.dom().len() - visited@.len(), stack@.len(),
    {
        proof {
            visited@.unique_seq_to_set();
            assert(visited@.to_set().subset_of(rel.dom()));
            vstd::set_lib::lemma_len_subset(visited@.to_set(), rel.dom());
        }
        let ghost s0 = stack@;
        let ghost v0 = visited@;
        let ghost o0 = out@;
        let current = match stack.pop() {
            Some(c) => c,
            None => {
                return out;
            },
        };
        proof {
            assert(s0 == stack@.push(current));
            assert forall|x: BlockHash| #[trigger] s0.contains(x) implies stack@.contains(x) || x == current by {
                let k = choose|k: int| 0 <= k < s0.len() && s0[k] == x;
                if k < stack@.len() {
                    assert(stack@[k] == x);
                }
            }
            assert forall|x: BlockHash| #[trigger] stack@.contains(x) implies s0.contains(x) by {
                let k = choose|k: int| 0 <= k < stack@.len() && stack@[k] == x;
                assert(s0[k] == x);
            }
            assert(s0[s0.len() - 1] == current);
            assert(s0.contains(current));
        }
        if contains_hash(&visited, current) {
            proof {
                assert(walk_inv(rel, avoid, ts, stack@, visited@));
            }
            continue ;
        }
        visited.push(current);
        proof {
            lemma_push_to_set(v0, current);
            assert(visited@ == v0.push(current));
            assert forall|x: BlockHash| #[trigger] visited@.contains(x) <==> v0.contains(x) || x == current by {
                if visited@.contains(x) {
                    let k = choose|k: int| 0 <= k < visited@.len() && visited@[k] == x;
                    if k < v0.len() {
                        assert(v0[k] == x);
                    }
                }
                if v0.contains(x) {
                    let k = choose|k: int| 0 <= k < v0.len() && v0[k] == x;
                    assert(visited@[k] == x);
                }
                if x == current {
                    assert(visited@[v0.len() as int] == x);
                }
            }
            assert(visited@.no_duplicates()) by {
                assert forall|i: int, j: int| 0 <= i < j < visited@.len() implies visited@[i] != visited@[j] by {
                    if j == v0.len() {
                        assert(visited@[i] == v0[i]);
                        assert(v0.contains(v0[i]));
                    } else {
                        assert(visited@[i] == v0[i] && visited@[j] == v0[j]);
                    }
                }
            }
            assert forall|k: int| 0 <= k < visited@.len() implies rel.contains_key(#[trigger] visited@[k]) by {
                if k < v0.len() {
                    assert(visited@[k] == v0[k]);
                }
            }
            visited@.unique_seq_to_set();
            assert(visited@.to_set().subset_of(rel.dom()));
            vstd::set_lib::lemma_len_subset(visited@.to_set(), rel.dom());
        }
        if reachability.is_dag_ancestor_of(current, block) {
            proof {
                assert(avoid.contains(current));
                assert(walk_inv(rel, avoid, ts, stack@, visited@));
                assert forall|x: BlockHash|
                    #[trigger] out@.contains(x) <==> visited@.contains(x) && !avoid.contains(x)
                        && !reach[x].ancestors.contains(block) by {
                }
            }
            continue ;
        }
        proof {
            assert(!avoid.contains(current));
            assert(reached_outside(rel, avoid, ts, current));
        }
        if !reachability.is_dag_ancestor_of(block, current) {
            out.push(current);
            proof {
                assert(out@ == o0.push(current));
                assert(!o0.contains(current));
                assert forall|x: BlockHash| #[trigger] out@.contains(x) <==> o0.contains(x) || x == current by {
                    if out@.contains(x) {
                        let k = choose|k: int| 0 <= k < out@.len() && out@[k] == x;
                        if k < o0.len() {
                            assert(o0[k] == x);
                        }
                    }
                    if o0.contains(x) {
                        let k = choose|k: int| 0 <= k < o0.len() && o0[k] == x;
                        assert(out@[k] == x);
                    }
                    if x == current {
                        assert(out@[o0.len() as int] == x);
                    }
                }
                assert(out@.no_duplicates()) by {
                    assert forall|i: int, j: int| 0 <= i < j < out@.len() implies out@[i] != out@[j] by {
                        if j == o0.len() {
                            assert(out@[i] == o0[i]);
                            assert(o0.contains(o0[i]));
                        } else {
                            assert(out@[i] == o0[i] && out@[j] == o0[j]);
                        }
                    }
                }
            }
        }
        let parents = match relations.get_parents(current) {
            Ok(ps) => ps,
            Err(_) => {
                assert(false);
                return out;
            },
        };
        let ghost s1 = stack@;
        let ghost path0 = choose|path: Seq<BlockHash>|
            #[trigger] is_down_path(rel, avoid, path) && ts.contains(path[0]) && path.last() == current;
        let mut pi: usize = 0;
        while pi < parents.len()
            invariant
                pi <= parents@.len(),
                parents@ == rel[current].0,
                rel.contains_key(current),
                parents_closed(rel),
                is_down_path(rel, avoid, path0),
                ts.contains(path0[0]),
                path0.last() == current,
                stack@.len() == s1.len() + pi,
                forall|k: int| 0 <= k < s1.len() ==> stack@[k] == s1[k],
                forall|k: int| 0 <= k < pi ==> stack@[s1.len() + k] == #[trigger] parents@[k],
            decreases parents@.len() - pi,
        {
            stack.push(parents[pi]);
            pi = pi + 1;
        }
        proof {
            let s2 = stack@;
            assert forall|x: BlockHash| #[trigger] s2.contains(x) <==> s1.contains(x) || parents@.contains(x) by {
                if s2.contains(x) {
                    let k = choose|k: int| 0 <= k < s2.len() && s2[k] == x;
                    if k < s1.len() {
                        assert(s1[k] == x);
                    } else {
                        assert(parents@[k - s1.len()] == x);
                    }
                }
                if s1.contains(x) {
                    let k = choose|k: int| 0 <= k < s1.len() && s1[k] == x;
                    assert(s2[k] == x);
                }
                if parents@.contains(x) {
                    let k = choose|k: int| 0 <= k < parents@.len() && parents@[k] == x;
                    assert(s2[s1.len() + k] == x);
                }
            }
            assert forall|k: int| 0 <= k < s2.len() implies rel.contains_key(#[trigger] s2[k]) by {
                if k < s1.len() {
                    assert(s2[k] == s1[k]);
                } else {
                    assert(s2[k] == parents@[k - s1.len()]);
                    assert(rel[current].0.contains(s2[k]));
                }
            }
            assert forall|x: BlockHash| #[trigger] s2.contains(x) && !avoid.contains(x) implies reached_outside(rel, avoid, ts, x) by {
                if s1.contains(x) {
                } else {
                    assert(parents@.contains(x));
                    assert(rel[path0.last()].0.contains(x));
                    lemma_extend_down_path(rel, avoid, path0, x);
                    let ext = path0.push(x);
                    assert(ext[0] == path0[0]);
                    assert(ext.last() == x);
                }
            }
            assert(walk_inv(rel, avoid, ts, s2, visited@));
            assert forall|x: BlockHash|
                #[trigger] out@.contains(x) <==> visited@.contains(x) && !avoid.contains(x)
                    && !reach[x].ancestors.contains(block) by {
            }
        }
    }
    proof {
        let anti = anticone_set(rel, reach, block, ts);
        assert forall|x: BlockHash| #[trigger] out@.to_set().contains(x) <==> anti.contains(x) by {
            if out@.contains(x) {
                assert(reached_outside(rel, avoid, ts, x));
            }
            if anti.contains(x) {
                let path = choose|path: Seq<BlockHash>|
                    #[trigger] is_down_path(rel, avoid, path) && ts.contains(path[0]) && path.last() == x;
                assert forall|t: BlockHash| #[trigger] ts.contains(t) implies visited@.contains(t) by {
                }
                assert forall|y: BlockHash, p: BlockHash|
                    #[trigger] visited@.contains(y) && !avoid.contains(y) && #[trigger] rel[y].0.contains(p)
                        implies visited@.contains(p) by {
                }
                lemma_down_path_seen(rel, avoid, ts, visited@, path);
                assert(!avoid.contains(path[path.len() - 1]));
            }
        }
        assert(out@.to_set() =~= anti);
    }
    out
}

/// Each parent edge of `rel` leads into the past of its block.
pub open spec fn edges_in_past(
    rel: Map<BlockHash, (Seq<BlockHash>, Seq<BlockHash>)>,
    reach: Map<BlockHash, ReachabilityView>,
) -> bool {
    forall|h: BlockHash, p: BlockHash|
        #[trigger] rel.contains_key(h) && #[trigger] rel[h].0.contains(p) ==> reach.contains_key(h)
            && reach[h].ancestors.contains(p)
}

proof fn lemma_path_in_past(
    rel: Map<BlockHash, (Seq<BlockHash>, Seq<BlockHash>)>,
    reach: Map<BlockHash, ReachabilityView>,
    path: Seq<BlockHash>,
    i: int,
)
    requires
        reach_wf(reach),
        edges_in_past(rel, reach),
        forall|h: BlockHash| #[trigger] rel.contains_key(h) ==> reach.contains_key(h),
        is_down_path(rel, Set::empty(), path),
        0 <= i < path.len(),
    ensures
        reach[path[i]].ancestors.contains(path.last()),
    decreases path.len() - i,
{
    assert(rel.contains_key(path[i]));
    if i < path.len() - 1 {
        lemma_path_in_past(rel, reach, path, i + 1);
        assert(rel[path[i]].0.contains(path[i + 1]));
        assert(reach[path[i]].ancestors.contains(path[i + 1]));
        assert(reach[path[i + 1]].ancestors.subset_of(reach[path[i]].ancestors));
    }
}

/// Where the parent edges of `rel` lead into the past of their blocks, the
/// anticone of `block` seen from `tips` holds every block below one of the
/// tips that is neither in the past nor in the future of `block`.
pub proof fn anticone_holds_every_unordered_block(
    rel: Map<BlockHash, (Seq<BlockHash>, Seq<BlockHash>)>,
    reach: Map<BlockHash, ReachabilityView>,
    block: BlockHash,
    tips: Seq<BlockHash>,
    path: Seq<BlockHash>,
)
    requires
        reach_wf(reach),
        edges_in_past(rel, reach),
        forall|h: BlockHash| #[trigger] rel.contains_key(h) ==> reach.contains_key(h),
        reach.contains_key(block),
        is_down_path(rel, Set::empty(), path),
        tips.contains(path[0]),
        !reach[block].ancestors.contains(path.last()),
        !reach[path.last()].ancestors.contains(block),
    ensures
        anticone_set(rel, reach, block, tips).contains(path.last()),
{
    let avoid = reach[block].ancestors;
    assert forall|i: int| 0 <= i < path.len() implies rel.contains_key(#[trigger] path[i]) && !avoid.contains(
        path[i],
    ) by {
        assert(rel.contains_key(path[i]) && !Set::<BlockHash>::empty().contains(path[i]));
        if avoid.contains(path[i]) {
            lemma_path_in_past(rel, reach, path, i);
            assert(reach[path[i]].ancestors.subset_of(avoid));
        }
    }
    assert(is_down_path(rel, avoid, path));
    assert(reached_outside(rel, avoid, tips, path.last()));
}

} // verus!
