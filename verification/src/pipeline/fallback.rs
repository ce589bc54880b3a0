//! Edges within fallback atoms: members match unless they share a retained token.

use crate::columns;
use crate::pipeline::atoms;
use crate::pipeline::atoms::atom_contracts;
use crate::pipeline::catalog;
use crate::pipeline::collectors;
use crate::pipeline::collectors::ScopeCollectors;
use crate::pipeline::compaction;
use crate::pipeline::error::{overflow_error, PipelineError};
use crate::pipeline::error;
use crate::pipeline::pairs;
use crate::pipeline::submission;
use crate::pipeline::tokens;
use crate::pipeline::tokens::{
    atom_members_share_common_retained_token, contract_retained_tokens,
    contracts_share_retained_token,
};
use crate::progress::{
    ProgressCounters, ProgressEvent, ProgressPhase, TotalKind, WorkClass, WorkUnit,
};
use crate::reduce::dsu;
use crate::reduce::dsu::Dsu;
use crate::reduce::forest;
use crate::reduce::forest::canonicalize;
use crate::reduce::graph;
use crate::reduce::graph::Edge;
use crate::snapshot::features::FeatureView;
use crate::sorting;
use vstd::prelude::*;

verus! {

/// Atoms of this many members or more get their edges in order.
pub const PARALLEL_FALLBACK_ATOM_MEMBERS: usize = 2_048;

/// A part of the pairs of an atom: one left member with consecutive right members.
#[derive(Clone, Copy, Debug, PartialEq, Eq, Structural)]
pub struct FallbackPairTask {
    pub atom: usize,
    pub left: usize,
    pub right_begin: usize,
    pub right_end: usize,
}

/// Where the next task begins.
#[derive(Clone, Copy, Debug, PartialEq, Eq, Structural)]
pub struct FallbackPairCursor {
    pub atom: usize,
    pub left: usize,
    pub right: usize,
}

impl Default for FallbackPairCursor {
    fn default() -> (cursor: FallbackPairCursor)
        ensures
            cursor == (FallbackPairCursor { atom: 0, left: 0, right: 0 }),
    {
        FallbackPairCursor { atom: 0, left: 0, right: 0 }
    }
}

/// The first atom from `atom` on with a pair left, where `left` members of `atom` are done.
pub open spec fn open_atom(counts: Seq<usize>, atom: int, left: int) -> int
    decreases counts.len() - atom,
{
    if atom < 0 || atom >= counts.len() {
        counts.len() as int
    } else if left + 1 < counts[atom] {
        atom
    } else {
        open_atom(counts, atom + 1, 0)
    }
}

proof fn lemma_open_atom_bound(counts: Seq<usize>, atom: int, left: int)
    requires
        0 <= atom <= counts.len(),
    ensures
        atom <= open_atom(counts, atom, left) <= counts.len(),
    decreases counts.len() - atom,
{
    if atom < counts.len() && left + 1 >= counts[atom] {
        lemma_open_atom_bound(counts, atom + 1, 0);
    }
}

/// The task that begins at the cursor, if a pair is left.
pub open spec fn task_at(cursor: FallbackPairCursor, counts: Seq<usize>, max_pairs: usize) -> Option<
    FallbackPairTask,
> {
    let atom = open_atom(counts, cursor.atom as int, cursor.left as int);
    if atom >= counts.len() {
        None
    } else {
        let left = if atom == cursor.atom {
            cursor.left as int
        } else {
            0
        };
        let begin = if atom == cursor.atom && cursor.right > left {
            cursor.right as int
        } else {
            left + 1
        };
        let width = if max_pairs > 1 {
            max_pairs as int
        } else {
            1
        };
        let end = if begin + width < counts[atom] {
            begin + width
        } else {
            counts[atom] as int
        };
        Some(
            FallbackPairTask {
                atom: atom as usize,
                left: left as usize,
                right_begin: begin as usize,
                right_end: end as usize,
            },
        )
    }
}

/// Takes the next task: at most `max_pairs` pairs of one left member.
pub fn next_fallback_pair_task(
    cursor: &mut FallbackPairCursor,
    counts: &Vec<usize>,
    max_pairs: usize,
) -> (task: Option<FallbackPairTask>)
    ensures
        task == task_at(*old(cursor), counts@, max_pairs),
        task matches Some(task) ==> final(cursor).atom == task.atom && (if task.right_end
            == counts@[task.atom as int] {
            final(cursor).left == task.left + 1 && (task.left + 2 <= usize::MAX ==> final(cursor).right == task.left + 2)
        } else {
            final(cursor).left == task.left && final(cursor).right == task.right_end
        }),
{
    let width: usize = if max_pairs > 1 {
        max_pairs
    } else {
        1
    };
    while cursor.atom < counts.len()
        invariant
            width == (if max_pairs > 1 {
                max_pairs
            } else {
                1
            }),
            task_at(*old(cursor), counts@, max_pairs) == task_at(*cursor, counts@, max_pairs),
        decreases counts.len() - cursor.atom,
    {
        let members: usize = counts[cursor.atom];
        if cursor.left.saturating_add(1) >= members {
            proof {
                lemma_open_atom_bound(counts@, cursor.atom + 1, 0);
            }
            cursor.atom = cursor.atom + 1;
            cursor.left = 0;
            cursor.right = 0;
            continue;
        }
        let right_begin: usize = if cursor.right > cursor.left + 1 {
            cursor.right
        } else {
            cursor.left + 1
        };
        let wide: usize = right_begin.saturating_add(width);
        let right_end: usize = if wide < members {
            wide
        } else {
            members
        };
        let task = FallbackPairTask {
            atom: cursor.atom,
            left: cursor.left,
            right_begin,
            right_end,
        };
        if right_end == members {
            cursor.left = cursor.left + 1;
            cursor.right = cursor.left.saturating_add(1);
        } else {
            cursor.right = right_end;
        }
        return Some(task);
    }
    None
}

/// Among the first `count` pairs of members, those that share no token, as edges.
pub open spec fn direct_edges(view: FeatureView, members: Seq<u32>, count: int) -> Seq<Edge>
    decreases count,
{
    if count <= 0 {
        Seq::empty()
    } else {
        let pair = pairs::all_pairs(members.len() as int)[count - 1];
        let left = members[pair.0 as int];
        let right = members[pair.1 as int];
        if tokens::share_token(view, left as int, right as int) {
            direct_edges(view, members, count - 1)
        } else {
            direct_edges(view, members, count - 1).push(Edge::between(left, right))
        }
    }
}

/// The number of pairs of members.
pub open spec fn pair_count(members: Seq<u32>) -> int {
    pairs::all_pairs(members.len() as int).len() as int
}

/// The first `count` pairs connect all members.
pub open spec fn joins_all(view: FeatureView, members: Seq<u32>, count: int) -> bool {
    forall|i: int, j: int|
        0 <= i < members.len() && 0 <= j < members.len() ==> graph::connected(
            direct_edges(view, members, count),
            #[trigger] members[i] as int,
            #[trigger] members[j] as int,
        )
}

/// `count` pairs are the fewest that connect all members, or all pairs do not.
pub open spec fn is_scan_end(view: FeatureView, members: Seq<u32>, count: int) -> bool {
    &&& 0 <= count <= pair_count(members)
    &&& count < pair_count(members) ==> joins_all(view, members, count)
    &&& forall|fewer: int| 0 <= fewer < count ==> !(#[trigger] joins_all(view, members, fewer))
}

/// The first member from `at` on without tokens.
pub open spec fn first_tokenless(view: FeatureView, members: Seq<u32>, at: int) -> Option<int>
    decreases members.len() - at,
{
    if at < 0 || at >= members.len() {
        None
    } else if tokens::tokens_of(view, members[at] as int).len() == 0 {
        Some(at)
    } else {
        first_tokenless(view, members, at + 1)
    }
}

/// An edge from member `root` to every other member, in their order.
pub open spec fn star(members: Seq<u32>, root: int) -> Seq<Edge> {
    Seq::new(
        (members.len() - 1) as nat,
        |k: int|
            Edge::between(
                members[root],
                members[if k < root {
                    k
                } else {
                    k + 1
                }],
            ),
    )
}

/// The pairs visited and the forest found among the members of an atom.
pub open spec fn is_atom_forest(
    view: FeatureView,
    members: Seq<u32>,
    visits: int,
    edges: Seq<Edge>,
) -> bool {
    let root = first_tokenless(view, members, 0);
    if members.len() < 2 {
        visits == 0 && edges.len() == 0
    } else if root is Some {
        visits == members.len() - 1 && edges == star(members, root->0)
    } else if tokens::share_common_token(view, members) {
        visits == 0 && edges.len() == 0
    } else {
        let spanning = forest::spanning_edges(direct_edges(view, members, visits));
        is_scan_end(view, members, visits) && edges == (if members.len()
            >= PARALLEL_FALLBACK_ATOM_MEMBERS {
            forest::canonical_edges(spanning)
        } else {
            spanning
        })
    }
}

/// As [`direct_edges`], with members named by position.
spec fn local_edges(view: FeatureView, members: Seq<u32>, count: int) -> Seq<Edge>
    decreases count,
{
    if count <= 0 {
        Seq::empty()
    } else {
        let pair = pairs::all_pairs(members.len() as int)[count - 1];
        if tokens::share_token(view, members[pair.0 as int] as int, members[pair.1 as int] as int) {
            local_edges(view, members, count - 1)
        } else {
            local_edges(view, members, count - 1).push(Edge { left: pair.0, right: pair.1 })
        }
    }
}

spec fn names_of(members: Seq<u32>) -> Seq<int> {
    Seq::new(members.len(), |i: int| members[i] as int)
}

proof fn lemma_local_edges(view: FeatureView, members: Seq<u32>, count: int)
    requires
        sorting::strictly_ascending_u32(members),
        members.len() <= u32::MAX,
        0 <= count <= pair_count(members),
    ensures
        graph::distinct_names(names_of(members)),
        graph::all_within(local_edges(view, members, count), members.len() as int),
        graph::relabels(
            direct_edges(view, members, count),
            local_edges(view, members, count),
            names_of(members),
        ),
        forest::spanning_edges(direct_edges(view, members, count)).len() == forest::spanning_edges(
            local_edges(view, members, count),
        ).len(),
    decreases count,
{
    let names = names_of(members);
    assert(graph::distinct_names(names));
    if count > 0 {
        lemma_local_edges(view, members, count - 1);
        let pair = pairs::all_pairs(members.len() as int)[count - 1];
        pairs::lemma_pairs_ordered(members.len() as int, members.len() as int, count - 1);
        let before = direct_edges(view, members, count - 1);
        let local_before = local_edges(view, members, count - 1);
        let after = direct_edges(view, members, count);
        let local = local_edges(view, members, count);
        if after != before {
            assert(members[pair.0 as int] < members[pair.1 as int]);
            assert forall|k: int| 0 <= k < after.len() implies #[trigger] graph::relabels_at(
                after,
                local,
                names,
                k,
            ) by {
                if k < before.len() {
                    assert(graph::relabels_at(before, local_before, names, k));
                    assert(after[k] == before[k]);
                    assert(local[k] == local_before[k]);
                }
            }
            graph::lemma_relabel_connectivity(
                before,
                local_before,
                names,
                pair.0 as int,
                pair.1 as int,
            );
            assert(after.drop_last() =~= before);
            assert(local.drop_last() =~= local_before);
            assert(after.last() == (Edge {
                left: members[pair.0 as int],
                right: members[pair.1 as int],
            }));
            assert(local.last() == (Edge { left: pair.0, right: pair.1 }));
        } else {
            if local.len() != local_before.len() {
                assert(after.len() == before.len() + 1);
            }
        }
    }
}

/// All members are connected exactly where the forest is a tree.
proof fn lemma_joined_members(view: FeatureView, members: Seq<u32>, count: int)
    requires
        sorting::strictly_ascending_u32(members),
        0 < members.len() <= u32::MAX,
        0 <= count <= pair_count(members),
    ensures
        joins_all(view, members, count) <==> forest::spanning_edges(
            direct_edges(view, members, count),
        ).len() == members.len() - 1,
{
    let direct = direct_edges(view, members, count);
    let local = local_edges(view, members, count);
    let names = names_of(members);
    lemma_local_edges(view, members, count);
    dsu::lemma_spanning_tree(local, members.len() as u32);
    if joins_all(view, members, count) {
        assert forall|a: int, b: int| 0 <= a < members.len() && 0 <= b < members.len() implies
            #[trigger] graph::connected(local, a, b) by {
            assert(graph::connected(direct, members[a] as int, members[b] as int));
            graph::lemma_relabel_connectivity(direct, local, names, a, b);
        }
    }
    if forest::spanning_edges(direct).len() == members.len() - 1 {
        assert forall|i: int, j: int| 0 <= i < members.len() && 0 <= j < members.len() implies
            graph::connected(direct, #[trigger] members[i] as int, #[trigger] members[j] as int) by {
            assert(graph::connected(local, i, j));
            graph::lemma_relabel_connectivity(direct, local, names, i, j);
        }
    }
}

/// Every direct edge joins two members that share no token.
proof fn lemma_direct_edge(view: FeatureView, members: Seq<u32>, count: int, k: int) -> (pair: (
    int,
    int,
))
    requires
        members.len() <= u32::MAX,
        0 <= count <= pair_count(members),
        0 <= k < direct_edges(view, members, count).len(),
    ensures
        0 <= pair.0 < pair.1 < members.len(),
        direct_edges(view, members, count)[k] == Edge::between(
            members[pair.0],
            members[pair.1],
        ),
        !tokens::share_token(view, members[pair.0] as int, members[pair.1] as int),
    decreases count,
{
    let at = pairs::all_pairs(members.len() as int)[count - 1];
    let before = direct_edges(view, members, count - 1);
    pairs::lemma_pairs_ordered(members.len() as int, members.len() as int, count - 1);
    if k < before.len() {
        lemma_direct_edge(view, members, count - 1, k)
    } else {
        (at.0 as int, at.1 as int)
    }
}

/// Every pair that shares no token is a direct edge.
proof fn lemma_direct_holds(view: FeatureView, members: Seq<u32>, count: int, i: int, j: int)
    requires
        0 <= i < j < members.len() <= u32::MAX,
        pairs::pair_position(i, j, members.len() as int) < count <= pair_count(members),
        !tokens::share_token(view, members[i] as int, members[j] as int),
    ensures
        direct_edges(view, members, count).contains(Edge::between(members[i], members[j])),
    decreases count,
{
    let n = members.len() as int;
    let at = pairs::pair_position(i, j, n);
    let edge = Edge::between(members[i], members[j]);
    pairs::lemma_pair_position(i, j, n);
    let all = direct_edges(view, members, count);
    if count - 1 == at {
        assert(all.last() == edge);
        assert(all[all.len() - 1] == edge);
    } else {
        lemma_direct_holds(view, members, count - 1, i, j);
        let before = direct_edges(view, members, count - 1);
        let k = before.index_of(edge);
        assert(all[k] == edge);
    }
}

proof fn lemma_direct_prefix(view: FeatureView, members: Seq<u32>, count: int, more: int)
    requires
        0 <= count <= more,
    ensures
        direct_edges(view, members, count).len() <= direct_edges(view, members, more).len(),
        direct_edges(view, members, count) == direct_edges(view, members, more).take(
            direct_edges(view, members, count).len() as int,
        ),
    decreases more - count,
{
    let some = direct_edges(view, members, count);
    if count < more {
        lemma_direct_prefix(view, members, count, more - 1);
        let middle = direct_edges(view, members, more - 1);
        assert(direct_edges(view, members, more).take(some.len() as int) =~= middle.take(
            some.len() as int,
        ));
    } else {
        assert(some.take(some.len() as int) =~= some);
    }
}

proof fn lemma_tokenless_shares_none(view: FeatureView, a: int, b: int)
    requires
        tokens::tokens_of(view, a).len() == 0,
    ensures
        !tokens::share_token(view, a, b),
        !tokens::share_token(view, b, a),
{
}

proof fn lemma_first_tokenless(view: FeatureView, members: Seq<u32>, at: int)
    requires
        0 <= at,
        first_tokenless(view, members, at) is Some,
    ensures
        at <= first_tokenless(view, members, at)->0 < members.len(),
        tokens::tokens_of(
            view,
            members[first_tokenless(view, members, at)->0] as int,
        ).len() == 0,
    decreases members.len() - at,
{
    if tokens::tokens_of(view, members[at] as int).len() != 0 {
        lemma_first_tokenless(view, members, at + 1);
    }
}

/// The forest of an atom connects the same members as all pairs without a common token.
pub proof fn lemma_atom_forest_connectivity(
    view: FeatureView,
    members: Seq<u32>,
    visits: int,
    edges: Seq<Edge>,
)
    requires
        sorting::strictly_ascending_u32(members),
        members.len() <= u32::MAX,
        is_atom_forest(view, members, visits, edges),
    ensures
        graph::same_connectivity(
            edges,
            direct_edges(view, members, pair_count(members)),
        ),
{
    let n = members.len() as int;
    let all = direct_edges(view, members, pair_count(members));
    let root = first_tokenless(view, members, 0);
    pairs::lemma_all_pairs_len(n);
    if n < 2 {
        assert(n * (n - 1) == 0) by (nonlinear_arith)
            requires
                n == 0 || n == 1,
        ;
        assert(all =~= edges);
    } else if root is Some {
        lemma_first_tokenless(view, members, 0);
        let r = root->0;
        assert forall|k: int| 0 <= k < edges.len() implies graph::connected(
            all,
            (#[trigger] edges[k]).left as int,
            edges[k].right as int,
        ) by {
            let i = if k < r {
                k
            } else {
                k + 1
            };
            assert(edges[k] == Edge::between(members[r], members[i]));
            lemma_tokenless_shares_none(view, members[r] as int, members[i] as int);
            let (low, high) = if i < r {
                (i, r)
            } else {
                (r, i)
            };
            pairs::lemma_pair_position(low, high, n);
            lemma_direct_holds(view, members, pair_count(members), low, high);
            let at = all.index_of(Edge::between(members[low], members[high]));
            assert(members[low] < members[high]);
            assert(all[at] == edges[k]);
            graph::lemma_edge_connects(all, at);
        }
        assert forall|k: int| 0 <= k < all.len() implies graph::connected(
            edges,
            (#[trigger] all[k]).left as int,
            all[k].right as int,
        ) by {
            let pair = lemma_direct_edge(view, members, pair_count(members), k);
            assert(members[pair.0] < members[pair.1]);
            lemma_star_connects(members, r, pair.0);
            lemma_star_connects(members, r, pair.1);
            graph::lemma_connected_symmetric(edges, members[r] as int, members[pair.0] as int);
            graph::lemma_connected_transitive(
                edges,
                members[pair.0] as int,
                members[r] as int,
                members[pair.1] as int,
            );
        }
        submission::lemma_mutual(edges, all);
    } else if tokens::share_common_token(view, members) {
        let token = choose|token: u32| #[trigger] tokens::all_hold(view, members, token);
        if all.len() > 0 {
            let pair = lemma_direct_edge(view, members, pair_count(members), 0);
            let left = members[pair.0] as int;
            let right = members[pair.1] as int;
            assert(tokens::tokens_of(view, left).contains(token));
            assert(tokens::tokens_of(view, right).contains(token));
            assert(tokens::share_token(view, left, right));
        }
        assert(all =~= edges);
    } else {
        let direct = direct_edges(view, members, visits);
        let spanning = forest::spanning_edges(direct);
        forest::lemma_spanning_connectivity(direct);
        assert(graph::same_connectivity(spanning, direct));
        forest::lemma_canonical_exists(spanning);
        forest::lemma_canonical_connectivity(spanning, forest::canonical_edges(spanning));
        if visits < pair_count(members) {
            lemma_direct_prefix(view, members, visits, pair_count(members));
            assert forall|k: int| 0 <= k < direct.len() implies graph::connected(
                all,
                (#[trigger] direct[k]).left as int,
                direct[k].right as int,
            ) by {
                assert(all.take(direct.len() as int)[k] == all[k]);
                graph::lemma_edge_connects(all, k);
            }
            assert forall|k: int| 0 <= k < all.len() implies graph::connected(
                direct,
                (#[trigger] all[k]).left as int,
                all[k].right as int,
            ) by {
                let pair = lemma_direct_edge(view, members, pair_count(members), k);
                assert(members[pair.0] < members[pair.1]);
                assert(graph::connected(
                    direct,
                    members[pair.0] as int,
                    members[pair.1] as int,
                ));
            }
            submission::lemma_mutual(direct, all);
        }
        assert forall|a: int, b: int| #[trigger] graph::connected(edges, a, b)
            <==> graph::connected(all, a, b) by {
            assert(graph::connected(edges, a, b) <==> graph::connected(spanning, a, b));
            assert(graph::connected(spanning, a, b) <==> graph::connected(direct, a, b));
            assert(graph::connected(direct, a, b) <==> graph::connected(all, a, b));
        }
    }
}

proof fn lemma_star_connects(members: Seq<u32>, root: int, i: int)
    requires
        0 <= root < members.len(),
        0 <= i < members.len(),
    ensures
        graph::connected(star(members, root), members[root] as int, members[i] as int),
{
    let edges = star(members, root);
    if i == root {
        graph::lemma_connected_reflexive(edges, members[root] as int);
    } else {
        let k = if i < root {
            i
        } else {
            i - 1
        };
        assert(edges[k] == Edge::between(members[root], members[i]));
        graph::lemma_edge_connects(edges, k);
        if edges[k].left != members[root] {
            graph::lemma_connected_symmetric(edges, edges[k].left as int, edges[k].right as int);
        }
    }
}

/// The edges of [`star`].
fn star_edges(members: &[u32], root: usize) -> (edges: Vec<Edge>)
    requires
        root < members@.len(),
    ensures
        edges@ == star(members@, root as int),
{
    let mut edges: Vec<Edge> = Vec::new();
    let mut i: usize = 0;
    while i < members.len()
        invariant
            i <= members@.len(),
            root < members@.len(),
            edges@.len() == (if i > root {
                i - 1
            } else {
                i as int
            }),
            forall|k: int|
                0 <= k < edges@.len() ==> #[trigger] edges@[k] == star(members@, root as int)[k],
        decreases members.len() - i,
    {
        if i != root {
            edges.push(Edge::new(members[root], members[i]));
        }
        i = i + 1;
    }
    assert(edges@ =~= star(members@, root as int));
    edges
}

/// Scans the pairs of members until all are connected.
#[verifier::loop_isolation(false)]
fn scan_pairs(features: &FeatureView, members: &[u32]) -> (result: (u64, Vec<Edge>))
    requires
        tokens::tokens_sorted(*features),
        tokens::are_contracts(*features, members@),
        sorting::strictly_ascending_u32(members@),
        2 <= members@.len() <= u32::MAX,
    ensures
        is_scan_end(*features, members@, result.0 as int),
        result.1@ == forest::spanning_edges(
            direct_edges(*features, members@, result.0 as int),
        ),
{
    let ghost view = *features;
    let ghost list = members@;
    let ghost n = members@.len() as int;
    let count: usize = members.len();
    let mut sets = Dsu::new(count as u32);
    let mut components: usize = count;
    let mut visits: u64 = 0;
    let mut edges: Vec<Edge> = Vec::new();
    let mut left: usize = 0;
    proof {
        pairs::lemma_all_pairs_len(n);
        assert(n * (n - 1) < 0x1_0000_0000 * 0x1_0000_0000) by (nonlinear_arith)
            requires
                2 <= n <= u32::MAX,
        ;
        lemma_joined_members(view, list, 0);
        assert(direct_edges(view, list, 0) =~= Seq::<Edge>::empty());
    }
    while left < count
        invariant
            left <= count,
            visits == pairs::pairs_below(left as int, n).len(),
            visits <= pair_count(list),
            sets.parent@.len() == n,
            dsu::represents(sets.parent@, local_edges(view, list, visits as int)),
            sets.wf(),
            edges@ == forest::spanning_edges(direct_edges(view, list, visits as int)),
            components == n - edges@.len(),
            components >= 2,
            forall|fewer: int|
                0 <= fewer <= visits ==> !(#[trigger] joins_all(view, list, fewer)),
        decreases count - left,
    {
        let mut right: usize = left + 1;
        while right < count
            invariant
                left < right <= count,
                visits == pairs::pairs_below(left as int, n).len() + (right - left - 1),
                visits <= pair_count(list),
                sets.parent@.len() == n,
                dsu::represents(sets.parent@, local_edges(view, list, visits as int)),
                sets.wf(),
                edges@ == forest::spanning_edges(direct_edges(view, list, visits as int)),
                components == n - edges@.len(),
                components >= 2,
                forall|fewer: int|
                    0 <= fewer <= visits ==> !(#[trigger] joins_all(view, list, fewer)),
            decreases count - right,
        {
            let ghost before = direct_edges(view, list, visits as int);
            let ghost local_before = local_edges(view, list, visits as int);
            let ghost done = visits as int;
            proof {
                pairs::lemma_pair_position(left as int, right as int, n);
                lemma_local_edges(view, list, done);
            }
            visits = visits + 1;
            assert(list[left as int] < features.contract_count());
            assert(list[right as int] < features.contract_count());
            if !contracts_share_retained_token(features, members[left], members[right]) {
                let edge = Edge { left: left as u32, right: right as u32 };
                let ghost after = direct_edges(view, list, visits as int);
                proof {
                    assert(after == before.push(Edge::between(
                        list[left as int],
                        list[right as int],
                    )));
                    assert(local_edges(view, list, visits as int) == local_before.push(edge));
                    assert(after.drop_last() =~= before);
                    graph::lemma_relabel_connectivity(
                        before,
                        local_before,
                        names_of(list),
                        left as int,
                        right as int,
                    );
                    assert(list[left as int] < list[right as int]);
                }
                let joined = sets.union(edge);
                if joined {
                    edges.push(Edge::new(members[left], members[right]));
                    components = components - 1;
                    proof {
                        lemma_joined_members(view, list, visits as int);
                    }
                    if components == 1 {
                        return (visits, edges);
                    }
                } else {
                    proof {
                        lemma_joined_members(view, list, visits as int);
                    }
                }
            } else {
                proof {
                    assert(direct_edges(view, list, visits as int) == before);
                    lemma_joined_members(view, list, visits as int);
                }
            }
            right = right + 1;
        }
        left = left + 1;
        assert(visits == pairs::pairs_below(left as int, n).len());
    }
    (visits, edges)
}

/// The pairs visited and the forest found among the members of an atom.
pub fn fallback_atom_forest(features: &FeatureView, atom: u32) -> (result: (u64, Vec<Edge>))
    requires
        tokens::tokens_sorted(*features),
        atoms::atoms_sorted(*features),
        atom < atoms::atom_count(*features),
    ensures
        is_atom_forest(
            *features,
            atoms::members_of(*features, atom as int),
            result.0 as int,
            result.1@,
        ),
{
    let members = atom_contracts(features, atom);
    if members.len() < 2 {
        return (0, Vec::new());
    }
    let mut at: usize = 0;
    while at < members.len()
        invariant
            at <= members@.len(),
            2 <= members@.len() <= u32::MAX,
            tokens::tokens_sorted(*features),
            members@ == atoms::members_of(*features, atom as int),
            tokens::are_contracts(*features, members@),
            first_tokenless(*features, members@, 0) == first_tokenless(
                *features,
                members@,
                at as int,
            ),
        decreases members.len() - at,
    {
        assert(members@[at as int] < features.contract_count());
        if contract_retained_tokens(features, members[at]).len() == 0 {
            let count: usize = members.len();
            return ((count - 1) as u64, star_edges(members, at));
        }
        at = at + 1;
    }
    if atom_members_share_common_retained_token(features, members) {
        return (0, Vec::new());
    }
    let (visits, edges) = scan_pairs(features, members);
    if members.len() >= PARALLEL_FALLBACK_ATOM_MEMBERS {
        let (_, ordered) = canonicalize(&edges, true);
        return (visits, ordered);
    }
    (visits, edges)
}

/// The number of pairs visited among the members of an atom.
pub open spec fn atom_visits(view: FeatureView, members: Seq<u32>) -> int {
    if members.len() < 2 {
        0
    } else if first_tokenless(view, members, 0) is Some {
        members.len() - 1
    } else if tokens::share_common_token(view, members) {
        0
    } else {
        choose|count: int| is_scan_end(view, members, count)
    }
}

/// The pairs visited in the first `count` atoms.
pub open spec fn visit_total(view: FeatureView, count: int) -> int
    decreases count,
{
    if count <= 0 {
        0
    } else {
        visit_total(view, count - 1) + atom_visits(view, atoms::members_of(view, count - 1))
    }
}

/// The pairs of members of the first `count` atoms.
pub open spec fn pair_total(view: FeatureView, count: int) -> int
    decreases count,
{
    if count <= 0 {
        0
    } else {
        pair_total(view, count - 1) + pair_count(atoms::members_of(view, count - 1))
    }
}

/// The pairs of members without a common token in the first `count` atoms, as edges.
pub open spec fn fallback_edges(view: FeatureView, count: int) -> Seq<Edge>
    decreases count,
{
    if count <= 0 {
        Seq::empty()
    } else {
        let members = atoms::members_of(view, count - 1);
        fallback_edges(view, count - 1) + direct_edges(view, members, pair_count(members))
    }
}

proof fn lemma_atom_visits(view: FeatureView, members: Seq<u32>, visits: int, edges: Seq<Edge>)
    requires
        is_atom_forest(view, members, visits, edges),
        members.len() <= u32::MAX,
    ensures
        visits == atom_visits(view, members),
        0 <= visits <= pair_count(members),
{
    let n = members.len() as int;
    pairs::lemma_all_pairs_len(n);
    if n >= 2 {
        assert(n * (n - 1) >= 2 * (n - 1)) by (nonlinear_arith)
            requires
                n >= 2,
        ;
        if first_tokenless(view, members, 0) is None && !tokens::share_common_token(view, members) {
            let other = choose|count: int| is_scan_end(view, members, count);
            assert(is_scan_end(view, members, visits));
            assert(is_scan_end(view, members, other));
            if other < visits {
                assert(!joins_all(view, members, other));
            } else if visits < other {
                assert(!joins_all(view, members, visits));
            }
        }
    }
}

proof fn lemma_pair_total_grows(view: FeatureView, count: int, more: int)
    requires
        0 <= count <= more,
    ensures
        pair_total(view, count) <= pair_total(view, more),
    decreases more - count,
{
    if count < more {
        lemma_pair_total_grows(view, count, more - 1);
    }
}

/// A report on fallback pairs.
pub open spec fn is_fallback_report(event: ProgressEvent, completed: int, total: int) -> bool {
    event == (ProgressEvent {
        phase: ProgressPhase::FallbackPairs,
        completed: completed as u64,
        total: Some(total as u64),
        unit: WorkUnit::Pairs,
        work_class: WorkClass::Generic,
        total_kind: TotalKind::UpperBound,
        counters: ProgressCounters {
            candidates: 0,
            scored: 0,
            expanded: 0,
            matched: event.counters.matched,
            groups: 0,
        },
    })
}

/// Adds the pairs of `members` members.
pub fn checked_add_pairs(total: u64, members: u64) -> (result: Result<u64, PipelineError>)
    ensures
        members * (members - 1) > u64::MAX || total + members * (members - 1) / 2 > u64::MAX ==> (
        result matches Err(e) && e@ == error::overflow_fault()),
        members * (members - 1) <= u64::MAX && total + members * (members - 1) / 2 <= u64::MAX ==> (
        result matches Ok(sum) && sum == total + members * (members - 1) / 2),
{
    let fewer: u64 = members.saturating_sub(1);
    proof {
        if members == 0 {
            assert(members * fewer == 0 && members * (members - 1) == 0) by (nonlinear_arith)
                requires
                    members == 0,
            ;
        }
    }
    match members.checked_mul(fewer) {
        Some(product) => match total.checked_add(product / 2) {
            Some(sum) => Ok(sum),
            None => Err(overflow_error()),
        },
        None => Err(overflow_error()),
    }
}

fn fallback_report(completed: u64, total: u64, matched: u64) -> (event: ProgressEvent)
    ensures
        is_fallback_report(event, completed as int, total as int),
        event.counters.matched == matched,
{
    let counters = ProgressCounters { candidates: 0, scored: 0, expanded: 0, matched, groups: 0 };
    ProgressEvent::determinate(
        ProgressPhase::FallbackPairs,
        completed,
        total,
        WorkUnit::Pairs,
        counters,
    ).with_plan(WorkClass::Generic, TotalKind::UpperBound)
}

/// The pairs of members of all atoms.
fn count_fallback_pairs(features: &FeatureView) -> (result: Result<u64, PipelineError>)
    requires
        atoms::atoms_sorted(*features),
    ensures
        error::is_checked(result, pair_total(*features, atoms::atom_count(*features))),
{
    let ghost view = *features;
    let count: usize = features.fallback_atom_offsets.len() - 1;
    let mut total: u64 = 0;
    let mut atom: usize = 0;
    while atom < count
        invariant
            atom <= count,
            view == *features,
            count == atoms::atom_count(view),
            atoms::atoms_sorted(view),
            total == pair_total(view, atom as int),
        decreases count - atom,
    {
        proof {
            atoms::lemma_members_known(view, atom as int);
            columns::lemma_row_bounds(
                view.fallback_atom_offsets@,
                view.fallback_atom_contracts@.len(),
                atom as int,
            );
            let members = atoms::members_of(view, atom as int);
            let n = members.len() as int;
            pairs::lemma_all_pairs_len(n);
            assert(n * (n - 1) < 0x1_0000_0000 * 0x1_0000_0000) by (nonlinear_arith)
                requires
                    0 <= n <= u32::MAX,
            ;
            lemma_pair_total_grows(view, atom + 1, count as int);
        }
        let members: u64 = features.fallback_atom_offsets[atom + 1]
            - features.fallback_atom_offsets[atom];
        total = checked_add_pairs(total, members)?;
        atom = atom + 1;
    }
    Ok(total)
}

proof fn lemma_direct_edges_grow(view: FeatureView, members: Seq<u32>, count: int, more: int)
    requires
        count <= more,
    ensures
        direct_edges(view, members, count).len() <= direct_edges(view, members, more).len(),
    decreases more - count,
{
    if count < more {
        lemma_direct_edges_grow(view, members, count, more - 1);
    }
}

proof fn lemma_fallback_edges_grow(view: FeatureView, count: int, more: int)
    requires
        count <= more,
    ensures
        fallback_edges(view, count).len() <= fallback_edges(view, more).len(),
    decreases more - count,
{
    if count < more {
        lemma_fallback_edges_grow(view, count, more - 1);
    }
}

/// Members without direct edges have no forest.
proof fn lemma_forest_none(view: FeatureView, members: Seq<u32>, visits: int, edges: Seq<Edge>)
    requires
        sorting::strictly_ascending_u32(members),
        members.len() <= u32::MAX,
        is_atom_forest(view, members, visits, edges),
        direct_edges(view, members, pair_count(members)).len() == 0,
    ensures
        edges.len() == 0,
{
    let all = direct_edges(view, members, pair_count(members));
    lemma_atom_forest_connectivity(view, members, visits, edges);
    if edges.len() > 0 {
        let edge = edges[0];
        graph::lemma_edge_connects(edges, 0);
        assert(all =~= Seq::<Edge>::empty());
        assert(graph::connected(all, edge.left as int, edge.right as int));
        graph::lemma_connected_empty(edge.left as int, edge.right as int);
        if first_tokenless(view, members, 0) is Some {
            lemma_first_tokenless(view, members, 0);
            let root = first_tokenless(view, members, 0)->0;
            let other = if 0 < root {
                0int
            } else {
                1int
            };
            assert(edge == Edge::between(members[root], members[other]));
        } else {
            let some = direct_edges(view, members, visits);
            lemma_direct_edges_grow(view, members, visits, pair_count(members));
            let spanning = forest::spanning_edges(some);
            forest::lemma_canonical_exists(spanning);
            assert(forest::canonical_edges(spanning).len() > 0
                ==> forest::canonical_edges(spanning).contains(
                forest::canonical_edges(spanning)[0],
            ));
        }
    }
}

/// The forest found among the members of an atom.
pub open spec fn atom_forest(view: FeatureView, members: Seq<u32>) -> Seq<Edge> {
    choose|edges: Seq<Edge>| is_atom_forest(view, members, atom_visits(view, members), edges)
}

/// The forests of the first `count` atoms, one after the other.
pub open spec fn forest_edges(view: FeatureView, count: int) -> Seq<Edge>
    decreases count,
{
    if count <= 0 {
        Seq::empty()
    } else {
        forest_edges(view, count - 1) + atom_forest(view, atoms::members_of(view, count - 1))
    }
}

proof fn lemma_forest_edges_grow(view: FeatureView, count: int, more: int)
    requires
        count <= more,
    ensures
        submission::begins(forest_edges(view, more), forest_edges(view, count)),
    decreases more - count,
{
    let all = forest_edges(view, more);
    let few = forest_edges(view, count);
    submission::lemma_begins(all, Seq::empty());
    if count < more {
        let most = forest_edges(view, more - 1);
        lemma_forest_edges_grow(view, count, more - 1);
        submission::lemma_begins(most, atom_forest(view, atoms::members_of(view, more - 1)));
        submission::lemma_begins_more(all, most, few);
    }
}

proof fn lemma_atom_forest_unique(
    view: FeatureView,
    members: Seq<u32>,
    visits: int,
    edges: Seq<Edge>,
)
    requires
        is_atom_forest(view, members, visits, edges),
        members.len() <= u32::MAX,
    ensures
        atom_forest(view, members) == edges,
{
    lemma_atom_visits(view, members, visits, edges);
    assert(is_atom_forest(view, members, atom_visits(view, members), edges));
    assert(is_atom_forest(
        view,
        members,
        atom_visits(view, members),
        atom_forest(view, members),
    ));
    assert(atom_forest(view, members) =~= edges);
}

/// Submits the forests of all atoms. Returns the number of visited pairs.
#[verifier::loop_isolation(false)]
pub fn append_fallback_atom_edges(
    features: &FeatureView,
    collectors: &mut ScopeCollectors,
    chain_count: usize,
    reports: &mut Vec<ProgressEvent>,
) -> (result: Result<u64, PipelineError>)
    requires
        tokens::tokens_sorted(*features),
        atoms::atoms_sorted(*features),
        atoms::atoms_have_one_chain(*features),
        atoms::chains_known(*features, chain_count as int),
        atoms::atom_count(*features) <= u32::MAX,
        old(collectors).wf(),
        submission::covers_chains(*old(collectors), chain_count as int),
    ensures
        final(collectors).wf(),
        final(collectors).continues(*old(collectors)),
        !old(collectors).is_cancelled() && pair_total(*features, atoms::atom_count(*features))
            <= u64::MAX ==> (final(collectors).is_cancelled() <==> result is Err),
        ({
            let count = atoms::atom_count(*features);
            let total = pair_total(*features, count);
            let before = old(reports)@;
            if total > u64::MAX {
                *final(collectors) == *old(collectors) && final(reports)@ == before && (
                result matches Err(e) && e@ == error::overflow_fault())
            } else {
                match result {
                    Ok(completed) => {
                        &&& completed == visit_total(*features, count)
                        &&& collectors::counts_more(
                            final(collectors).accepted(),
                            old(collectors).accepted(),
                            forest_edges(*features, count).len(),
                        )
                        &&& submission::gains(
                            *final(collectors),
                            *old(collectors),
                            forest_edges(*features, count),
                            features.contract_chain@,
                            chain_count as int,
                        )
                        &&& submission::gains(
                            *final(collectors),
                            *old(collectors),
                            fallback_edges(*features, count),
                            features.contract_chain@,
                            chain_count as int,
                        )
                        &&& final(reports)@.len() == before.len() + count + 1
                        &&& final(reports)@.take(before.len() as int) == before
                        &&& forall|k: int|
                            0 <= k <= count ==> #[trigger] reports_visits(
                                final(reports)@,
                                before.len() + k,
                                visit_total(*features, k),
                                total,
                            )
                    },
                    Err(e) => submission::is_refusal(
                        e@,
                        *old(collectors),
                        *final(collectors),
                        forest_edges(*features, count),
                        features.contract_chain@,
                        chain_count as int,
                    ),
                }
            }
        }),
        catalog::extends(final(reports)@, old(reports)@),
        pair_total(*features, atoms::atom_count(*features)) <= u64::MAX && fallback_edges(
            *features,
            atoms::atom_count(*features),
        ).len() == 0 ==> result is Ok && *final(collectors) == *old(collectors),
{
    let ghost view = *features;
    let ghost chains = features.contract_chain@;
    let ghost c = chain_count as int;
    let ghost start = *collectors;
    let ghost before = reports@;
    proof {
        collectors::lemma_continues_on(start, start, start);
        assert(reports@.take(before.len() as int) =~= before);
    }
    let total: u64 = count_fallback_pairs(features)?;
    let count: usize = features.fallback_atom_offsets.len() - 1;
    reports.push(fallback_report(0, total, 0));
    let mut completed: u64 = 0;
    let mut atom: usize = 0;
    proof {
        submission::lemma_gains_none(start, chains, c);
        assert(fallback_edges(view, 0) =~= Seq::<Edge>::empty());
        assert(forest_edges(view, 0) =~= Seq::<Edge>::empty());
        assert(reports@.take(before.len() as int) =~= before);
        assert(reports_visits(reports@, before.len() as int, 0, total as int));
    }
    while atom < count
        invariant
            atom <= count,
            collectors.wf(),
            collectors.continues(start),
            collectors.is_cancelled() == start.is_cancelled(),
            fallback_edges(view, count as int).len() == 0 ==> *collectors == start,
            collectors::counts_more(
                collectors.accepted(),
                start.accepted(),
                forest_edges(view, atom as int).len(),
            ),
            submission::gains(*collectors, start, forest_edges(view, atom as int), chains, c),
            completed == visit_total(view, atom as int),
            completed <= pair_total(view, atom as int),
            submission::gains(*collectors, start, fallback_edges(view, atom as int), chains, c),
            reports@.len() == before.len() + atom + 1,
            reports@.take(before.len() as int) == before,
            forall|k: int|
                0 <= k <= atom ==> #[trigger] reports_visits(
                    reports@,
                    before.len() + k,
                    visit_total(view, k),
                    total as int,
                ),
        decreases count - atom,
    {
        let ghost middle = *collectors;
        let ghost members = atoms::members_of(view, atom as int);
        let ghost direct = direct_edges(view, members, pair_count(members));
        let own = atom_contracts(features, atom as u32);
        let (work, edges) = fallback_atom_forest(features, atom as u32);
        proof {
            lemma_atom_visits(view, members, work as int, edges@);
            lemma_atom_forest_connectivity(view, members, work as int, edges@);
            lemma_forest_of_one_chain(view, atom as int, work as int, edges@);
            submission::lemma_intra_same_scopes(edges@, direct, chains, c);
            assert forall|k: int| 0 <= k < edges@.len() implies (#[trigger] edges@[k]).left
                < chains.len() && edges@[k].right < chains.len() && chains[edges@[k].left as int]
                < c && chains[edges@[k].right as int] < c by {
                lemma_forest_edge(view, members, work as int, edges@, k);
                let l = members.index_of(edges@[k].left);
                let r = members.index_of(edges@[k].right);
                assert(members[l] < view.contract_count());
                assert(members[r] < view.contract_count());
                assert(chains[members[l] as int] < c);
                assert(chains[members[r] as int] < c);
            }
            collectors::lemma_continues(middle, start);
            lemma_pair_total_grows(view, atom + 1, count as int);
            lemma_fallback_edges_grow(view, atom + 1, count as int);
            lemma_forest_edges_grow(view, atom + 1, count as int);
            lemma_atom_forest_unique(view, members, work as int, edges@);
            if direct.len() == 0 {
                lemma_forest_none(view, members, work as int, edges@);
            }
        }
        let pushed = collectors.push_edges_by_chain(
            features.contract_chain.as_slice(),
            chain_count,
            &edges,
        );
        proof {
            collectors::lemma_continues_on(*collectors, middle, start);
        }
        if let Err(error) = pushed {
            proof {
                if !start.is_cancelled() {
                    submission::lemma_push_stops(
                        *collectors,
                        middle,
                        edges@,
                        chains,
                        c,
                        error@,
                    );
                    submission::lemma_stops_on_later(
                        *collectors,
                        middle,
                        start,
                        forest_edges(view, atom as int),
                        edges@,
                        chains,
                        c,
                        error@,
                    );
                    submission::lemma_stops_on_longer(
                        *collectors,
                        start,
                        forest_edges(view, atom + 1),
                        forest_edges(view, count as int),
                        chains,
                        c,
                        error@,
                    );
                }
            }
            return Err(error);
        }
        proof {
            submission::lemma_gains_parts(*collectors, middle, edges@, chains, c);
            submission::lemma_gains_more(
                *collectors,
                middle,
                start,
                forest_edges(view, atom as int),
                edges@,
                chains,
                c,
            );
            submission::lemma_gains_same(*collectors, middle, edges@, direct, chains, c);
            submission::lemma_gains_more(
                *collectors,
                middle,
                start,
                fallback_edges(view, atom as int),
                direct,
                chains,
                c,
            );
        }
        completed = completed + work;
        let ghost earlier = reports@;
        reports.push(fallback_report(completed, total, collectors.accepted_edges()));
        atom = atom + 1;
        proof {
            assert(reports@.take(before.len() as int) =~= earlier.take(before.len() as int));
            assert forall|k: int| 0 <= k <= atom implies #[trigger] reports_visits(
                reports@,
                before.len() + k,
                visit_total(view, k),
                total as int,
            ) by {
                if k < atom {
                    assert(reports_visits(
                        earlier,
                        before.len() + k,
                        visit_total(view, k),
                        total as int,
                    ));
                }
            }
        }
    }
    Ok(completed)
}

/// The report at `at` says how many pairs have been visited.
pub open spec fn reports_visits(
    reports: Seq<ProgressEvent>,
    at: int,
    completed: int,
    total: int,
) -> bool {
    is_fallback_report(reports[at], completed, total)
}

/// The endpoints of forest edges are members.
proof fn lemma_forest_edge(
    view: FeatureView,
    members: Seq<u32>,
    visits: int,
    edges: Seq<Edge>,
    k: int,
)
    requires
        is_atom_forest(view, members, visits, edges),
        members.len() <= u32::MAX,
        0 <= k < edges.len(),
    ensures
        members.contains(edges[k].left),
        members.contains(edges[k].right),
{
    let root = first_tokenless(view, members, 0);
    if root is Some {
        lemma_first_tokenless(view, members, 0);
        let r = root->0;
        let i = if k < r {
            k
        } else {
            k + 1
        };
        assert(edges[k] == Edge::between(members[r], members[i]));
        assert(members.contains(members[r]) && members.contains(members[i]));
    } else {
        let direct = direct_edges(view, members, visits);
        let spanning = forest::spanning_edges(direct);
        let edge = edges[k];
        assert(edges.contains(edge));
        if members.len() >= PARALLEL_FALLBACK_ATOM_MEMBERS {
            forest::lemma_canonical_exists(spanning);
            assert(spanning.contains(edge));
        }
        forest::lemma_spanning_members(direct, edge);
        let at = direct.index_of(edge);
        let pair = lemma_direct_edge(view, members, visits, at);
        assert(members.contains(members[pair.0]) && members.contains(members[pair.1]));
    }
}

/// Edges between members of an atom of one chain stay within the chain.
proof fn lemma_forest_of_one_chain(view: FeatureView, atom: int, visits: int, edges: Seq<Edge>)
    requires
        atoms::atoms_have_one_chain(view),
        0 <= atom < atoms::atom_count(view),
        is_atom_forest(view, atoms::members_of(view, atom), visits, edges),
        atoms::members_of(view, atom).len() <= u32::MAX,
    ensures
        forall|k: int|
            0 <= k < edges.len() ==> compaction::is_intra(
                view.contract_chain@,
                #[trigger] edges[k],
            ),
        ({
            let members = atoms::members_of(view, atom);
            let direct = direct_edges(view, members, pair_count(members));
            forall|k: int|
                0 <= k < direct.len() ==> compaction::is_intra(
                    view.contract_chain@,
                    #[trigger] direct[k],
                )
        }),
{
    let members = atoms::members_of(view, atom);
    let direct = direct_edges(view, members, pair_count(members));
    assert forall|k: int| 0 <= k < edges.len() implies compaction::is_intra(
        view.contract_chain@,
        #[trigger] edges[k],
    ) by {
        lemma_forest_edge(view, members, visits, edges, k);
        assert(atoms::same_chain(
            view,
            members,
            members.index_of(edges[k].left),
            members.index_of(edges[k].right),
        ));
    }
    assert forall|k: int| 0 <= k < direct.len() implies compaction::is_intra(
        view.contract_chain@,
        #[trigger] direct[k],
    ) by {
        let pair = lemma_direct_edge(view, members, pair_count(members), k);
        assert(atoms::same_chain(view, members, pair.0, pair.1));
        assert(atoms::same_chain(view, members, pair.1, pair.0));
    }
}

/// A pair of an atom's members is still to come: in a later atom, a later row, or further on in
/// the cursor's row.
pub open spec fn is_to_come(
    cursor: FallbackPairCursor,
    counts: Seq<usize>,
    atom: int,
    i: int,
    j: int,
) -> bool {
    &&& 0 <= atom < counts.len()
    &&& 0 <= i < j < counts[atom]
    &&& atom > cursor.atom || (atom == cursor.atom && (i > cursor.left || (i == cursor.left && j
        >= cursor.right)))
}

/// The cursor stands in its row, before the end.
pub open spec fn is_in_row(cursor: FallbackPairCursor, counts: Seq<usize>) -> bool {
    cursor.atom < counts.len() ==> cursor.right <= cursor.left + 1 || cursor.right
        < counts[cursor.atom as int] || cursor.left + 1 >= counts[cursor.atom as int]
}

proof fn lemma_open_atom(counts: Seq<usize>, atom: int, left: int)
    requires
        0 <= atom,
        0 <= left,
    ensures
        ({
            let opened = open_atom(counts, atom, left);
            &&& opened >= counts.len() || atom <= opened
            &&& opened < counts.len() ==> counts[opened] > 1 && (opened == atom ==> left + 1
                < counts[opened])
            &&& opened >= counts.len() || opened > atom ==> atom >= counts.len() || left + 1
                >= counts[atom]
            &&& forall|k: int|
                atom < k < opened && k < counts.len() ==> #[trigger] counts[k] < 2
        }),
    decreases counts.len() - atom,
{
    if atom < counts.len() && left + 1 >= counts[atom] {
        lemma_open_atom(counts, atom + 1, 0);
    }
}

/// Tasks hand out every pair of an atom's members once: a task takes pairs of one row that were
/// still to come, at most as many as asked for, and all others stay to come. There is none
/// exactly if no pair is left.
pub proof fn lemma_tasks_take_pairs_once(
    before: FallbackPairCursor,
    after: FallbackPairCursor,
    counts: Seq<usize>,
    max_pairs: usize,
    atom: int,
    i: int,
    j: int,
)
    requires
        counts.len() <= usize::MAX,
        is_in_row(before, counts),
        task_at(before, counts, max_pairs) matches Some(task) ==> after.atom == task.atom && (
        if task.right_end == counts[task.atom as int] {
            after.left == task.left + 1 && (task.left + 2 <= usize::MAX ==> after.right == task.left
                + 2)
        } else {
            after.left == task.left && after.right == task.right_end
        }),
    ensures
        match task_at(before, counts, max_pairs) {
            None => !is_to_come(before, counts, atom, i, j),
            Some(task) => {
                let taken = atom == task.atom && i == task.left && task.right_begin <= j
                    < task.right_end;
                &&& task.right_begin < task.right_end
                &&& task.right_end - task.right_begin <= max_pairs || task.right_end
                    - task.right_begin == 1
                &&& task.right_end - task.right_begin >= max_pairs || task.right_end
                    == counts[task.atom as int]
                &&& is_in_row(after, counts)
                &&& taken ==> is_to_come(before, counts, atom, i, j)
                &&& is_to_come(after, counts, atom, i, j) <==> is_to_come(before, counts, atom, i, j)
                    && !taken
            },
        },
{
    lemma_open_atom(counts, before.atom as int, before.left as int);
}

} // verus!
