//! The mathematical model of a cluster: replica counts per region, latency
//! edges, and the roles the replicas take once a leader region is chosen.
use vstd::prelude::*;

use crate::rank::kth_smallest;

verus! {

/// A region identifier.
pub type Region = &'static str;

/// What a replica is, seen from the leader: the leader itself, or a
/// follower placed in a region.
pub enum Role {
    Leader,
    Follower(Seq<char>),
}

/// The replica count recorded for region `r`; a later entry for the same
/// region replaces an earlier one.
pub open spec fn count_of(nodes: Seq<(Region, usize)>, r: Seq<char>) -> Option<usize>
    decreases nodes.len(),
{
    if nodes.len() == 0 {
        None
    } else if nodes.last().0@ == r {
        Some(nodes.last().1)
    } else {
        count_of(nodes.drop_last(), r)
    }
}

/// The number of replicas in region `r` (zero for a region that is absent).
pub open spec fn replicas(nodes: Seq<(Region, usize)>, r: Seq<char>) -> nat {
    match count_of(nodes, r) {
        Some(c) => c as nat,
        None => 0,
    }
}

/// The cluster size: the sum of all replica counts.
pub open spec fn total(nodes: Seq<(Region, usize)>) -> nat
    decreases nodes.len(),
{
    if nodes.len() == 0 {
        0
    } else {
        total(nodes.drop_last()) + nodes.last().1 as nat
    }
}

/// No region is listed twice.
pub open spec fn keys_unique(nodes: Seq<(Region, usize)>) -> bool {
    forall|i: int, j: int| 0 <= i < j < nodes.len() ==> nodes[i].0@ != nodes[j].0@
}

/// The latency between `a` and `b`: the last edge given for that unordered
/// pair, in either orientation.
pub open spec fn edge_of(edges: Seq<(Region, Region, u64)>, a: Seq<char>, b: Seq<char>) -> Option<
    u64,
>
    decreases edges.len(),
{
    if edges.len() == 0 {
        None
    } else if (edges.last().0@ == a && edges.last().1@ == b) || (edges.last().0@ == b
        && edges.last().1@ == a) {
        Some(edges.last().2)
    } else {
        edge_of(edges.drop_last(), a, b)
    }
}

/// How many follower seats a region with `c` replicas provides when
/// `leader` holds the leader: the leader's own seat is not a follower.
pub open spec fn seats(r: Seq<char>, c: nat, leader: Seq<char>) -> nat {
    if r == leader && c > 0 {
        (c - 1) as nat
    } else {
        c
    }
}

/// `n` followers in region `r`.
pub open spec fn repeat_follower(r: Seq<char>, n: nat) -> Seq<Role> {
    Seq::new(n, |_i: int| Role::Follower(r))
}

/// The follower seats of the cluster, region by region in the order of `nodes`.
pub open spec fn followers(nodes: Seq<(Region, usize)>, leader: Seq<char>) -> Seq<Role>
    decreases nodes.len(),
{
    if nodes.len() == 0 {
        Seq::empty()
    } else {
        followers(nodes.drop_last(), leader) + repeat_follower(
            nodes.last().0@,
            seats(nodes.last().0@, nodes.last().1 as nat, leader),
        )
    }
}

/// Every replica's role: the leader first, then the followers.
pub open spec fn roles(nodes: Seq<(Region, usize)>, leader: Seq<char>) -> Seq<Role> {
    seq![Role::Leader] + followers(nodes, leader)
}

/// How often `x` occurs in `s`.
pub open spec fn occurrences(s: Seq<Role>, x: Role) -> nat
    decreases s.len(),
{
    if s.len() == 0 {
        0
    } else {
        occurrences(s.drop_last(), x) + if s.last() == x {
            1nat
        } else {
            0nat
        }
    }
}

/// Every follower in `fs` has a known latency to `leader`.
pub open spec fn follower_edges_known(
    edges: Seq<(Region, Region, u64)>,
    leader: Seq<char>,
    fs: Seq<Role>,
) -> bool {
    forall|i: int| 0 <= i < fs.len() ==> (#[trigger] edge_of(edges, leader, fs[i]->Follower_0)) is Some
}

/// The latency from `leader` to each follower in `fs`.
pub open spec fn follower_latencies(
    edges: Seq<(Region, Region, u64)>,
    leader: Seq<char>,
    fs: Seq<Role>,
) -> Seq<u64> {
    Seq::new(fs.len(), |i: int| edge_of(edges, leader, fs[i]->Follower_0)->Some_0)
}

/// The number of follower acknowledgments that, with the leader's own,
/// make a strict majority.
pub open spec fn quorum_size(nodes: Seq<(Region, usize)>) -> nat {
    total(nodes) / 2
}

/// The quorum latency is defined: the leader region holds a replica and the
/// cluster has at least two.
pub open spec fn quorum_defined(nodes: Seq<(Region, usize)>, leader: Seq<char>) -> bool {
    replicas(nodes, leader) >= 1 && total(nodes) >= 2
}

/// The time the leader waits for a write quorum: the `quorum_size`-th
/// smallest of its follower latencies.
pub open spec fn quorum_latency(
    nodes: Seq<(Region, usize)>,
    edges: Seq<(Region, Region, u64)>,
    leader: Seq<char>,
) -> u64 {
    kth_smallest(follower_latencies(edges, leader, followers(nodes, leader)), quorum_size(nodes))
}

pub proof fn lemma_edge_symmetric(edges: Seq<(Region, Region, u64)>, a: Seq<char>, b: Seq<char>)
    ensures
        edge_of(edges, a, b) == edge_of(edges, b, a),
    decreases edges.len(),
{
    if edges.len() > 0 {
        lemma_edge_symmetric(edges.drop_last(), a, b);
    }
}

/// With unique keys, a region's count is the one its entry holds; a region
/// without an entry has none.
pub proof fn lemma_count_of_entry(nodes: Seq<(Region, usize)>, r: Seq<char>)
    ensures
        keys_unique(nodes) ==> forall|j: int|
            0 <= j < nodes.len() && #[trigger] nodes[j].0@ == r ==> count_of(nodes, r) == Some(
                nodes[j].1,
            ),
        (forall|j: int| 0 <= j < nodes.len() ==> #[trigger] nodes[j].0@ != r) ==> count_of(nodes, r)
            is None,
    decreases nodes.len(),
{
    if nodes.len() > 0 {
        let init = nodes.drop_last();
        lemma_count_of_entry(init, r);
        assert forall|j: int| 0 <= j < init.len() implies #[trigger] init[j] == nodes[j] by {}
        if keys_unique(nodes) {
            assert(keys_unique(init));
            assert forall|j: int| 0 <= j < nodes.len() && #[trigger] nodes[j].0@ == r implies count_of(
                nodes,
                r,
            ) == Some(nodes[j].1) by {
                if j < nodes.len() - 1 {
                    assert(init[j].0@ == r);
                }
            }
        }
    }
}

pub proof fn lemma_total_prefix(nodes: Seq<(Region, usize)>, i: int)
    requires
        0 <= i <= nodes.len(),
    ensures
        total(nodes.subrange(0, i)) <= total(nodes),
    decreases nodes.len() - i,
{
    if i < nodes.len() {
        lemma_total_prefix(nodes, i + 1);
        assert(nodes.subrange(0, i + 1).drop_last() =~= nodes.subrange(0, i));
    } else {
        assert(nodes.subrange(0, i) =~= nodes);
    }
}

/// Replacing one entry's count changes the total by the difference.
pub proof fn lemma_total_update(nodes: Seq<(Region, usize)>, j: int, e: (Region, usize))
    requires
        0 <= j < nodes.len(),
    ensures
        total(nodes.update(j, e)) + nodes[j].1 == total(nodes) + e.1,
    decreases nodes.len(),
{
    let up = nodes.update(j, e);
    if j == nodes.len() - 1 {
        assert(up.drop_last() =~= nodes.drop_last());
    } else {
        lemma_total_update(nodes.drop_last(), j, e);
        assert(up.drop_last() =~= nodes.drop_last().update(j, e));
    }
}

/// The follower seats and the leader's own seat add up to the cluster size.
pub proof fn lemma_followers_len(nodes: Seq<(Region, usize)>, leader: Seq<char>)
    requires
        keys_unique(nodes),
    ensures
        followers(nodes, leader).len() + (if replicas(nodes, leader) >= 1 {
            1nat
        } else {
            0nat
        }) == total(nodes),
    decreases nodes.len(),
{
    if nodes.len() > 0 {
        let init = nodes.drop_last();
        assert forall|j: int| 0 <= j < init.len() implies #[trigger] init[j] == nodes[j] by {}
        lemma_followers_len(init, leader);
        if nodes.last().0@ == leader {
            lemma_count_of_entry(init, leader);
            assert forall|j: int| 0 <= j < init.len() implies #[trigger] init[j].0@ != leader by {
                assert(nodes[j].0@ != nodes[nodes.len() - 1].0@);
            }
        }
    }
}

pub proof fn lemma_occurrences_concat(a: Seq<Role>, b: Seq<Role>, x: Role)
    ensures
        occurrences(a + b, x) == occurrences(a, x) + occurrences(b, x),
    decreases b.len(),
{
    if b.len() == 0 {
        assert(a + b =~= a);
    } else {
        assert((a + b).drop_last() =~= a + b.drop_last());
        lemma_occurrences_concat(a, b.drop_last(), x);
    }
}

pub proof fn lemma_occurrences_repeat(r: Seq<char>, n: nat, x: Role)
    ensures
        occurrences(repeat_follower(r, n), x) == if x == Role::Follower(r) {
            n
        } else {
            0
        },
    decreases n,
{
    if n > 0 {
        assert(repeat_follower(r, n).drop_last() =~= repeat_follower(r, (n - 1) as nat));
        lemma_occurrences_repeat(r, (n - 1) as nat, x);
    }
}

/// Each region contributes its full count of follower seats, except the
/// leader's region, which contributes one fewer.
pub proof fn lemma_followers_per_region(nodes: Seq<(Region, usize)>, leader: Seq<char>, r: Seq<char>)
    requires
        keys_unique(nodes),
    ensures
        occurrences(followers(nodes, leader), Role::Follower(r)) == seats(
            r,
            replicas(nodes, r),
            leader,
        ),
    decreases nodes.len(),
{
    if nodes.len() > 0 {
        let init = nodes.drop_last();
        let last = nodes.last();
        assert forall|j: int| 0 <= j < init.len() implies #[trigger] init[j] == nodes[j] by {}
        lemma_followers_per_region(init, leader, r);
        lemma_occurrences_concat(
            followers(init, leader),
            repeat_follower(last.0@, seats(last.0@, last.1 as nat, leader)),
            Role::Follower(r),
        );
        lemma_occurrences_repeat(
            last.0@,
            seats(last.0@, last.1 as nat, leader),
            Role::Follower(r),
        );
        if last.0@ == r {
            lemma_count_of_entry(init, r);
            assert forall|j: int| 0 <= j < init.len() implies #[trigger] init[j].0@ != r by {
                assert(nodes[j].0@ != nodes[nodes.len() - 1].0@);
            }
        }
    }
}

/// Every follower seat is a `Follower`.
pub proof fn lemma_followers_are_followers(nodes: Seq<(Region, usize)>, leader: Seq<char>)
    ensures
        forall|j: int|
            0 <= j < followers(nodes, leader).len() ==> (#[trigger] followers(nodes, leader)[j]) is Follower,
    decreases nodes.len(),
{
    if nodes.len() > 0 {
        lemma_followers_are_followers(nodes.drop_last(), leader);
    }
}

pub proof fn lemma_occurrences_absent(s: Seq<Role>, x: Role)
    requires
        forall|j: int| 0 <= j < s.len() ==> s[j] != x,
    ensures
        occurrences(s, x) == 0,
    decreases s.len(),
{
    if s.len() > 0 {
        lemma_occurrences_absent(s.drop_last(), x);
    }
}

} // verus!
