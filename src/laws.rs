//! Laws of the latency model, proved over the contracts of `Cluster`.
use vstd::prelude::*;

use crate::cluster::Cluster;
use crate::model::{
    edge_of, follower_edges_known, follower_latencies, followers, lemma_edge_symmetric,
    lemma_followers_are_followers, lemma_followers_len, lemma_followers_per_region,
    lemma_occurrences_absent, lemma_occurrences_concat, occurrences, quorum_defined,
    quorum_latency, quorum_size, replicas, roles, total, Role,
};
use crate::rank::lemma_kth_monotone;

verus! {

/// When the leader region holds a replica, the roles that `destinations`
/// lists hold exactly one `Leader`, and every other entry, one for each of
/// the remaining `N - 1` replicas, is a `Follower`.
pub proof fn destinations_cover_every_replica(c: &Cluster, leader_region: Seq<char>)
    requires
        c.wf(),
        replicas(c.nodes_spec(), leader_region) >= 1,
    ensures
        occurrences(roles(c.nodes_spec(), leader_region), Role::Leader) == 1,
        roles(c.nodes_spec(), leader_region).len() == total(c.nodes_spec()),
        forall|i: int|
            1 <= i < roles(c.nodes_spec(), leader_region).len() ==> (#[trigger] roles(
                c.nodes_spec(),
                leader_region,
            )[i]) is Follower,
{
    let nodes = c.nodes_spec();
    let fs = followers(nodes, leader_region);
    lemma_followers_len(nodes, leader_region);
    lemma_followers_are_followers(nodes, leader_region);
    lemma_occurrences_absent(fs, Role::Leader);
    lemma_occurrences_concat(seq![Role::Leader], fs, Role::Leader);
    assert(seq![Role::Leader].drop_last() =~= Seq::<Role>::empty());
    assert(occurrences(Seq::<Role>::empty(), Role::Leader) == 0);
    assert(seq![Role::Leader].last() == Role::Leader);
    assert(occurrences(seq![Role::Leader], Role::Leader) == 1);
    assert forall|i: int| 1 <= i < roles(nodes, leader_region).len() implies (#[trigger] roles(
        nodes,
        leader_region,
    )[i]) is Follower by {
        assert(roles(nodes, leader_region)[i] == fs[i - 1]);
    }
}

/// The leader's region appears as a follower once for each of its replicas
/// but the leader's own; every other region once for each of its replicas.
pub proof fn destinations_count_per_region(
    c: &Cluster,
    leader_region: Seq<char>,
    region: Seq<char>,
)
    requires
        c.wf(),
        replicas(c.nodes_spec(), leader_region) >= 1,
    ensures
        region == leader_region ==> occurrences(
            roles(c.nodes_spec(), leader_region),
            Role::Follower(region),
        ) == replicas(c.nodes_spec(), region) - 1,
        region != leader_region ==> occurrences(
            roles(c.nodes_spec(), leader_region),
            Role::Follower(region),
        ) == replicas(c.nodes_spec(), region),
{
    let nodes = c.nodes_spec();
    let fs = followers(nodes, leader_region);
    lemma_followers_per_region(nodes, leader_region, region);
    lemma_occurrences_concat(seq![Role::Leader], fs, Role::Follower(region));
    assert(seq![Role::Leader].drop_last() =~= Seq::<Role>::empty());
    assert(occurrences(Seq::<Role>::empty(), Role::Follower(region)) == 0);
    assert(seq![Role::Leader].last() == Role::Leader);
    assert(occurrences(seq![Role::Leader], Role::Follower(region)) == 0);
}

/// The latency between two regions is the same in both directions.
pub proof fn latency_is_symmetric(c: &Cluster, a: Seq<char>, b: Seq<char>)
    ensures
        edge_of(c.edges_spec(), a, b) == edge_of(c.edges_spec(), b, a),
{
    lemma_edge_symmetric(c.edges_spec(), a, b);
}

/// Lowering the latency of one edge from the leader's region, all else held
/// fixed, never raises the quorum latency.
pub proof fn quorum_latency_monotone(
    before: &Cluster,
    after: &Cluster,
    leader_region: Seq<char>,
    region: Seq<char>,
)
    requires
        before.wf(),
        after.nodes_spec() == before.nodes_spec(),
        quorum_defined(before.nodes_spec(), leader_region),
        follower_edges_known(
            before.edges_spec(),
            leader_region,
            followers(before.nodes_spec(), leader_region),
        ),
        forall|x: Seq<char>, y: Seq<char>|
            !((x == leader_region && y == region) || (x == region && y == leader_region)) ==> (
            #[trigger] edge_of(after.edges_spec(), x, y)) == edge_of(before.edges_spec(), x, y),
        edge_of(before.edges_spec(), leader_region, region) is Some,
        edge_of(after.edges_spec(), leader_region, region) is Some,
        edge_of(after.edges_spec(), leader_region, region)->Some_0 < edge_of(
            before.edges_spec(),
            leader_region,
            region,
        )->Some_0,
    ensures
        follower_edges_known(
            after.edges_spec(),
            leader_region,
            followers(after.nodes_spec(), leader_region),
        ),
        quorum_latency(after.nodes_spec(), after.edges_spec(), leader_region) <= quorum_latency(
            before.nodes_spec(),
            before.edges_spec(),
            leader_region,
        ),
{
    let nodes = before.nodes_spec();
    let fs = followers(nodes, leader_region);
    let lo = follower_latencies(after.edges_spec(), leader_region, fs);
    let hi = follower_latencies(before.edges_spec(), leader_region, fs);
    assert forall|i: int| 0 <= i < fs.len() implies (#[trigger] edge_of(
        after.edges_spec(),
        leader_region,
        fs[i]->Follower_0,
    )) is Some && lo[i] <= hi[i] by {
        let y = fs[i]->Follower_0;
        assert(edge_of(before.edges_spec(), leader_region, y) is Some);
        if y != region {
            assert(edge_of(after.edges_spec(), leader_region, y) == edge_of(
                before.edges_spec(),
                leader_region,
                y,
            ));
        }
    }
    lemma_followers_len(nodes, leader_region);
    lemma_kth_monotone(lo, hi, quorum_size(nodes));
}

} // verus!
