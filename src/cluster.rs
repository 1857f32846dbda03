//! The cluster topology and the queries the latency model answers over it.
use vstd::prelude::*;

use crate::model::{
    count_of, edge_of, follower_edges_known, followers, keys_unique, lemma_count_of_entry, lemma_followers_are_followers,
    lemma_followers_len, lemma_total_prefix, lemma_total_update, quorum_defined, quorum_latency,
    replicas, roles, seats, repeat_follower, total, Region, Role,
};
use crate::rank::kth_smallest_of;

verus! {

/// A fixed topology: replica counts per region and latencies between regions.
/// Latencies are durations in nanoseconds.
pub struct Cluster {
    nodes_in_region: Vec<(Region, usize)>,
    latency_by_edge: Vec<(Region, Region, u64)>,
}

/// Where a client request is sent: to the leader, or to a follower in a region.
#[derive(Debug, PartialEq, Eq, PartialOrd, Ord, Clone, Copy)]
pub enum Destination {
    Leader,
    Follower(Region),
}

impl View for Destination {
    type V = Role;

    open spec fn view(&self) -> Role {
        match self {
            Destination::Leader => Role::Leader,
            Destination::Follower(r) => Role::Follower(r@),
        }
    }
}

impl Destination {
    /// The region a request to this destination travels to.
    pub open spec fn target(self, leader_region: Region) -> Region {
        match self {
            Destination::Leader => leader_region,
            Destination::Follower(r) => r,
        }
    }
}

/// Why a query over the topology cannot be answered.
#[derive(Debug, PartialEq, Eq, Clone, Copy)]
pub enum ClusterError {
    /// No latency was given for this pair of regions, in either order.
    MissingLatencyEdge(Region, Region),
    /// The cluster has fewer than two replicas, or the leader region has none.
    InvalidQuorumSize,
}

/// The roles of a list of destinations.
pub open spec fn roles_of(ds: Seq<Destination>) -> Seq<Role> {
    ds.map_values(|d: Destination| d@)
}

/// Relies on `<str as PartialEq>::eq`: two string slices are equal exactly
/// when they hold the same characters.
#[verifier::external_body]
pub(crate) fn same_region(a: &str, b: &str) -> (r: bool)
    ensures
        r == (a@ == b@),
{
    a == b
}

impl Cluster {
    /// The region entries, one per region.
    pub closed spec fn nodes_spec(&self) -> Seq<(Region, usize)> {
        self.nodes_in_region@
    }

    /// The latency edges as given.
    pub closed spec fn edges_spec(&self) -> Seq<(Region, Region, u64)> {
        self.latency_by_edge@
    }

    /// Each region is listed once and the cluster size fits in a `usize`.
    pub open spec fn wf(&self) -> bool {
        keys_unique(self.nodes_spec()) && total(self.nodes_spec()) <= usize::MAX
    }

    /// Builds a topology. A region listed twice keeps its last count; an edge
    /// serves both orders of its pair, and a later edge for a pair replaces an
    /// earlier one. Completeness of the edges is not checked here.
    pub fn new(regions: Vec<(Region, usize)>, latency: Vec<(Region, Region, u64)>) -> (c: Self)
        requires
            total(regions@) <= usize::MAX,
        ensures
            c.wf(),
            forall|r: Seq<char>| #[trigger] count_of(c.nodes_spec(), r) == count_of(regions@, r),
            c.edges_spec() == latency@,
    {
        let mut nodes: Vec<(Region, usize)> = Vec::new();
        let mut i: usize = 0;
        while i < regions.len()
            invariant
                i <= regions.len(),
                keys_unique(nodes@),
                total(nodes@) <= total(regions@.subrange(0, i as int)),
                forall|r: Seq<char>| #[trigger]
                    count_of(nodes@, r) == count_of(regions@.subrange(0, i as int), r),
            decreases regions.len() - i,
        {
            let (region, count) = regions[i];
            let mut j: usize = 0;
            while j < nodes.len() && !same_region(nodes[j].0, region)
                invariant
                    j <= nodes.len(),
                    forall|m: int| 0 <= m < j ==> (#[trigger] nodes@[m]).0@ != region@,
                decreases nodes.len() - j,
            {
                j = j + 1;
            }
            let ghost before = nodes@;
            proof {
                assert(regions@.subrange(0, i + 1).drop_last() =~= regions@.subrange(0, i as int));
            }
            if j < nodes.len() {
                nodes.set(j, (region, count));
                proof {
                    lemma_total_update(before, j as int, (region, count));
                    assert forall|a: int, b: int| 0 <= a < b < nodes@.len() implies nodes@[a].0@
                        != nodes@[b].0@ by {
                        assert(before[a].0@ != before[b].0@);
                    }
                    assert forall|r: Seq<char>| #[trigger]
                        count_of(nodes@, r) == count_of(regions@.subrange(0, i + 1), r) by {
                        lemma_count_of_entry(before, r);
                        lemma_count_of_entry(nodes@, r);
                        if r == region@ {
                            assert(nodes@[j as int].0@ == r);
                        } else if exists|m: int| 0 <= m < before.len() && #[trigger] before[m].0@ == r {
                            let m = choose|m: int| 0 <= m < before.len() && #[trigger] before[m].0@ == r;
                            assert(nodes@[m] == before[m]);
                        } else {
                            assert forall|m: int| 0 <= m < nodes@.len() implies #[trigger] nodes@[m].0@
                                != r by {
                                if m != j {
                                    assert(nodes@[m] == before[m]);
                                }
                            }
                        }
                    }
                }
            } else {
                nodes.push((region, count));
                proof {
                    assert(nodes@.drop_last() =~= before);
                    assert forall|a: int, b: int| 0 <= a < b < nodes@.len() implies nodes@[a].0@
                        != nodes@[b].0@ by {
                        if b < before.len() {
                            assert(before[a].0@ != before[b].0@);
                        } else {
                            assert(before[a].0@ != region@);
                        }
                    }
                    assert forall|r: Seq<char>| #[trigger]
                        count_of(nodes@, r) == count_of(regions@.subrange(0, i + 1), r) by {
                        assert(nodes@.last() == (region, count));
                        assert(regions@.subrange(0, i + 1).last() == (region, count));
                        assert(nodes@.drop_last() == before);
                        assert(regions@.subrange(0, i + 1).drop_last() == regions@.subrange(0, i as int));
                        if r != region@ {
                            assert(count_of(nodes@, r) == count_of(before, r));
                            assert(count_of(regions@.subrange(0, i + 1), r) == count_of(regions@.subrange(0, i as int), r));
                        }
                    }
                }
            }
            i = i + 1;
        }
        proof {
            assert(regions@.subrange(0, regions.len() as int) =~= regions@);
        }
        Cluster { nodes_in_region: nodes, latency_by_edge: latency }
    }

    /// The replica count of `region`, if the region is part of the topology.
    pub fn node_count(&self, region: &str) -> (r: Option<usize>)
        ensures
            r == count_of(self.nodes_spec(), region@),
    {
        let mut i: usize = self.nodes_in_region.len();
        assert(self.nodes_in_region@.subrange(0, i as int) =~= self.nodes_in_region@);
        while i > 0
            invariant
                i <= self.nodes_in_region.len(),
                count_of(self.nodes_in_region@, region@) == count_of(
                    self.nodes_in_region@.subrange(0, i as int),
                    region@,
                ),
            decreases i,
        {
            let (r, c) = self.nodes_in_region[i - 1];
            proof {
                assert(self.nodes_in_region@.subrange(0, i as int).drop_last()
                    =~= self.nodes_in_region@.subrange(0, i - 1));
            }
            if same_region(r, region) {
                return Some(c);
            }
            i = i - 1;
        }
        None
    }

    /// The latency between regions `a` and `b`, in either order.
    pub fn latency(&self, a: Region, b: Region) -> (r: Result<u64, ClusterError>)
        ensures
            r == match edge_of(self.edges_spec(), a@, b@) {
                Some(w) => Ok::<u64, ClusterError>(w),
                None => Err(ClusterError::MissingLatencyEdge(a, b)),
            },
    {
        let mut i: usize = self.latency_by_edge.len();
        assert(self.latency_by_edge@.subrange(0, i as int) =~= self.latency_by_edge@);
        while i > 0
            invariant
                i <= self.latency_by_edge.len(),
                edge_of(self.latency_by_edge@, a@, b@) == edge_of(
                    self.latency_by_edge@.subrange(0, i as int),
                    a@,
                    b@,
                ),
            decreases i,
        {
            let (x, y, w) = self.latency_by_edge[i - 1];
            proof {
                assert(self.latency_by_edge@.subrange(0, i as int).drop_last()
                    =~= self.latency_by_edge@.subrange(0, i - 1));
            }
            if (same_region(x, a) && same_region(y, b)) || (same_region(x, b) && same_region(y, a)) {
                return Ok(w);
            }
            i = i - 1;
        }
        Err(ClusterError::MissingLatencyEdge(a, b))
    }

    /// The regions of the topology, each once.
    pub fn regions(&self) -> (r: Vec<Region>)
        ensures
            r@ == self.nodes_spec().map_values(|e: (Region, usize)| e.0),
    {
        let mut out: Vec<Region> = Vec::new();
        let mut i: usize = 0;
        while i < self.nodes_in_region.len()
            invariant
                i <= self.nodes_in_region.len(),
                out@ =~= self.nodes_in_region@.subrange(0, i as int).map_values(
                    |e: (Region, usize)| e.0,
                ),
            decreases self.nodes_in_region.len() - i,
        {
            out.push(self.nodes_in_region[i].0);
            i = i + 1;
        }
        out
    }

    /// Every replica's role once `leader_region` holds the leader: one
    /// `Leader`, then for each region as many followers as it has replicas,
    /// less the leader's own seat in the leader region. Fails when the leader
    /// region has no replica.
    pub fn destinations(&self, leader_region: Region) -> (r: Result<Vec<Destination>, ClusterError>)
        requires
            self.wf(),
        ensures
            match r {
                Ok(ds) => replicas(self.nodes_spec(), leader_region@) >= 1 && roles_of(ds@)
                    == roles(self.nodes_spec(), leader_region@),
                Err(e) => replicas(self.nodes_spec(), leader_region@) == 0 && e
                    == ClusterError::InvalidQuorumSize,
            },
    {
        match self.node_count(leader_region) {
            Some(c) => {
                if c == 0 {
                    return Err(ClusterError::InvalidQuorumSize);
                }
            },
            None => {
                return Err(ClusterError::InvalidQuorumSize);
            },
        }
        let ghost nodes = self.nodes_in_region@;
        let ghost leader = leader_region@;
        let mut destinations: Vec<Destination> = Vec::new();
        destinations.push(Destination::Leader);
        let mut i: usize = 0;
        while i < self.nodes_in_region.len()
            invariant
                i <= nodes.len(),
                nodes == self.nodes_in_region@,
                leader == leader_region@,
                keys_unique(nodes),
                replicas(nodes, leader) >= 1,
                roles_of(destinations@) =~= roles(nodes.subrange(0, i as int), leader),
            decreases nodes.len() - i,
        {
            let (region, count) = self.nodes_in_region[i];
            let mut followers_in_region = count;
            if same_region(region, leader_region) {
                proof {
                    lemma_count_of_entry(nodes, leader);
                }
                followers_in_region = count - 1;
            }
            assert(followers_in_region == seats(region@, count as nat, leader));
            let ghost start = roles_of(destinations@);
            let mut j: usize = 0;
            while j < followers_in_region
                invariant
                    j <= followers_in_region,
                    roles_of(destinations@) =~= start + repeat_follower(region@, j as nat),
                decreases followers_in_region - j,
            {
                let ghost prev = destinations@;
                destinations.push(Destination::Follower(region));
                proof {
                    assert(roles_of(destinations@) =~= roles_of(prev).push(Role::Follower(region@)));
                    assert(repeat_follower(region@, (j + 1) as nat) =~= repeat_follower(
                        region@,
                        j as nat,
                    ).push(Role::Follower(region@)));
                }
                j = j + 1;
            }
            proof {
                assert(nodes.subrange(0, i + 1).drop_last() =~= nodes.subrange(0, i as int));
            }
            i = i + 1;
        }
        proof {
            assert(nodes.subrange(0, nodes.len() as int) =~= nodes);
        }
        Ok(destinations)
    }

    /// The time for the leader in `leader_region` to collect a write quorum:
    /// the `N / 2`-th smallest latency from the leader to its followers, where
    /// `N` is the cluster size. Fails with `InvalidQuorumSize` when the leader
    /// region has no replica or the cluster has fewer than two, and with
    /// `MissingLatencyEdge` when a follower's latency to the leader is unknown.
    pub fn p51_latency_from_leader(&self, leader_region: Region) -> (r: Result<u64, ClusterError>)
        requires
            self.wf(),
        ensures
            r is Ok <==> quorum_defined(self.nodes_spec(), leader_region@) && follower_edges_known(
                self.edges_spec(),
                leader_region@,
                followers(self.nodes_spec(), leader_region@),
            ),
            r == Err::<u64, ClusterError>(ClusterError::InvalidQuorumSize) <==> !quorum_defined(
                self.nodes_spec(),
                leader_region@,
            ),
            match r {
                Ok(v) => v == quorum_latency(self.nodes_spec(), self.edges_spec(), leader_region@),
                Err(ClusterError::MissingLatencyEdge(a, b)) => a == leader_region && edge_of(
                    self.edges_spec(),
                    a@,
                    b@,
                ) is None && followers(self.nodes_spec(), leader_region@).contains(
                    Role::Follower(b@),
                ),
                Err(ClusterError::InvalidQuorumSize) => true,
            },
    {
        let ghost nodes = self.nodes_in_region@;
        let ghost edges = self.latency_by_edge@;
        let ghost leader = leader_region@;
        let ghost fs = followers(nodes, leader);
        let destinations = match self.destinations(leader_region) {
            Ok(ds) => ds,
            Err(e) => {
                return Err(e);
            },
        };
        proof {
            lemma_followers_len(nodes, leader);
            assert(roles_of(destinations@).len() == destinations@.len());
        }
        let mut cluster_size: usize = 0;
        let mut i: usize = 0;
        while i < self.nodes_in_region.len()
            invariant
                i <= nodes.len(),
                nodes == self.nodes_in_region@,
                total(nodes) <= usize::MAX,
                cluster_size == total(nodes.subrange(0, i as int)),
            decreases nodes.len() - i,
        {
            proof {
                assert(nodes.subrange(0, i + 1).drop_last() =~= nodes.subrange(0, i as int));
                lemma_total_prefix(nodes, i + 1);
            }
            cluster_size = cluster_size + self.nodes_in_region[i].1;
            i = i + 1;
        }
        proof {
            assert(nodes.subrange(0, nodes.len() as int) =~= nodes);
        }
        // A write is durable once the leader and this many followers hold it.
        let majority_minus_one = cluster_size / 2;
        if majority_minus_one < 1 {
            return Err(ClusterError::InvalidQuorumSize);
        }
        // Entry 0 is the leader itself; the followers follow it.
        let mut possible_latencies: Vec<u64> = Vec::new();
        let mut i: usize = 1;
        while i < destinations.len()
            invariant
                1 <= i <= destinations.len(),
                destinations.len() == fs.len() + 1,
                roles_of(destinations@) == seq![Role::Leader] + fs,
                possible_latencies.len() == i - 1,
                forall|j: int|
                    0 <= j < i - 1 ==> edge_of(edges, leader, fs[j]->Follower_0) == Some(
                        #[trigger] possible_latencies@[j],
                    ),
                edges == self.latency_by_edge@,
                leader == leader_region@,
                nodes == self.nodes_in_region@,
                majority_minus_one == total(nodes) / 2,
                majority_minus_one >= 1,
                replicas(nodes, leader) >= 1,
                fs == followers(nodes, leader),
            decreases destinations.len() - i,
        {
            assert(roles_of(destinations@)[i as int] == fs[i - 1]);
            assert(destinations@[i as int]@ == fs[i - 1]);
            match destinations[i] {
                Destination::Follower(region) => {
                    match self.latency(leader_region, region) {
                        Ok(w) => {
                            possible_latencies.push(w);
                        },
                        Err(e) => {
                            proof {
                                assert(e == ClusterError::MissingLatencyEdge(leader_region, region));
                                assert(fs[i - 1] == Role::Follower(region@));
                                assert(fs.contains(Role::Follower(region@)));
                                assert(edge_of(edges, leader, fs[i - 1]->Follower_0) is None);
                            }
                            return Err(e);
                        },
                    }
                },
                Destination::Leader => {
                    proof {
                        lemma_followers_are_followers(nodes, leader);
                        assert(fs[i - 1] == Role::Leader);
                    }
                },
            }
            i = i + 1;
        }
        proof {
            assert(possible_latencies@ =~= crate::model::follower_latencies(edges, leader, fs));
            assert forall|j: int| 0 <= j < fs.len() implies (#[trigger] edge_of(
                edges,
                leader,
                fs[j]->Follower_0,
            )) is Some by {
                assert(edge_of(edges, leader, fs[j]->Follower_0) == Some(possible_latencies@[j]));
            }
        }
        Ok(kth_smallest_of(&possible_latencies, majority_minus_one))
    }

    /// The round trip of a client request, in nanoseconds, given that the
    /// quorum latency is defined: each hop counts twice, there and back, and
    /// the leader's quorum latency counts twice as well.
    pub open spec fn response_time(
        &self,
        client_region: Region,
        destination: Destination,
        leader_region: Region,
    ) -> Result<u128, ClusterError> {
        let quorum = quorum_latency(self.nodes_spec(), self.edges_spec(), leader_region@) as int;
        let target = destination.target(leader_region);
        match edge_of(self.edges_spec(), client_region@, target@) {
            None => Err(ClusterError::MissingLatencyEdge(client_region, target)),
            Some(to_destination) => match destination {
                Destination::Leader => Ok((2 * to_destination + 2 * quorum) as u128),
                Destination::Follower(follower_region) => match edge_of(
                    self.edges_spec(),
                    follower_region@,
                    leader_region@,
                ) {
                    None => Err(ClusterError::MissingLatencyEdge(follower_region, leader_region)),
                    Some(to_leader) => Ok(
                        (2 * to_destination + 2 * to_leader + 2 * quorum) as u128,
                    ),
                },
            },
        }
    }

    /// The response time of a request from `client_region` to `destination`
    /// while `leader_region` holds the leader. The quorum latency is computed
    /// first and its failures come first; then the hop from the client to the
    /// destination, then, for a follower, the hop from it to the leader.
    pub fn client_response_time(
        &self,
        client_region: Region,
        destination: Destination,
        leader_region: Region,
    ) -> (r: Result<u128, ClusterError>)
        requires
            self.wf(),
        ensures
            !quorum_defined(self.nodes_spec(), leader_region@) ==> r == Err::<u128, ClusterError>(
                ClusterError::InvalidQuorumSize,
            ),
            quorum_defined(self.nodes_spec(), leader_region@) && !follower_edges_known(
                self.edges_spec(),
                leader_region@,
                followers(self.nodes_spec(), leader_region@),
            ) ==> match r {
                Err(ClusterError::MissingLatencyEdge(a, b)) => a == leader_region && edge_of(
                    self.edges_spec(),
                    a@,
                    b@,
                ) is None && followers(self.nodes_spec(), leader_region@).contains(
                    Role::Follower(b@),
                ),
                _ => false,
            },
            quorum_defined(self.nodes_spec(), leader_region@) && follower_edges_known(
                self.edges_spec(),
                leader_region@,
                followers(self.nodes_spec(), leader_region@),
            ) ==> r == self.response_time(client_region, destination, leader_region),
    {
        let leader_p51 = match self.p51_latency_from_leader(leader_region) {
            Ok(v) => v,
            Err(e) => {
                return Err(e);
            },
        };
        let target = match destination {
            Destination::Leader => leader_region,
            Destination::Follower(follower_region) => follower_region,
        };
        let client_to_destination = match self.latency(client_region, target) {
            Ok(w) => w,
            Err(e) => {
                return Err(e);
            },
        };
        match destination {
            Destination::Leader => Ok(
                2 * (client_to_destination as u128) + 2 * (leader_p51 as u128),
            ),
            Destination::Follower(follower_region) => {
                let follower_to_leader = match self.latency(follower_region, leader_region) {
                    Ok(w) => w,
                    Err(e) => {
                        return Err(e);
                    },
                };
                Ok(
                    2 * (client_to_destination as u128) + 2 * (follower_to_leader as u128) + 2 * (
                    leader_p51 as u128),
                )
            },
        }
    }
}

} // verus!
