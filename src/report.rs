//! Response times over every (client, destination, leader) combination, and
//! their summary.
use vstd::prelude::*;

use crate::cluster::{roles_of, same_region, Cluster, ClusterError, Destination};
use crate::model::{
    edge_of, follower_edges_known, followers, quorum_defined, roles, Region, Role,
};

verus! {

/// One row of the report: client region, destination, leader region, and
/// the response time in nanoseconds.
pub type Path = (Region, Destination, Region, u128);

/// The regions a route names, as character sequences, with the role in between.
pub type Route = (Seq<char>, Role, Seq<char>);

/// The route of a row.
pub open spec fn route_of(p: Path) -> Route {
    (p.0@, p.1@, p.2@)
}

/// The routes of a list of rows.
pub open spec fn routes_of(ps: Seq<Path>) -> Seq<Route> {
    ps.map_values(|p: Path| route_of(p))
}

/// The routes from `client` to every replica while `leader` leads.
pub open spec fn block(nodes: Seq<(Region, usize)>, client: Seq<char>, leader: Seq<char>) -> Seq<
    Route,
> {
    roles(nodes, leader).map_values(|d: Role| (client, d, leader))
}

/// The routes from `client` for each leader region in turn.
pub open spec fn row(nodes: Seq<(Region, usize)>, client: Seq<char>, leaders: Seq<Seq<char>>) -> Seq<
    Route,
>
    decreases leaders.len(),
{
    if leaders.len() == 0 {
        Seq::empty()
    } else {
        row(nodes, client, leaders.drop_last()) + block(nodes, client, leaders.last())
    }
}

/// The routes from each client region in turn, over every leader region.
pub open spec fn table(
    nodes: Seq<(Region, usize)>,
    clients: Seq<Seq<char>>,
    leaders: Seq<Seq<char>>,
) -> Seq<Route>
    decreases clients.len(),
{
    if clients.len() == 0 {
        Seq::empty()
    } else {
        table(nodes, clients.drop_last(), leaders) + row(nodes, clients.last(), leaders)
    }
}

/// The regions of the topology, as character sequences.
pub open spec fn region_names(c: &Cluster) -> Seq<Seq<char>> {
    c.nodes_spec().map_values(|e: (Region, usize)| e.0@)
}

/// Both hops of a request along `d` are known.
pub open spec fn hops_known(c: &Cluster, client: Seq<char>, d: Role, leader: Seq<char>) -> bool {
    match d {
        Role::Leader => edge_of(c.edges_spec(), client, leader) is Some,
        Role::Follower(f) => edge_of(c.edges_spec(), client, f) is Some && edge_of(
            c.edges_spec(),
            f,
            leader,
        ) is Some,
    }
}

/// Every request from `client` while `leader` leads has a response time.
pub open spec fn answerable(c: &Cluster, client: Seq<char>, leader: Seq<char>) -> bool {
    &&& quorum_defined(c.nodes_spec(), leader)
    &&& follower_edges_known(c.edges_spec(), leader, followers(c.nodes_spec(), leader))
    &&& forall|j: int|
        0 <= j < roles(c.nodes_spec(), leader).len() ==> hops_known(
            c,
            client,
            #[trigger] roles(c.nodes_spec(), leader)[j],
            leader,
        )
}

/// The sum of the response times of `ps`.
pub open spec fn total_time(ps: Seq<Path>) -> nat
    decreases ps.len(),
{
    if ps.len() == 0 {
        0
    } else {
        total_time(ps.drop_last()) + ps.last().3 as nat
    }
}

proof fn lemma_total_time_prefix(ps: Seq<Path>, i: int)
    requires
        0 <= i <= ps.len(),
    ensures
        total_time(ps.subrange(0, i)) <= total_time(ps),
    decreases ps.len() - i,
{
    if i < ps.len() {
        lemma_total_time_prefix(ps, i + 1);
        assert(ps.subrange(0, i + 1).drop_last() =~= ps.subrange(0, i));
    } else {
        assert(ps.subrange(0, i) =~= ps);
    }
}

/// A response time cut down to whole milliseconds.
pub fn round_duration_ms(nanos: u128) -> (r: u128)
    ensures
        r == nanos - nanos % 1_000_000,
{
    nanos - nanos % 1_000_000
}

/// The shortest, the longest and the mean response time of `paths`.
pub fn avg_paths(paths: &Vec<Path>) -> (r: (u128, u128, u128))
    requires
        paths.len() > 0,
        total_time(paths@) <= u128::MAX,
    ensures
        exists|i: int| 0 <= i < paths.len() && paths@[i].3 == r.0,
        exists|i: int| 0 <= i < paths.len() && paths@[i].3 == r.1,
        forall|i: int| 0 <= i < paths.len() ==> r.0 <= #[trigger] paths@[i].3 <= r.1,
        r.2 == total_time(paths@) / paths.len() as nat,
{
    let mut sum: u128 = 0;
    let mut min: u128 = paths[0].3;
    let mut max: u128 = paths[0].3;
    let mut i: usize = 0;
    while i < paths.len()
        invariant
            0 < paths.len(),
            i <= paths.len(),
            total_time(paths@) <= u128::MAX,
            sum == total_time(paths@.subrange(0, i as int)),
            exists|m: int| 0 <= m < paths.len() && paths@[m].3 == min,
            exists|m: int| 0 <= m < paths.len() && paths@[m].3 == max,
            min <= paths@[0].3 <= max,
            forall|m: int| 0 <= m < i ==> min <= #[trigger] paths@[m].3 <= max,
        decreases paths.len() - i,
    {
        let d = paths[i].3;
        proof {
            assert(paths@.subrange(0, i + 1).drop_last() =~= paths@.subrange(0, i as int));
            lemma_total_time_prefix(paths@, i + 1);
        }
        sum = sum + d;
        if d < min {
            min = d;
        }
        if d > max {
            max = d;
        }
        i = i + 1;
    }
    proof {
        assert(paths@.subrange(0, paths.len() as int) =~= paths@);
    }
    (min, max, sum / paths.len() as u128)
}

/// A request has a response time exactly when both its hops are known.
proof fn lemma_response_time_ok(c: &Cluster, client: Region, d: Destination, leader: Region)
    ensures
        c.response_time(client, d, leader) is Ok <==> hops_known(c, client@, d@, leader@),
{
}

/// Every (client, destination, leader) row: for each client region, for each
/// leader region, for each destination under that leader.
pub fn all_paths(cluster: &Cluster) -> (r: Result<Vec<Path>, ClusterError>)
    requires
        cluster.wf(),
    ensures
        r is Ok <==> forall|a: int, b: int|
            0 <= a < region_names(cluster).len() && 0 <= b < region_names(cluster).len()
                ==> answerable(cluster, region_names(cluster)[a], region_names(cluster)[b]),
        r matches Ok(ps) ==> routes_of(ps@) == table(
            cluster.nodes_spec(),
            region_names(cluster),
            region_names(cluster),
        ),
        r matches Ok(ps) ==> forall|i: int|
            0 <= i < ps.len() ==> Ok::<u128, ClusterError>(#[trigger] ps@[i].3) == cluster.response_time(
                ps@[i].0,
                ps@[i].1,
                ps@[i].2,
            ),
{
    let ghost nodes = cluster.nodes_spec();
    let ghost names = region_names(cluster);
    let regions = cluster.regions();
    assert forall|m: int| 0 <= m < regions.len() implies (#[trigger] regions@[m])@ == names[m] by {}
    let mut paths: Vec<Path> = Vec::new();
    let mut a: usize = 0;
    while a < regions.len()
        invariant
            cluster.wf(),
            regions.len() == names.len(),
            forall|m: int| 0 <= m < regions.len() ==> (#[trigger] regions@[m])@ == names[m],
            nodes == cluster.nodes_spec(),
            names == region_names(cluster),
            a <= regions.len(),
            routes_of(paths@) =~= table(nodes, names.subrange(0, a as int), names),
            forall|i: int|
                0 <= i < paths.len() ==> Ok::<u128, ClusterError>(#[trigger] paths@[i].3) == cluster.response_time(
                    paths@[i].0,
                    paths@[i].1,
                    paths@[i].2,
                ),
            forall|x: int, y: int|
                0 <= x < a && 0 <= y < names.len() ==> #[trigger] answerable(
                    cluster,
                    names[x],
                    names[y],
                ),
        decreases regions.len() - a,
    {
        let client_region = regions[a];
        let ghost done = table(nodes, names.subrange(0, a as int), names);
        let mut b: usize = 0;
        while b < regions.len()
            invariant
                cluster.wf(),
                regions.len() == names.len(),
                forall|m: int| 0 <= m < regions.len() ==> (#[trigger] regions@[m])@ == names[m],
                nodes == cluster.nodes_spec(),
                names == region_names(cluster),
                a < regions.len(),
                b <= regions.len(),
                client_region@ == names[a as int],
                routes_of(paths@) =~= done + row(nodes, names[a as int], names.subrange(0, b as int)),
                forall|i: int|
                    0 <= i < paths.len() ==> Ok::<u128, ClusterError>(#[trigger] paths@[i].3) == cluster.response_time(
                        paths@[i].0,
                        paths@[i].1,
                        paths@[i].2,
                    ),
                forall|y: int| 0 <= y < b ==> #[trigger] answerable(cluster, names[a as int], names[y]),
            decreases regions.len() - b,
        {
            let leader_region = regions[b];
            let destinations = match cluster.destinations(leader_region) {
                Ok(ds) => ds,
                Err(e) => {
                    proof {
                        assert(!answerable(cluster, names[a as int], names[b as int]));
                    }
                    return Err(e);
                },
            };
            let ghost rs = roles(nodes, leader_region@);
            let ghost start = routes_of(paths@);
            proof {
                assert(roles_of(destinations@).len() == destinations@.len());
            }
            let mut j: usize = 0;
            while j < destinations.len()
                invariant
                    cluster.wf(),
                    nodes == cluster.nodes_spec(),
                    j <= destinations.len(),
                    names == region_names(cluster),
                    a < names.len(),
                    b < names.len(),
                    client_region@ == names[a as int],
                    leader_region@ == names[b as int],
                    roles_of(destinations@) == rs,
                    rs == roles(nodes, leader_region@),
                    destinations.len() == rs.len(),
                    routes_of(paths@) =~= start + block(nodes, client_region@, leader_region@).subrange(
                        0,
                        j as int,
                    ),
                    forall|i: int|
                        0 <= i < paths.len() ==> Ok::<u128, ClusterError>(#[trigger] paths@[i].3) == cluster.response_time(
                            paths@[i].0,
                            paths@[i].1,
                            paths@[i].2,
                        ),
                    forall|m: int|
                        0 <= m < j ==> hops_known(
                            cluster,
                            client_region@,
                            #[trigger] rs[m],
                            leader_region@,
                        ),
                    j > 0 ==> quorum_defined(nodes, leader_region@) && follower_edges_known(
                        cluster.edges_spec(),
                        leader_region@,
                        followers(nodes, leader_region@),
                    ),
                decreases destinations.len() - j,
            {
                let destination = destinations[j];
                proof {
                    assert(roles_of(destinations@)[j as int] == destination@);
                    lemma_response_time_ok(cluster, client_region, destination, leader_region);
                }
                let duration = match cluster.client_response_time(
                    client_region,
                    destination,
                    leader_region,
                ) {
                    Ok(t) => t,
                    Err(e) => {
                        proof {
                            assert(!answerable(cluster, client_region@, leader_region@));
                        }
                        return Err(e);
                    },
                };
                let ghost before = paths@;
                paths.push((client_region, destination, leader_region, duration));
                proof {
                    assert(routes_of(paths@) =~= routes_of(before).push(
                        (client_region@, destination@, leader_region@),
                    ));
                    assert(block(nodes, client_region@, leader_region@).subrange(0, j + 1)
                        =~= block(nodes, client_region@, leader_region@).subrange(
                        0,
                        j as int,
                    ).push((client_region@, destination@, leader_region@)));
                    assert(paths@[paths.len() - 1] == (
                        client_region,
                        destination,
                        leader_region,
                        duration,
                    ));
                }
                j = j + 1;
            }
            proof {
                assert(block(nodes, client_region@, leader_region@).subrange(
                    0,
                    destinations.len() as int,
                ) =~= block(nodes, client_region@, leader_region@));
                assert(names.subrange(0, b + 1).drop_last() =~= names.subrange(0, b as int));
                assert(answerable(cluster, names[a as int], names[b as int]));
            }
            b = b + 1;
        }
        proof {
            assert(names.subrange(0, b as int) =~= names);
            assert(names.subrange(0, a + 1).drop_last() =~= names.subrange(0, a as int));
        }
        a = a + 1;
    }
    proof {
        assert(names.subrange(0, a as int) =~= names);
    }
    Ok(paths)
}

/// The row's request stays in the client's region: it goes to the leader in
/// the client's region, or to a follower there.
pub fn is_local(path: &Path) -> (r: bool)
    ensures
        r == (path.0@ == path.1.target(path.2)@),
{
    match path.1 {
        Destination::Leader => same_region(path.0, path.2),
        Destination::Follower(region) => same_region(path.0, region),
    }
}

} // verus!
