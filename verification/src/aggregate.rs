//! Group aggregator: partitions the accounts by country and computes, per
//! country, the exact follower total and count (whose quotient is the average
//! follower count) and each member's average intra-group distance.
//!
//! All statistics are exact integer data; turning them into floating-point
//! averages is the reporting boundary's concern.

use vstd::prelude::*;

use crate::account::{str_eq, AccountRecord};
use crate::bfs::{avg_of, bfs_from, Ratio};
use crate::error::AnalysisError;
use crate::graph::{
    country_members, create_graph, distinct_countries, distinct_country_list, followers_sum_of,
    has_duplicate_username, lemma_members_of_contains, lemma_take_succ, lists_countries,
    members_of, RelationshipGraph,
};

verus! {

/// Per-country outcome of the analysis.
///
/// `followers_sum / followers_count` is the country's exact average follower
/// count; `distance_avgs[j]` is the average hop distance from the country's
/// `j`-th member to the other nodes it can reach, so the country's average
/// distance is the mean of those ratios.
#[derive(Debug)]
pub struct CountryStatistic {
    pub country: String,
    pub followers_sum: u128,
    pub followers_count: usize,
    pub distance_avgs: Vec<Ratio>,
}

/// The statistic `st` is the correct one for country `c` of the dataset.
pub open spec fn stat_matches(
    accs: Seq<AccountRecord>,
    g: RelationshipGraph,
    c: Seq<char>,
    st: CountryStatistic,
) -> bool {
    &&& st.country@ == c
    &&& st.followers_sum == followers_sum_of(accs, c)
    &&& st.followers_count == members_of(accs, c).len()
    &&& st.followers_count >= 1
    &&& st.distance_avgs@.len() == members_of(accs, c).len()
    &&& forall|j: int|
        0 <= j < members_of(accs, c).len() ==> (#[trigger] st.distance_avgs@[j]) == avg_of(
            g,
            members_of(accs, c)[j] as int,
        )
}

/// The result lists every distinct country once, in first-occurrence order,
/// each with its correct statistic.
pub open spec fn stats_ok(
    accs: Seq<AccountRecord>,
    g: RelationshipGraph,
    stats: Seq<CountryStatistic>,
) -> bool {
    &&& stats.len() == distinct_countries(accs).len()
    &&& forall|k: int|
        0 <= k < stats.len() ==> stat_matches(
            accs,
            g,
            distinct_countries(accs)[k],
            #[trigger] stats[k],
        )
}

/// The total follower count of the accounts whose country is `c`.
pub fn country_followers_total(accounts: &Vec<AccountRecord>, c: &str) -> (r: u128)
    ensures
        r == followers_sum_of(accounts@, c@),
{
    let mut fsum: u128 = 0;
    for i in 0..accounts.len()
        invariant
            fsum == followers_sum_of(accounts@.take(i as int), c@),
            fsum <= (i as u128) * (u32::MAX as u128),
    {
        proof {
            lemma_take_succ(accounts@, i as int);
            assert((i as u128 + 1) * (u32::MAX as u128) <= u128::MAX && (i as u128) * (
            u32::MAX as u128) + (u32::MAX as u128) == (i as u128 + 1) * (u32::MAX as u128))
                by (nonlinear_arith)
                requires
                    i as u128 + 1 <= usize::MAX as u128,
                    usize::MAX as u128 <= u64::MAX as u128,
            ;
        }
        if str_eq(accounts[i].country.as_str(), c) {
            fsum = fsum + (accounts[i].followers as u128);
        }
    }
    proof {
        assert(accounts@.take(accounts@.len() as int) =~= accounts@);
    }
    fsum
}

/// Groups the dataset by country and reports each group's statistic.
///
/// Distances are measured on the full relationship graph; since its edges
/// only ever connect same-country pairs, a traversal started at a group
/// member cannot leave the group. Fails with `EmptyDataset` exactly when the
/// dataset has no records; a single-member group gets the `0/1` average
/// distance rather than a division by zero.
pub fn aggregate(accounts: &Vec<AccountRecord>, g: &RelationshipGraph) -> (r: Result<
    Vec<CountryStatistic>,
    AnalysisError,
>)
    requires
        g.built_from(accounts@),
    ensures
        match r {
            Ok(stats) => accounts@.len() > 0 && stats_ok(accounts@, *g, stats@),
            Err(e) => e == AnalysisError::EmptyDataset && accounts@.len() == 0,
        },
{
    if accounts.len() == 0 {
        return Err(AnalysisError::EmptyDataset);
    }
    let countries = distinct_country_list(accounts);
    let mut stats: Vec<CountryStatistic> = Vec::new();
    for k in 0..countries.len()
        invariant
            g.built_from(accounts@),
            accounts@.len() <= usize::MAX,
            lists_countries(countries@, accounts@),
            stats@.len() == k,
            forall|q: int|
                0 <= q < k ==> stat_matches(
                    accounts@,
                    *g,
                    distinct_countries(accounts@)[q],
                    #[trigger] stats@[q],
                ),
    {
        let c = countries[k].as_str();
        let members = country_members(accounts, c);
        proof {
            // The country was listed because some record carries it, so its
            // group is never empty: the average divisions at the boundary
            // are safe.
            crate::graph::lemma_distinct_countries_complete(accounts@, c@);
            let i = choose|i: int| 0 <= i < accounts@.len() && accounts@[i].country@ == c@;
            lemma_members_of_contains(accounts@, c@, i as usize);
        }
        let fsum = country_followers_total(accounts, c);
        let mut avgs: Vec<Ratio> = Vec::new();
        for j in 0..members.len()
            invariant
                g.built_from(accounts@),
                accounts@.len() <= usize::MAX,
                k < countries@.len(),
                c@ == countries@[k as int]@,
                members@ == members_of(accounts@, c@),
                avgs@.len() == j,
                forall|q: int|
                    0 <= q < j ==> (#[trigger] avgs@[q]) == avg_of(*g, members@[q] as int),
        {
            let m: usize = members[j];
            proof {
                assert(members@[j as int] == m);
                assert(members@.contains(m));
                lemma_members_of_contains(accounts@, c@, m);
            }
            let res = bfs_from(g, m);
            proof {
                assert(res.avg == avg_of(*g, m as int));
            }
            avgs.push(res.avg);
        }
        stats.push(
            CountryStatistic {
                country: countries[k].clone(),
                followers_sum: fsum,
                followers_count: members.len(),
                distance_avgs: avgs,
            },
        );
    }
    Ok(stats)
}

/// The aggregated result is a true partition: no country appears in it
/// twice.
pub proof fn lemma_stats_countries_distinct(
    accs: Seq<AccountRecord>,
    g: RelationshipGraph,
    stats: Seq<CountryStatistic>,
)
    requires
        stats_ok(accs, g, stats),
    ensures
        forall|k: int, l: int|
            0 <= k < l < stats.len() ==> (#[trigger] stats[k]).country@ != (
            #[trigger] stats[l]).country@,
{
    crate::graph::lemma_distinct_countries_no_repeat(accs);
}

/// The whole pipeline: build the relationship graph from the dataset, then
/// aggregate the per-country statistics.
pub fn analyze(accounts: &Vec<AccountRecord>) -> (r: Result<Vec<CountryStatistic>, AnalysisError>)
    ensures
        match r {
            Ok(stats) => {
                &&& accounts@.len() > 0
                &&& !has_duplicate_username(accounts@)
                &&& exists|g: RelationshipGraph|
                    #[trigger] g.built_from(accounts@) && stats_ok(accounts@, g, stats@)
            },
            Err(e) => match e {
                AnalysisError::DuplicateUsername => has_duplicate_username(accounts@),
                AnalysisError::EmptyDataset => accounts@.len() == 0 && !has_duplicate_username(
                    accounts@,
                ),
                AnalysisError::UnknownNode => false,
            },
        },
{
    let graph = create_graph(accounts)?;
    let stats = aggregate(accounts, &graph)?;
    proof {
        assert(graph.built_from(accounts@) && stats_ok(accounts@, graph, stats@));
    }
    Ok(stats)
}

/// Every node within `k` hops of `s` shares `s`'s country: edges never leave
/// a country group.
proof fn lemma_reach_same_country(
    g: RelationshipGraph,
    accs: Seq<AccountRecord>,
    s: int,
    k: nat,
)
    requires
        g.built_from(accs),
        0 <= s < accs.len(),
    ensures
        forall|v: int|
            #[trigger] crate::bfs::reach(g, s, k).contains(v) ==> 0 <= v < accs.len()
                && accs[v].country@ == accs[s].country@,
    decreases k,
{
    if k > 0 {
        lemma_reach_same_country(g, accs, s, (k - 1) as nat);
        assert forall|v: int| #[trigger] crate::bfs::reach(g, s, k).contains(v) implies 0 <= v
            < accs.len() && accs[v].country@ == accs[s].country@ by {
            if !crate::bfs::reach(g, s, (k - 1) as nat).contains(v) {
                assert(crate::bfs::step(g, crate::bfs::reach(g, s, (k - 1) as nat)).contains(v));
                let u = choose|u: int|
                    #[trigger] crate::bfs::reach(g, s, (k - 1) as nat).contains(u) && g.edge(u, v);
                assert(g.edge(u, v) <==> (u != v && accs[u].country@ == accs[v].country@));
            }
        }
    }
}

/// A node is reachable from `s` exactly when it shares `s`'s country.
proof fn lemma_reachable_same_country(
    g: RelationshipGraph,
    accs: Seq<AccountRecord>,
    s: int,
    v: int,
)
    requires
        g.built_from(accs),
        0 <= s < accs.len(),
    ensures
        crate::bfs::reachable(g, s, v) <==> (0 <= v < accs.len() && accs[v].country@
            == accs[s].country@),
{
    if crate::bfs::reachable(g, s, v) {
        let k = choose|k: nat| crate::bfs::reach(g, s, k).contains(v);
        lemma_reach_same_country(g, accs, s, k);
    }
    if 0 <= v < accs.len() && accs[v].country@ == accs[s].country@ {
        if v == s {
            assert(crate::bfs::reach(g, s, 0).contains(v));
        } else {
            assert(g.edge(s, v));
            assert(crate::bfs::reach(g, s, 0).contains(s));
            assert(crate::bfs::step(g, crate::bfs::reach(g, s, 0)).contains(v));
            assert(crate::bfs::reach(g, s, 1).contains(v));
        }
    }
}

/// Within a country group the shortest distance is one hop (zero to the
/// start itself): the group is a clique.
proof fn lemma_hop_in_group(g: RelationshipGraph, accs: Seq<AccountRecord>, s: int, v: int)
    requires
        g.built_from(accs),
        0 <= s < accs.len(),
        crate::bfs::reachable(g, s, v),
    ensures
        crate::bfs::hop_distance(g, s, v) == if v == s {
            0nat
        } else {
            1nat
        },
{
    lemma_reachable_same_country(g, accs, s, v);
    if v == s {
        assert(crate::bfs::reach(g, s, 0).contains(s));
        assert(crate::bfs::at_level(g, s, s, 0));
        crate::bfs::lemma_hop_of_level(g, s, s, 0);
    } else {
        assert(g.edge(s, v));
        assert(crate::bfs::reach(g, s, 0).contains(s));
        assert(crate::bfs::step(g, crate::bfs::reach(g, s, 0)).contains(v));
        assert(crate::bfs::reach(g, s, 1).contains(v));
        assert(crate::bfs::at_level(g, s, v, 1));
        crate::bfs::lemma_hop_of_level(g, s, v, 1);
    }
}

/// Over the first `b` accounts, the traversal from `s` counts exactly the
/// same-country records, and its distance total is that count less the start
/// itself.
proof fn lemma_group_counts(g: RelationshipGraph, accs: Seq<AccountRecord>, s: int, b: int)
    requires
        g.built_from(accs),
        0 <= s < accs.len(),
        0 <= b <= accs.len(),
    ensures
        crate::bfs::visited_upto(g, s, b) == members_of(accs.take(b), accs[s].country@).len(),
        crate::bfs::total_upto(g, s, b) == members_of(accs.take(b), accs[s].country@).len() - (
        if 0 <= s < b {
            1int
        } else {
            0int
        }),
    decreases b,
{
    if b > 0 {
        lemma_group_counts(g, accs, s, b - 1);
        lemma_take_succ(accs, b - 1);
        lemma_reachable_same_country(g, accs, s, b - 1);
        if crate::bfs::reachable(g, s, b - 1) {
            lemma_hop_in_group(g, accs, s, b - 1);
        }
    }
}

/// In a graph the builder produced, every connected component is a complete
/// group: from any member of a group of size `m >= 2` the traversal visits
/// exactly the `m` group members and its average distance is exactly one
/// (equal numerator and denominator, both `m - 1`); a sole group member
/// reports the zero average.
pub proof fn lemma_clique_average(g: RelationshipGraph, accs: Seq<AccountRecord>, s: int)
    requires
        g.built_from(accs),
        0 <= s < accs.len(),
    ensures
        crate::bfs::visited_upto(g, s, g.n()) == members_of(accs, accs[s].country@).len(),
        members_of(accs, accs[s].country@).len() >= 2 ==> avg_of(g, s).num == avg_of(g, s).den
            && avg_of(g, s).den == (members_of(accs, accs[s].country@).len() - 1) as u128,
        members_of(accs, accs[s].country@).len() == 1 ==> avg_of(g, s) == (Ratio {
            num: 0,
            den: 1,
        }),
{
    lemma_group_counts(g, accs, s, accs.len() as int);
    assert(accs.take(accs.len() as int) =~= accs);
}

/// The per-country follower totals, as the loading order discovered them.
pub struct CountryFollowers {
    pub pairs: Vec<(String, u128)>,
}

impl CountryFollowers {
    /// Looks up the follower total recorded for `country`.
    pub fn get(&self, country: &str) -> (r: Option<u128>)
        ensures
            match r {
                Some(s) => exists|k: int|
                    0 <= k < self.pairs@.len() && (#[trigger] self.pairs@[k]).0@ == country@
                        && self.pairs@[k].1 == s,
                None => forall|k: int|
                    0 <= k < self.pairs@.len() ==> (#[trigger] self.pairs@[k]).0@ != country@,
            },
    {
        for k in 0..self.pairs.len()
            invariant
                forall|q: int|
                    0 <= q < k ==> (#[trigger] self.pairs@[q]).0@ != country@,
        {
            if str_eq(self.pairs[k].0.as_str(), country) {
                return Some(self.pairs[k].1);
            }
        }
        None
    }
}

/// Sums the follower counts per country: one entry for each distinct country,
/// in first-occurrence order.
pub fn get_country_followers(accounts: &Vec<AccountRecord>) -> (r: CountryFollowers)
    ensures
        r.pairs@.len() == distinct_countries(accounts@).len(),
        forall|k: int|
            0 <= k < r.pairs@.len() ==> (#[trigger] r.pairs@[k]).0@ == distinct_countries(
                accounts@,
            )[k] && r.pairs@[k].1 == followers_sum_of(accounts@, distinct_countries(accounts@)[k]),
{
    let countries = distinct_country_list(accounts);
    let mut pairs: Vec<(String, u128)> = Vec::new();
    for k in 0..countries.len()
        invariant
            lists_countries(countries@, accounts@),
            pairs@.len() == k,
            forall|q: int|
                0 <= q < k ==> (#[trigger] pairs@[q]).0@ == distinct_countries(accounts@)[q]
                    && pairs@[q].1 == followers_sum_of(accounts@, distinct_countries(accounts@)[q]),
    {
        let total = country_followers_total(accounts, countries[k].as_str());
        pairs.push((countries[k].clone(), total));
    }
    CountryFollowers { pairs }
}

} // verus!

