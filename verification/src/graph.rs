//! The relationship graph: an undirected graph over account indices in which
//! an edge connects two distinct accounts exactly when they share a country.

use vstd::prelude::*;

use crate::account::{str_eq, AccountRecord};
use crate::error::AnalysisError;

verus! {

/// Whether two records of the sequence share a `username`.
pub open spec fn has_duplicate_username(accs: Seq<AccountRecord>) -> bool {
    exists|i: int, j: int|
        0 <= i < j < accs.len() && accs[i].username@ == accs[j].username@
}

/// The distinct countries of the sequence, in order of first occurrence.
pub open spec fn distinct_countries(accs: Seq<AccountRecord>) -> Seq<Seq<char>>
    decreases accs.len(),
{
    if accs.len() == 0 {
        Seq::empty()
    } else {
        let rest = distinct_countries(accs.drop_last());
        if rest.contains(accs.last().country@) {
            rest
        } else {
            rest.push(accs.last().country@)
        }
    }
}

/// The indices of the records whose country is `c`, in increasing order.
pub open spec fn members_of(accs: Seq<AccountRecord>, c: Seq<char>) -> Seq<usize>
    decreases accs.len(),
{
    if accs.len() == 0 {
        Seq::empty()
    } else {
        let rest = members_of(accs.drop_last(), c);
        if accs.last().country@ == c {
            rest.push((accs.len() - 1) as usize)
        } else {
            rest
        }
    }
}

/// The total follower count over the records whose country is `c`.
pub open spec fn followers_sum_of(accs: Seq<AccountRecord>, c: Seq<char>) -> int
    decreases accs.len(),
{
    if accs.len() == 0 {
        0
    } else {
        followers_sum_of(accs.drop_last(), c) + if accs.last().country@ == c {
            accs.last().followers as int
        } else {
            0
        }
    }
}

/// Undirected relationship graph over the dataset.
///
/// Node `i` stands for the `i`-th account; `names[i]` is its username and
/// `adj[i]` lists its neighbor indices.
#[derive(Debug)]
pub struct RelationshipGraph {
    pub names: Vec<String>,
    pub adj: Vec<Vec<usize>>,
}

impl RelationshipGraph {
    /// Number of nodes.
    pub open spec fn n(self) -> int {
        self.names@.len() as int
    }

    /// Whether an edge connects nodes `i` and `j`.
    pub open spec fn edge(self, i: int, j: int) -> bool {
        &&& 0 <= i < self.n()
        &&& 0 <= j < self.n()
        &&& self.adj@[i]@.contains(j as usize)
    }

    /// Structural well-formedness: adjacency rows match the node count, every
    /// listed neighbor is a node, and usernames are pairwise distinct.
    pub open spec fn wf(self) -> bool {
        &&& self.adj@.len() == self.names@.len()
        &&& forall|i: int, v: usize|
            0 <= i < self.n() && #[trigger] self.adj@[i]@.contains(v) ==> (v as int) < self.n()
        &&& forall|i: int, j: int|
            0 <= i < self.n() && 0 <= j < self.n() && i != j ==> self.names@[i]@ != self.names@[j]@
    }

    /// The graph is exactly the one the builder derives from `accs`: nodes are
    /// the accounts in order, and an edge connects `i` and `j` iff they are
    /// distinct and share a country.
    pub open spec fn built_from(self, accs: Seq<AccountRecord>) -> bool {
        &&& self.wf()
        &&& self.n() == accs.len()
        &&& forall|i: int| 0 <= i < accs.len() ==> self.names@[i]@ == accs[i].username@
        &&& forall|i: int, j: int|
            0 <= i < accs.len() && 0 <= j < accs.len() ==> (self.edge(i, j) <==> (i != j
                && accs[i].country@ == accs[j].country@))
    }

    /// Whether an account with this username is a node of the graph.
    pub fn contains_key(&self, name: &str) -> (r: bool)
        ensures
            r <==> exists|i: int| 0 <= i < self.n() && (#[trigger] self.names@[i])@ == name@,
    {
        match self.find_node(name) {
            Some(i) => {
                proof {
                    assert(0 <= (i as int) && (i as int) < self.n() && self.names@[i as int]@
                        == name@);
                }
                true
            },
            None => false,
        }
    }

    /// Whether the accounts named `a` and `b` are connected by an edge.
    pub fn has_edge(&self, a: &str, b: &str) -> (r: bool)
        requires
            self.wf(),
        ensures
            r <==> exists|i: int, j: int|
                0 <= i < self.n() && 0 <= j < self.n() && (#[trigger] self.names@[i])@ == a@ && (
                #[trigger] self.names@[j])@ == b@ && self.edge(i, j),
    {
        let ia = match self.find_node(a) {
            Some(i) => i,
            None => {
                return false;
            },
        };
        let ib = match self.find_node(b) {
            Some(i) => i,
            None => {
                return false;
            },
        };
        let row = &self.adj[ia];
        for t in 0..row.len()
            invariant
                (ia as int) < self.n(),
                (ib as int) < self.n(),
                self.names@[ia as int]@ == a@,
                self.names@[ib as int]@ == b@,
                self.wf(),
                row@ == self.adj@[ia as int]@,
                forall|q: int| 0 <= q < t ==> row@[q] != ib,
        {
            if row[t] == ib {
                proof {
                    assert(self.adj@[ia as int]@[t as int] == ib);
                    assert(self.adj@[ia as int]@.contains(ib));
                    assert(self.edge(ia as int, ib as int));
                }
                return true;
            }
        }
        proof {
            if exists|i: int, j: int|
                0 <= i < self.n() && 0 <= j < self.n() && (#[trigger] self.names@[i])@ == a@ && (
                #[trigger] self.names@[j])@ == b@ && self.edge(i, j) {
                let (i, j) = choose|i: int, j: int|
                    0 <= i < self.n() && 0 <= j < self.n() && (#[trigger] self.names@[i])@ == a@
                        && (#[trigger] self.names@[j])@ == b@ && self.edge(i, j);
                assert(i == ia as int && j == ib as int);
                let q = choose|q: int|
                    0 <= q < self.adj@[i]@.len() && self.adj@[i]@[q] == (j as usize);
                assert(row@[q] == ib);
            }
        }
        false
    }

    /// Looks a node up by username.
    pub fn find_node(&self, name: &str) -> (r: Option<usize>)
        ensures
            match r {
                Some(i) => i < self.n() && self.names@[i as int]@ == name@,
                None => forall|i: int| 0 <= i < self.n() ==> self.names@[i]@ != name@,
            },
    {
        for i in 0..self.names.len()
            invariant
                forall|q: int| 0 <= q < i ==> self.names@[q]@ != name@,
        {
            if str_eq(self.names[i].as_str(), name) {
                return Some(i);
            }
        }
        None
    }
}

/// Pushing onto a sequence extends its membership by exactly the new element.
pub proof fn lemma_push_contains<A>(s: Seq<A>, x: A, w: A)
    ensures
        s.push(x).contains(w) <==> (s.contains(w) || w == x),
{
    if s.contains(w) {
        let k = choose|k: int| 0 <= k < s.len() && s[k] == w;
        assert(s.push(x)[k] == w);
    }
    assert(s.push(x)[s.len() as int] == x);
    if s.push(x).contains(w) && w != x {
        let k = choose|k: int| 0 <= k < s.push(x).len() && s.push(x)[k] == w;
        assert(k < s.len());
        assert(s[k] == w);
    }
}

/// Taking one more record keeps the earlier prefix intact.
pub(crate) proof fn lemma_take_succ(accs: Seq<AccountRecord>, i: int)
    requires
        0 <= i < accs.len(),
    ensures
        accs.take(i + 1).drop_last() =~= accs.take(i),
        accs.take(i + 1).last() == accs[i],
{
}

/// A record's country is listed among the distinct countries.
pub proof fn lemma_distinct_countries_complete(accs: Seq<AccountRecord>, c: Seq<char>)
    ensures
        distinct_countries(accs).contains(c) <==> (exists|i: int|
            0 <= i < accs.len() && accs[i].country@ == c),
    decreases accs.len(),
{
    if accs.len() > 0 {
        lemma_distinct_countries_complete(accs.drop_last(), c);
        if distinct_countries(accs).contains(c) {
            if accs.last().country@ == c {
                assert(accs[accs.len() - 1].country@ == c);
            } else {
                let rest = distinct_countries(accs.drop_last());
                if !rest.contains(c) {
                    assert(rest.push(accs.last().country@).contains(c));
                    let k = choose|k: int|
                        0 <= k < rest.len() + 1 && rest.push(accs.last().country@)[k] == c;
                    assert(k == rest.len());
                    assert(false);
                }
                let i = choose|i: int| 0 <= i < accs.drop_last().len() && accs.drop_last()[i].country@ == c;
                assert(accs[i].country@ == c);
            }
        }
        if exists|i: int| 0 <= i < accs.len() && accs[i].country@ == c {
            let i = choose|i: int| 0 <= i < accs.len() && accs[i].country@ == c;
            let rest = distinct_countries(accs.drop_last());
            if i < accs.len() - 1 {
                assert(accs.drop_last()[i].country@ == c);
                assert(rest.contains(c));
                if !rest.contains(accs.last().country@) {
                    let k = choose|k: int| 0 <= k < rest.len() && rest[k] == c;
                    assert(rest.push(accs.last().country@)[k] == c);
                }
            } else {
                if !rest.contains(c) {
                    assert(rest.push(c)[rest.len() as int] == c);
                }
            }
        }
    }
}

/// The distinct-country list never repeats an entry.
pub proof fn lemma_distinct_countries_no_repeat(accs: Seq<AccountRecord>)
    ensures
        forall|k: int, l: int|
            0 <= k < l < distinct_countries(accs).len() ==> distinct_countries(
                accs,
            )[k] != distinct_countries(accs)[l],
    decreases accs.len(),
{
    if accs.len() > 0 {
        lemma_distinct_countries_no_repeat(accs.drop_last());
        let rest = distinct_countries(accs.drop_last());
        let whole = distinct_countries(accs);
        if !rest.contains(accs.last().country@) {
            assert forall|k: int, l: int| 0 <= k < l < whole.len() implies whole[k] != whole[l] by {
                if l == whole.len() - 1 {
                    assert(whole[l] == accs.last().country@);
                    assert(rest[k] == whole[k]);
                    assert(rest.contains(rest[k]));
                }
            }
        }
    }
}

/// Membership in `members_of` is exactly having the country in question.
pub proof fn lemma_members_of_contains(accs: Seq<AccountRecord>, c: Seq<char>, v: usize)
    requires
        accs.len() <= usize::MAX,
    ensures
        members_of(accs, c).contains(v) <==> ((v as int) < accs.len() && accs[v as int].country@
            == c),
    decreases accs.len(),
{
    if accs.len() > 0 {
        lemma_members_of_contains(accs.drop_last(), c, v);
        let rest = members_of(accs.drop_last(), c);
        if accs.last().country@ == c {
            let whole = rest.push((accs.len() - 1) as usize);
            if whole.contains(v) {
                let k = choose|k: int| 0 <= k < whole.len() && whole[k] == v;
                if k < rest.len() {
                    assert(rest.contains(v));
                }
            }
            if (v as int) < accs.len() && accs[v as int].country@ == c {
                if (v as int) < accs.len() - 1 {
                    assert(accs.drop_last()[v as int].country@ == c);
                    let k = choose|k: int| 0 <= k < rest.len() && rest[k] == v;
                    assert(whole[k] == v);
                } else {
                    assert(whole[rest.len() as int] == v);
                }
            }
        } else {
            if (v as int) < accs.len() - 1 {
                assert(accs.drop_last()[v as int] == accs[v as int]);
            }
        }
    }
}

/// The list of strings matches, entry for entry, the distinct countries of
/// the record sequence.
pub open spec fn lists_countries(countries: Seq<String>, accs: Seq<AccountRecord>) -> bool {
    &&& countries.len() == distinct_countries(accs).len()
    &&& forall|k: int|
        0 <= k < countries.len() ==> (#[trigger] countries[k])@ == distinct_countries(accs)[k]
}

/// Every graph the builder produces is symmetric and has no self-loops:
/// `a` neighbors `b` exactly when `b` neighbors `a`, and no node neighbors
/// itself.
pub proof fn lemma_graph_symmetric_no_self_loop(g: RelationshipGraph, accs: Seq<AccountRecord>)
    requires
        g.built_from(accs),
    ensures
        forall|a: int, b: int| #[trigger] g.edge(a, b) <==> g.edge(b, a),
        forall|a: int| !g.edge(a, a),
{
    assert forall|a: int, b: int| #[trigger] g.edge(a, b) implies g.edge(b, a) by {
        assert(g.edge(a, b) <==> (a != b && accs[a].country@ == accs[b].country@));
    }
    assert forall|a: int, b: int| g.edge(b, a) implies #[trigger] g.edge(a, b) by {
        assert(g.edge(b, a) <==> (b != a && accs[b].country@ == accs[a].country@));
    }
}

/// An account whose country is unique in the dataset has an empty (but
/// present) neighbor row.
pub proof fn lemma_unique_country_isolated(g: RelationshipGraph, accs: Seq<AccountRecord>, i: int)
    requires
        g.built_from(accs),
        0 <= i < accs.len(),
        forall|j: int| 0 <= j < accs.len() && j != i ==> accs[j].country@ != accs[i].country@,
    ensures
        g.adj@[i]@.len() == 0,
{
    if g.adj@[i]@.len() > 0 {
        let v = g.adj@[i]@[0];
        assert(g.adj@[i]@.contains(v));
        assert(g.edge(i, v as int));
        assert(accs[v as int].country@ == accs[i].country@ && v as int != i);
    }
}

/// Collects the distinct countries of the dataset, first occurrence first.
pub(crate) fn distinct_country_list(accounts: &Vec<AccountRecord>) -> (r: Vec<String>)
    ensures
        lists_countries(r@, accounts@),
{
    let mut countries: Vec<String> = Vec::new();
    for i in 0..accounts.len()
        invariant
            lists_countries(countries@, accounts@.take(i as int)),
    {
        let c = accounts[i].country.as_str();
        let mut present = false;
        for k in 0..countries.len()
            invariant
                lists_countries(countries@, accounts@.take(i as int)),
                i < accounts@.len(),
                c@ == accounts@[i as int].country@,
                present <==> exists|q: int| 0 <= q < k && (#[trigger] countries@[q])@ == c@,
        {
            if str_eq(countries[k].as_str(), c) {
                present = true;
            }
        }
        proof {
            lemma_take_succ(accounts@, i as int);
            let prev = distinct_countries(accounts@.take(i as int));
            if present {
                let q = choose|q: int| 0 <= q < countries@.len() && countries@[q]@ == c@;
                assert(prev[q] == c@);
                assert(prev.contains(c@));
            } else {
                if prev.contains(c@) {
                    let q = choose|q: int| 0 <= q < prev.len() && prev[q] == c@;
                    assert(countries@[q]@ == c@);
                    assert(false);
                }
            }
        }
        if !present {
            countries.push(accounts[i].country.clone());
        }
    }
    proof {
        assert(accounts@.take(accounts@.len() as int) =~= accounts@);
    }
    countries
}

/// Collects the indices of the records whose country is `c`.
pub(crate) fn country_members(accounts: &Vec<AccountRecord>, c: &str) -> (r: Vec<usize>)
    ensures
        r@ == members_of(accounts@, c@),
{
    let mut m: Vec<usize> = Vec::new();
    for i in 0..accounts.len()
        invariant
            m@ == members_of(accounts@.take(i as int), c@),
    {
        proof {
            lemma_take_succ(accounts@, i as int);
        }
        if str_eq(accounts[i].country.as_str(), c) {
            m.push(i);
        }
    }
    proof {
        assert(accounts@.take(accounts@.len() as int) =~= accounts@);
    }
    m
}

/// Builds the relationship graph from the dataset: one node per account, an
/// edge between two distinct accounts iff they share a country. Construction
/// is group-indexed — accounts are bucketed by country and connected within
/// their bucket — which produces the same graph as an all-pairs comparison
/// without its quadratic number of string comparisons.
///
/// Fails with `DuplicateUsername` exactly when two records share a username.
pub fn create_graph(accounts: &Vec<AccountRecord>) -> (r: Result<
    RelationshipGraph,
    AnalysisError,
>)
    ensures
        match r {
            Ok(g) => g.built_from(accounts@) && !has_duplicate_username(accounts@),
            Err(e) => e == AnalysisError::DuplicateUsername && has_duplicate_username(accounts@),
        },
{
    let n = accounts.len();
    // Reject duplicate usernames: node identity must be unambiguous.
    for i in 0..n
        invariant
            n == accounts@.len(),
            forall|p: int, q: int|
                0 <= p < q < i ==> accounts@[p].username@ != accounts@[q].username@,
    {
        for j in 0..i
            invariant
                n == accounts@.len(),
                i < n,
                forall|p: int, q: int|
                    0 <= p < q < i ==> accounts@[p].username@ != accounts@[q].username@,
                forall|q: int| 0 <= q < j ==> accounts@[q].username@ != accounts@[i as int].username@,
        {
            if str_eq(accounts[j].username.as_str(), accounts[i].username.as_str()) {
                return Err(AnalysisError::DuplicateUsername);
            }
        }
    }
    // Node labels, in dataset order.
    let mut names: Vec<String> = Vec::new();
    for i in 0..n
        invariant
            n == accounts@.len(),
            names@.len() == i,
            forall|k: int| 0 <= k < i ==> names@[k]@ == accounts@[k].username@,
    {
        names.push(accounts[i].username.clone());
    }
    // Bucket the accounts by country.
    let countries = distinct_country_list(accounts);
    let mut buckets: Vec<Vec<usize>> = Vec::new();
    for k in 0..countries.len()
        invariant
            buckets@.len() == k,
            lists_countries(countries@, accounts@),
            forall|q: int| 0 <= q < k ==> buckets@[q]@ == members_of(accounts@, countries@[q]@),
    {
        buckets.push(country_members(accounts, countries[k].as_str()));
    }
    // Connect each account to the rest of its bucket.
    let mut adj: Vec<Vec<usize>> = Vec::new();
    for i in 0..n
        invariant
            n == accounts@.len(),
            lists_countries(countries@, accounts@),
            buckets@.len() == countries@.len(),
            forall|q: int|
                0 <= q < buckets@.len() ==> buckets@[q]@ == members_of(accounts@, countries@[q]@),
            adj@.len() == i,
            forall|p: int, v: usize|
                0 <= p < i && #[trigger] adj@[p]@.contains(v) ==> (v as int) < n,
            forall|p: int, v: usize|
                0 <= p < i ==> (#[trigger] adj@[p]@.contains(v) <==> ((v as int) < n && (v as int)
                    != p && accounts@[v as int].country@ == accounts@[p].country@)),
    {
        let c = accounts[i].country.as_str();
        proof {
            lemma_distinct_countries_complete(accounts@, c@);
            assert(accounts@[i as int].country@ == c@);
        }
        let bucket_index = match find_string(&countries, c) {
            Some(k) => k,
            None => {
                proof {
                    let q = choose|q: int|
                        0 <= q < distinct_countries(accounts@).len() && distinct_countries(
                            accounts@,
                        )[q] == c@;
                    assert(countries@[q]@ == c@);
                }
                vstd::pervasive::unreached()
            },
        };
        let bucket = &buckets[bucket_index];
        let mut nb: Vec<usize> = Vec::new();
        for t in 0..bucket.len()
            invariant
                n == accounts@.len(),
                i < n,
                bucket@ == members_of(accounts@, accounts@[i as int].country@),
                forall|k: int|
                    0 <= k < nb@.len() ==> bucket@.contains(#[trigger] nb@[k]) && nb@[k] != i,
                forall|w: usize|
                    bucket@.take(t as int).contains(w) && w != i ==> #[trigger] nb@.contains(w),
        {
            let v = bucket[t];
            let ghost nb0 = nb@;
            if v != i {
                nb.push(v);
            }
            proof {
                assert(bucket@.take(t as int + 1) =~= bucket@.take(t as int).push(
                    bucket@[t as int],
                ));
                assert(bucket@.contains(bucket@[t as int]));
                assert forall|w: usize| bucket@.take(t as int + 1).contains(w) && w != i
                    implies #[trigger] nb@.contains(w) by {
                    lemma_push_contains(bucket@.take(t as int), bucket@[t as int], w);
                    if bucket@.take(t as int).contains(w) {
                        assert(nb0.contains(w));
                        if v != i {
                            lemma_push_contains(nb0, v, w);
                        }
                    } else {
                        assert(w == v);
                        lemma_push_contains(nb0, v, w);
                    }
                }
            }
        }
        proof {
            assert(bucket@.take(bucket@.len() as int) =~= bucket@);
            assert forall|v: usize| #[trigger] nb@.contains(v) implies ((v as int) < n && (v as int)
                != i as int && accounts@[v as int].country@ == accounts@[i as int].country@) by {
                let k = choose|k: int| 0 <= k < nb@.len() && nb@[k] == v;
                assert(bucket@.contains(v) && v != i);
                lemma_members_of_contains(accounts@, accounts@[i as int].country@, v);
            }
            assert forall|v: usize|
                (v as int) < n && (v as int) != i as int && accounts@[v as int].country@
                    == accounts@[i as int].country@ implies #[trigger] nb@.contains(v) by {
                lemma_members_of_contains(accounts@, accounts@[i as int].country@, v);
            }
        }
        adj.push(nb);
    }
    let g = RelationshipGraph { names, adj };
    proof {
        assert forall|i: int, j: int| 0 <= i < accounts@.len() && 0 <= j < accounts@.len() implies (
        g.edge(i, j) <==> (i != j && accounts@[i].country@ == accounts@[j].country@)) by {
            assert(g.adj@[i]@.contains(j as usize) <==> ((j as int) < accounts@.len() && j != i
                && accounts@[j].country@ == accounts@[i].country@));
        }
    }
    Ok(g)
}

/// Looks a text value up in a list of strings.
fn find_string(list: &Vec<String>, c: &str) -> (r: Option<usize>)
    ensures
        match r {
            Some(k) => k < list@.len() && list@[k as int]@ == c@,
            None => forall|k: int| 0 <= k < list@.len() ==> list@[k]@ != c@,
        },
{
    for k in 0..list.len()
        invariant
            forall|q: int| 0 <= q < k ==> list@[q]@ != c@,
    {
        if str_eq(list[k].as_str(), c) {
            return Some(k);
        }
    }
    None
}

} // verus!
