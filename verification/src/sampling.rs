//! Layer-wise neighbourhood sampling over an adjacency matrix, with the
//! random choices made by the `rand` crate.
use vstd::prelude::*;
use vstd::string::*;
use rand::rngs::StdRng;
use crate::sampler::first_seen;
use crate::error::{GraphError, GraphResult};

verus! {

broadcast use vstd::seq_lib::group_to_multiset_ensures;

#[verifier::external_type_specification]
#[verifier::external_body]
pub struct ExStdRng(rand::rngs::StdRng);

/// `SeedableRng::seed_from_u64` of the `rand` crate on `StdRng`: a generator
/// seeded from `seed`. Nothing is stated of the generator.
#[verifier::external_body]
fn rng_from_seed(seed: u64) -> StdRng {
    <StdRng as rand::SeedableRng>::seed_from_u64(seed)
}

#[verifier::external_type_specification]
#[verifier::external_body]
pub struct ExRandError(rand::Error);

/// `SeedableRng::from_rng(OsRng)` of the `rand` crate on `StdRng`: a generator
/// seeded with bytes from the operating system's random source, or the error
/// of that source when it cannot supply them. Nothing is stated of the
/// generator, nor of when the source fails.
#[verifier::external_body]
fn rng_from_os() -> Result<StdRng, rand::Error> {
    <StdRng as rand::SeedableRng>::from_rng(rand::rngs::OsRng)
}

/// The message of a failure to seed a generator from the operating system.
pub open spec fn seeding_failure_message() -> Seq<char> {
    "could not seed the random generator from the operating system"@
}

/// A generator seeded with `seed`, or from the operating system's random
/// source without one. Only the latter can fail, with a `SamplingError`.
pub(crate) fn seeded_rng(seed: Option<u64>) -> (r: GraphResult<StdRng>)
    ensures
        seed is Some ==> r is Ok,
        r is Err ==> (seed is None && (r matches Err(GraphError::SamplingError(m)) && m@ == seeding_failure_message())),
{
    match seed {
        Some(s) => Ok(rng_from_seed(s)),
        None => match rng_from_os() {
            Ok(g) => Ok(g),
            Err(_) => {
                proof {
                    reveal_strlit("could not seed the random generator from the operating system");
                }
                Err(GraphError::SamplingError(String::from_str("could not seed the random generator from the operating system")))
            },
        },
    }
}

/// `Rng::gen_range(0..n)` of the `rand` crate: a position below `n`, which
/// one being left to the generator. `gen_range` panics on an empty range,
/// hence `n > 0`.
#[verifier::external_body]
fn random_index(rng: &mut StdRng, n: usize) -> (r: usize)
    requires
        n > 0,
    ensures
        r < n,
{
    rand::Rng::gen_range(rng, 0..n)
}

/// `SliceRandom::shuffle` of the `rand` crate with the given generator: the
/// same items come out, each as often as it went in, in an order left to the
/// generator.
#[verifier::external_body]
pub(crate) fn shuffle_with(v: &mut Vec<usize>, rng: &mut StdRng)
    ensures
        final(v)@.to_multiset() == old(v)@.to_multiset(),
{
    rand::seq::SliceRandom::shuffle(v.as_mut_slice(), rng);
}

/// Whether the dense `n` by `n` adjacency matrix `adj` (row-major) has an
/// edge from `u` to `v`.
pub open spec fn arc(adj: Seq<bool>, n: nat, u: int, v: int) -> bool {
    adj[u * n + v]
}

proof fn lemma_cell(u: int, v: int, n: int)
    requires
        0 <= u < n,
        0 <= v < n,
    ensures
        0 <= u * n + v < n * n,
{
    assert(0 <= u * n + v < n * n) by (nonlinear_arith)
        requires 0 <= u < n, 0 <= v < n;
}

/// The positions of `v` after shuffling are distinct, like those of `0..n`.
proof fn lemma_permutation_distinct(v: Seq<usize>, n: nat)
    requires
        v.to_multiset() == Seq::new(n, |i: int| i as usize).to_multiset(),
        n <= usize::MAX + 1,
    ensures
        v.no_duplicates(),
        forall|i: int| 0 <= i < v.len() ==> #[trigger] v[i] < n,
        v.len() == n,
{
    let id = Seq::new(n, |i: int| i as usize);
    assert(id.no_duplicates());
    id.lemma_multiset_has_no_duplicates();
    v.lemma_multiset_has_no_duplicates_conv();
    assert(v.to_multiset().len() == v.len());
    assert(id.to_multiset().len() == id.len());
    assert forall|i: int| 0 <= i < v.len() implies #[trigger] v[i] < n by {
        assert(v.contains(v[i]));
        assert(v.to_multiset().count(v[i]) > 0);
        assert(id.to_multiset().count(v[i]) > 0);
        assert(id.contains(v[i]));
        let j = choose|j: int| 0 <= j < id.len() && id[j] == v[i];
    }
}

/// A draw of neighbours as `LayerWiseSampler::sample_neighbors` makes it:
/// none from no neighbours; with replacement exactly `k` draws, each a
/// neighbour; without replacement `min(k, len)` neighbours at distinct
/// positions.
pub open spec fn neighbor_draw(nbrs: Seq<usize>, k: usize, replace: bool, picks: Seq<usize>) -> bool {
    &&& nbrs.len() == 0 ==> picks.len() == 0
    &&& nbrs.len() > 0 && replace ==> picks.len() == k
        && forall|i: int| 0 <= i < picks.len() ==> nbrs.contains(#[trigger] picks[i])
    &&& nbrs.len() > 0 && !replace ==> {
        &&& picks.len() == if k < nbrs.len() { k as int } else { nbrs.len() as int }
        &&& exists|pos: Seq<usize>| #[trigger] distinct_nodes(pos, nbrs.len()) && pos.len() == picks.len()
            && forall|i: int| 0 <= i < picks.len() ==> picks[i] == nbrs[#[trigger] pos[i] as int]
    }
}

/// The nodes below `t` that `u` has an edge to, in increasing order.
pub open spec fn arcs_from(adj: Seq<bool>, n: nat, u: int, t: nat) -> Seq<usize>
    decreases t,
{
    if t == 0 {
        Seq::empty()
    } else {
        let prev = arcs_from(adj, n, u, (t - 1) as nat);
        if arc(adj, n, u, t - 1) {
            prev.push((t - 1) as usize)
        } else {
            prev
        }
    }
}

/// The lists of `s`, one after another.
pub open spec fn concat_all(s: Seq<Seq<usize>>) -> Seq<usize>
    decreases s.len(),
{
    if s.len() == 0 {
        Seq::empty()
    } else {
        concat_all(s.drop_last()) + s.last()
    }
}

/// Everything drawn in all layers, in order.
pub open spec fn all_draws(draws: Seq<Seq<Seq<usize>>>) -> Seq<usize>
    decreases draws.len(),
{
    if draws.len() == 0 {
        Seq::empty()
    } else {
        all_draws(draws.drop_last()) + concat_all(draws.last())
    }
}

/// A run of layer-wise node sampling on `n` nodes: the first frontier is
/// every node in order; layer `i` uses the fanouts from the last, and each
/// node of its frontier draws from the nodes it has an edge to; the next
/// frontier is the distinct nodes drawn, in order of first draw.
pub open spec fn node_sampling_run(adj: Seq<bool>, n: nat, ks: Seq<usize>, replace: bool,
    frontiers: Seq<Seq<usize>>, draws: Seq<Seq<Seq<usize>>>) -> bool {
    &&& frontiers.len() == ks.len() + 1
    &&& draws.len() == ks.len()
    &&& frontiers[0] == Seq::new(n, |v: int| v as usize)
    &&& forall|i: int| 0 <= i < ks.len() ==> #[trigger] sampled_layer(adj, n, ks, replace, frontiers, draws, i)
}

/// Layer `i` of a node sampling run.
pub open spec fn sampled_layer(adj: Seq<bool>, n: nat, ks: Seq<usize>, replace: bool,
    frontiers: Seq<Seq<usize>>, draws: Seq<Seq<Seq<usize>>>, i: int) -> bool {
    &&& draws[i].len() == frontiers[i].len()
    &&& forall|j: int| 0 <= j < frontiers[i].len() ==> neighbor_draw(
        arcs_from(adj, n, frontiers[i][j] as int, n), ks[ks.len() - 1 - i], replace, #[trigger] draws[i][j])
    &&& frontiers[i + 1] == first_seen(concat_all(draws[i]))
}

/// One more layer of a node sampling run.
proof fn lemma_node_run_step(adj: Seq<bool>, n: nat, ks: Seq<usize>, replace: bool,
    frontiers: Seq<Seq<usize>>, draws: Seq<Seq<Seq<usize>>>, l: int, layer: Seq<Seq<usize>>, next: Seq<usize>)
    requires
        0 <= l < ks.len(),
        frontiers.len() == l + 1,
        draws.len() == l,
        forall|i: int| 0 <= i < l ==> #[trigger] sampled_layer(adj, n, ks, replace, frontiers, draws, i),
        layer.len() == frontiers[l].len(),
        forall|j: int| 0 <= j < frontiers[l].len() ==> neighbor_draw(
            arcs_from(adj, n, frontiers[l][j] as int, n), ks[ks.len() - 1 - l], replace, #[trigger] layer[j]),
        next == first_seen(concat_all(layer)),
    ensures
        forall|i: int| 0 <= i < l + 1 ==> #[trigger] sampled_layer(adj, n, ks, replace, frontiers.push(next), draws.push(layer), i),
        all_draws(draws.push(layer)) == all_draws(draws) + concat_all(layer),
        frontiers.push(next)[0] == frontiers[0],
{
    let f2 = frontiers.push(next);
    let d2 = draws.push(layer);
    assert forall|i: int| 0 <= i < l + 1 implies #[trigger] sampled_layer(adj, n, ks, replace, f2, d2, i) by {
        if i < l {
            assert(sampled_layer(adj, n, ks, replace, frontiers, draws, i));
            assert(f2[i] == frontiers[i] && f2[i + 1] == frontiers[i + 1] && d2[i] == draws[i]);
        } else {
            assert(f2[i] == frontiers[i] && f2[i + 1] == next && d2[i] == layer);
        }
    }
    assert(d2.drop_last() =~= draws);
}

/// Samples, layer by layer, the neighbours of the nodes reached so far.
pub struct LayerWiseSampler {
    num_neighbors: Vec<usize>,
    replace: bool,
}

/// `s` lists distinct nodes below `n`.
pub open spec fn distinct_nodes(s: Seq<usize>, n: nat) -> bool {
    &&& forall|i: int, j: int| 0 <= i < j < s.len() ==> s[i] != s[j]
    &&& forall|i: int| 0 <= i < s.len() ==> #[trigger] s[i] < n
}

/// Some node has an edge to `v`.
pub open spec fn has_in_edge(adj: Seq<bool>, n: nat, v: int) -> bool {
    exists|u: int| 0 <= u < n && #[trigger] arc(adj, n, u, v)
}

/// `edges` lists, in increasing order of source and then target position,
/// every pair of positions of `nodes` that the matrix joins, and nothing else.
pub open spec fn induced_edges(adj: Seq<bool>, n: nat, nodes: Seq<usize>, edges: Seq<(usize, usize)>) -> bool {
    &&& forall|p: int| 0 <= p < edges.len() ==> (#[trigger] edges[p]).0 < nodes.len() && edges[p].1 < nodes.len()
        && arc(adj, n, nodes[edges[p].0 as int] as int, nodes[edges[p].1 as int] as int)
    &&& forall|i: int, j: int| 0 <= i < nodes.len() && 0 <= j < nodes.len()
        && #[trigger] arc(adj, n, nodes[i] as int, nodes[j] as int) ==> edges.contains((i as usize, j as usize))
    &&& forall|p: int, q: int| 0 <= p < q < edges.len() ==> (#[trigger] edges[p]).0 < (#[trigger] edges[q]).0
        || (edges[p].0 == edges[q].0 && edges[p].1 < edges[q].1)
}

impl LayerWiseSampler {
    pub closed spec fn spec_num_neighbors(&self) -> Seq<usize> {
        self.num_neighbors@
    }

    pub closed spec fn spec_replace(&self) -> bool {
        self.replace
    }

    /// A sampler that takes `num_neighbors[l]` neighbours per node in layer
    /// `l` (outermost layer last), with or without replacement.
    pub fn new(num_neighbors: Vec<usize>, replace: bool) -> (r: Self)
        ensures
            r.spec_num_neighbors() == num_neighbors@,
            r.spec_replace() == replace,
    {
        LayerWiseSampler { num_neighbors, replace }
    }

    /// Draws `k` of `neighbors`: with replacement exactly `k` draws, without
    /// replacement `min(k, neighbors.len())` different positions.
    pub fn sample_neighbors(&self, neighbors: &Vec<usize>, k: usize, rng: &mut StdRng) -> (r: Vec<usize>)
        ensures
            neighbor_draw(neighbors@, k, self.spec_replace(), r@),
    {
        let len = neighbors.len();
        if len == 0 {
            return Vec::new();
        }
        let num_samples = if k < len { k } else { len };
        let mut out: Vec<usize> = Vec::new();
        if self.replace {
            let mut i: usize = 0;
            while i < k
                invariant
                    len == neighbors@.len(),
                    len > 0,
                    i <= k,
                    out@.len() == i,
                    forall|j: int| 0 <= j < i ==> neighbors@.contains(#[trigger] out@[j]),
                decreases k - i,
            {
                let p = random_index(rng, len);
                out.push(neighbors[p]);
                proof {
                    assert(neighbors@[p as int] == out@[i as int]);
                }
                i = i + 1;
            }
            out
        } else {
            let mut indices: Vec<usize> = Vec::new();
            let mut i: usize = 0;
            while i < len
                invariant
                    i <= len,
                    indices@ == Seq::new(i as nat, |j: int| j as usize),
                decreases len - i,
            {
                indices.push(i);
                i = i + 1;
                assert(indices@ =~= Seq::new(i as nat, |j: int| j as usize));
            }
            shuffle_with(&mut indices, rng);
            proof {
                lemma_permutation_distinct(indices@, len as nat);
            }
            let mut j: usize = 0;
            while j < num_samples
                invariant
                    len == neighbors@.len(),
                    num_samples <= len,
                    indices@.len() == len,
                    indices@.no_duplicates(),
                    forall|q: int| 0 <= q < indices@.len() ==> #[trigger] indices@[q] < len,
                    j <= num_samples,
                    out@.len() == j,
                    forall|q: int| 0 <= q < j ==> out@[q] == neighbors@[#[trigger] indices@[q] as int],
                decreases num_samples - j,
            {
                out.push(neighbors[indices[j]]);
                j = j + 1;
            }
            proof {
                let pos = indices@.take(num_samples as int);
                assert(distinct_nodes(pos, len as nat));
                assert forall|q: int| 0 <= q < out@.len() implies out@[q] == neighbors@[#[trigger] pos[q] as int] by {
                    assert(pos[q] == indices@[q]);
                }
            }
            out
        }
    }

    /// The nodes sampled from a graph of `n` nodes with dense adjacency
    /// `adj`: starting from all nodes, each layer (outermost last) samples
    /// neighbours of the previous layer's nodes. Every sampled node is listed
    /// once and has an incoming edge. The random generator is seeded with
    /// `seed`, or from the operating system's random source without one; only
    /// that source can fail, with a `SamplingError`.
    pub fn sample_nodes(&self, adj: &Vec<bool>, n: usize, seed: Option<u64>) -> (r: GraphResult<Vec<usize>>)
        requires
            adj@.len() == n * n,
        ensures
            seed is Some ==> r is Ok,
            r is Err ==> (seed is None && (r matches Err(GraphError::SamplingError(m)) && m@ == seeding_failure_message())),
            r matches Ok(v) ==> {
                &&& distinct_nodes(v@, n as nat)
                &&& forall|i: int| 0 <= i < v@.len() ==> #[trigger] has_in_edge(adj@, n as nat, v@[i] as int)
                &&& self.spec_num_neighbors().len() == 0 ==> v@.len() == 0
                &&& exists|frontiers: Seq<Seq<usize>>, draws: Seq<Seq<Seq<usize>>>| {
                    &&& node_sampling_run(adj@, n as nat, self.spec_num_neighbors(), self.spec_replace(), frontiers, draws)
                    &&& v@ == first_seen(all_draws(draws))
                }
            },
    {
        let mut rng = match seeded_rng(seed) {
            Ok(g) => g,
            Err(e) => {
                return Err(e);
            },
        };
        let total = adj.len();
        let mut frontier: Vec<usize> = Vec::new();
        let mut v: usize = 0;
        while v < n
            invariant
                v <= n,
                frontier@ == Seq::new(v as nat, |j: int| j as usize),
            decreases n - v,
        {
            frontier.push(v);
            v = v + 1;
            assert(frontier@ =~= Seq::new(v as nat, |j: int| j as usize));
        }
        let mut in_sample: Vec<bool> = Vec::new();
        let mut w: usize = 0;
        while w < n
            invariant
                w <= n,
                in_sample@.len() == w,
                forall|j: int| 0 <= j < w ==> !#[trigger] in_sample@[j],
            decreases n - w,
        {
            in_sample.push(false);
            w = w + 1;
        }
        let mut sampled: Vec<usize> = Vec::new();
        let layers = self.num_neighbors.len();
        let mut l: usize = 0;
        let ghost mut frontiers: Seq<Seq<usize>> = seq![frontier@];
        let ghost mut draws_g: Seq<Seq<Seq<usize>>> = Seq::empty();
        proof {
            assert(sampled@ =~= first_seen(all_draws(draws_g)));
        }
        while l < layers
            invariant
                frontiers.len() == l + 1,
                draws_g.len() == l,
                frontiers[0] == Seq::new(n as nat, |v: int| v as usize),
                frontier@ == frontiers[l as int],
                forall|i: int| 0 <= i < l ==> #[trigger] sampled_layer(adj@, n as nat, self.num_neighbors@, self.replace, frontiers, draws_g, i),
                sampled@ == first_seen(all_draws(draws_g)),
                adj@.len() == n * n,
                total == adj@.len(),
                layers == self.num_neighbors@.len(),
                l <= layers,
                distinct_nodes(frontier@, n as nat),
                distinct_nodes(sampled@, n as nat),
                in_sample@.len() == n,
                forall|j: int| 0 <= j < n ==> (#[trigger] in_sample@[j] <==> sampled@.contains(j as usize)),
                forall|i: int| 0 <= i < sampled@.len() ==> #[trigger] has_in_edge(adj@, n as nat, sampled@[i] as int),
                l == 0 ==> sampled@.len() == 0,
            decreases layers - l,
        {
            let k = self.num_neighbors[layers - 1 - l];
            let mut next: Vec<usize> = Vec::new();
            let mut in_next: Vec<bool> = Vec::new();
            let mut w2: usize = 0;
            while w2 < n
                invariant
                    w2 <= n,
                    in_next@.len() == w2,
                    forall|j: int| 0 <= j < w2 ==> !#[trigger] in_next@[j],
                decreases n - w2,
            {
                in_next.push(false);
                w2 = w2 + 1;
            }
            let mut f: usize = 0;
            let ghost mut layer_draws: Seq<Seq<usize>> = Seq::empty();
            let ghost base = all_draws(draws_g);
            proof {
                assert(concat_all(layer_draws) =~= Seq::<usize>::empty());
                assert(base + concat_all(layer_draws) =~= base);
                assert(next@ =~= first_seen(concat_all(layer_draws)));
            }
            while f < frontier.len()
                invariant
                    layer_draws.len() == f,
                    k == self.num_neighbors@[self.num_neighbors@.len() - 1 - l],
                    forall|j: int| 0 <= j < f ==> neighbor_draw(arcs_from(adj@, n as nat, frontier@[j] as int, n as nat), k,
                        self.replace, #[trigger] layer_draws[j]),
                    next@ == first_seen(concat_all(layer_draws)),
                    sampled@ == first_seen(base + concat_all(layer_draws)),
                    adj@.len() == n * n,
                    total == adj@.len(),
                    distinct_nodes(frontier@, n as nat),
                    f <= frontier@.len(),
                    distinct_nodes(next@, n as nat),
                    distinct_nodes(sampled@, n as nat),
                    in_next@.len() == n,
                    in_sample@.len() == n,
                    forall|j: int| 0 <= j < n ==> (#[trigger] in_next@[j] <==> next@.contains(j as usize)),
                    forall|j: int| 0 <= j < n ==> (#[trigger] in_sample@[j] <==> sampled@.contains(j as usize)),
                    forall|i: int| 0 <= i < next@.len() ==> #[trigger] has_in_edge(adj@, n as nat, next@[i] as int),
                    forall|i: int| 0 <= i < sampled@.len() ==> #[trigger] has_in_edge(adj@, n as nat, sampled@[i] as int),
                decreases frontier@.len() - f,
            {
                let u = frontier[f];
                let mut neighbors: Vec<usize> = Vec::new();
                let mut t: usize = 0;
                while t < n
                    invariant
                        adj@.len() == n * n,
                        total == adj@.len(),
                        u < n,
                        t <= n,
                        neighbors@ == arcs_from(adj@, n as nat, u as int, t as nat),
                        forall|i: int| 0 <= i < neighbors@.len() ==> #[trigger] neighbors@[i] < n
                            && arc(adj@, n as nat, u as int, neighbors@[i] as int),
                    decreases n - t,
                {
                    proof {
                        lemma_cell(u as int, t as int, n as int);
                    }
                    if adj[u * n + t] {
                        neighbors.push(t);
                    }
                    t = t + 1;
                }
                let picked = self.sample_neighbors(&neighbors, k, &mut rng);
                proof {
                    assert forall|i: int| 0 <= i < picked@.len() implies #[trigger] picked@[i] < n
                        && arc(adj@, n as nat, u as int, picked@[i] as int) by {
                        if neighbors@.len() > 0 && self.replace {
                            assert(neighbors@.contains(picked@[i]));
                        } else if neighbors@.len() > 0 {
                            let pos = choose|pos: Seq<usize>| #[trigger] distinct_nodes(pos, neighbors@.len()) && pos.len() == picked@.len()
                                && forall|q: int| 0 <= q < picked@.len() ==> picked@[q] == neighbors@[#[trigger] pos[q] as int];
                            assert(picked@[i] == neighbors@[pos[i] as int]);
                            assert(pos[i] < neighbors@.len());
                        }
                    }
                }
                let mut p: usize = 0;
                let ghost done = concat_all(layer_draws);
                proof {
                    assert(picked@.take(0) =~= Seq::<usize>::empty());
                    assert(done + picked@.take(0) =~= done);
                    assert(base + done + picked@.take(0) =~= base + done);
                }
                while p < picked.len()
                    invariant
                        adj@.len() == n * n,
                        u < n,
                        p <= picked@.len(),
                        next@ == first_seen(done + picked@.take(p as int)),
                        sampled@ == first_seen(base + done + picked@.take(p as int)),
                        forall|i: int| 0 <= i < picked@.len() ==> #[trigger] picked@[i] < n
                            && arc(adj@, n as nat, u as int, picked@[i] as int),
                        distinct_nodes(next@, n as nat),
                        distinct_nodes(sampled@, n as nat),
                        in_next@.len() == n,
                        in_sample@.len() == n,
                        forall|j: int| 0 <= j < n ==> (#[trigger] in_next@[j] <==> next@.contains(j as usize)),
                        forall|j: int| 0 <= j < n ==> (#[trigger] in_sample@[j] <==> sampled@.contains(j as usize)),
                        forall|i: int| 0 <= i < next@.len() ==> #[trigger] has_in_edge(adj@, n as nat, next@[i] as int),
                        forall|i: int| 0 <= i < sampled@.len() ==> #[trigger] has_in_edge(adj@, n as nat, sampled@[i] as int),
                    decreases picked@.len() - p,
                {
                    let x = picked[p];
                    assert(arc(adj@, n as nat, u as int, x as int));
                    assert(has_in_edge(adj@, n as nat, x as int));
                    proof {
                        let a = done + picked@.take(p as int);
                        let b = base + done + picked@.take(p as int);
                        assert(done + picked@.take(p + 1) =~= a.push(x));
                        assert(base + done + picked@.take(p + 1) =~= b.push(x));
                        assert(a.push(x).drop_last() =~= a);
                        assert(b.push(x).drop_last() =~= b);
                    }
                    if !in_next[x] {
                        let ghost old_next = next@;
                        let ghost old_in = in_next@;
                        next.push(x);
                        in_next.set(x, true);
                        proof {
                            assert forall|j: int| 0 <= j < n implies (#[trigger] in_next@[j] <==> next@.contains(j as usize)) by {
                                if j != x as int {
                                    assert(in_next@[j] == old_in[j]);
                                    if next@.contains(j as usize) {
                                        let q = choose|q: int| 0 <= q < next@.len() && next@[q] == j as usize;
                                        assert(q < old_next.len());
                                        assert(old_next.contains(j as usize));
                                    }
                                    if old_next.contains(j as usize) {
                                        let q = choose|q: int| 0 <= q < old_next.len() && old_next[q] == j as usize;
                                        assert(next@[q] == j as usize);
                                    }
                                } else {
                                    assert(next@[old_next.len() as int] == x);
                                }
                            }
                            assert forall|a: int, b: int| 0 <= a < b < next@.len() implies next@[a] != next@[b] by {
                                if b == old_next.len() {
                                    assert(next@[a] == old_next[a]);
                                    assert(old_next.contains(old_next[a]));
                                    assert(!old_in[x as int]);
                                }
                            }
                            assert forall|i: int| 0 <= i < next@.len() implies #[trigger] has_in_edge(adj@, n as nat, next@[i] as int) by {
                                if i < old_next.len() {
                                    assert(next@[i] == old_next[i]);
                                }
                            }
                        }
                    }
                    if !in_sample[x] {
                        let ghost old_s = sampled@;
                        let ghost old_in = in_sample@;
                        sampled.push(x);
                        in_sample.set(x, true);
                        proof {
                            assert forall|j: int| 0 <= j < n implies (#[trigger] in_sample@[j] <==> sampled@.contains(j as usize)) by {
                                if j != x as int {
                                    assert(in_sample@[j] == old_in[j]);
                                    if sampled@.contains(j as usize) {
                                        let q = choose|q: int| 0 <= q < sampled@.len() && sampled@[q] == j as usize;
                                        assert(q < old_s.len());
                                        assert(old_s.contains(j as usize));
                                    }
                                    if old_s.contains(j as usize) {
                                        let q = choose|q: int| 0 <= q < old_s.len() && old_s[q] == j as usize;
                                        assert(sampled@[q] == j as usize);
                                    }
                                } else {
                                    assert(sampled@[old_s.len() as int] == x);
                                }
                            }
                            assert forall|a: int, b: int| 0 <= a < b < sampled@.len() implies sampled@[a] != sampled@[b] by {
                                if b == old_s.len() {
                                    assert(sampled@[a] == old_s[a]);
                                    assert(old_s.contains(old_s[a]));
                                    assert(!old_in[x as int]);
                                }
                            }
                            assert forall|i: int| 0 <= i < sampled@.len() implies #[trigger] has_in_edge(adj@, n as nat, sampled@[i] as int) by {
                                if i < old_s.len() {
                                    assert(sampled@[i] == old_s[i]);
                                }
                            }
                        }
                    }
                    p = p + 1;
                }
                proof {
                    assert(picked@.take(p as int) =~= picked@);
                    let nl = layer_draws.push(picked@);
                    assert(nl.drop_last() =~= layer_draws);
                    assert(concat_all(nl) == done + picked@);
                    assert(base + done + picked@ =~= base + concat_all(nl));
                    assert forall|j: int| 0 <= j < f + 1 implies neighbor_draw(arcs_from(adj@, n as nat, frontier@[j] as int, n as nat), k,
                        self.replace, #[trigger] nl[j]) by {
                        if j < f {
                            assert(nl[j] == layer_draws[j]);
                        } else {
                            assert(nl[j] == picked@);
                        }
                    }
                    layer_draws = nl;
                }
                f = f + 1;
            }
            proof {
                lemma_node_run_step(adj@, n as nat, self.num_neighbors@, self.replace, frontiers, draws_g, l as int, layer_draws, next@);
                frontiers = frontiers.push(next@);
                draws_g = draws_g.push(layer_draws);
            }
            frontier = next;
            l = l + 1;
        }
        proof {
            assert(node_sampling_run(adj@, n as nat, self.spec_num_neighbors(), self.spec_replace(), frontiers, draws_g));
        }
        Ok(sampled)
    }

    /// The edges among `nodes`: every pair of positions `(i, j)` whose nodes
    /// the adjacency matrix joins, in increasing order.
    pub fn induced_edges(nodes: &Vec<usize>, adj: &Vec<bool>, n: usize) -> (r: Vec<(usize, usize)>)
        requires
            adj@.len() == n * n,
            forall|i: int| 0 <= i < nodes@.len() ==> #[trigger] nodes@[i] < n,
        ensures
            induced_edges(adj@, n as nat, nodes@, r@),
    {
        let m = nodes.len();
        let total = adj.len();
        let mut edges: Vec<(usize, usize)> = Vec::new();
        let mut i: usize = 0;
        while i < m
            invariant
                adj@.len() == n * n,
                total == adj@.len(),
                m == nodes@.len(),
                forall|q: int| 0 <= q < nodes@.len() ==> #[trigger] nodes@[q] < n,
                i <= m,
                forall|p: int| 0 <= p < edges@.len() ==> (#[trigger] edges@[p]).0 < i && edges@[p].1 < m
                    && arc(adj@, n as nat, nodes@[edges@[p].0 as int] as int, nodes@[edges@[p].1 as int] as int),
                forall|a: int, b: int| 0 <= a < i && 0 <= b < m
                    && #[trigger] arc(adj@, n as nat, nodes@[a] as int, nodes@[b] as int) ==> edges@.contains((a as usize, b as usize)),
                forall|p: int, q: int| 0 <= p < q < edges@.len() ==> (#[trigger] edges@[p]).0 < (#[trigger] edges@[q]).0
                    || (edges@[p].0 == edges@[q].0 && edges@[p].1 < edges@[q].1),
            decreases m - i,
        {
            let src = nodes[i];
            let ghost row_start = edges@.len();
            let mut j: usize = 0;
            while j < m
                invariant
                    adj@.len() == n * n,
                    total == adj@.len(),
                    m == nodes@.len(),
                    forall|q: int| 0 <= q < nodes@.len() ==> #[trigger] nodes@[q] < n,
                    i < m,
                    src == nodes@[i as int],
                    j <= m,
                    row_start <= edges@.len(),
                    forall|p: int| 0 <= p < row_start ==> (#[trigger] edges@[p]).0 < i,
                    forall|p: int| row_start <= p < edges@.len() ==> (#[trigger] edges@[p]).0 == i && edges@[p].1 < j,
                    forall|p: int| 0 <= p < edges@.len() ==> (#[trigger] edges@[p]).0 <= i && edges@[p].1 < m
                        && arc(adj@, n as nat, nodes@[edges@[p].0 as int] as int, nodes@[edges@[p].1 as int] as int),
                    forall|a: int, b: int| 0 <= a < i && 0 <= b < m
                        && #[trigger] arc(adj@, n as nat, nodes@[a] as int, nodes@[b] as int) ==> edges@.contains((a as usize, b as usize)),
                    forall|b: int| 0 <= b < j && #[trigger] arc(adj@, n as nat, nodes@[i as int] as int, nodes@[b] as int)
                        ==> edges@.contains((i, b as usize)),
                    forall|p: int, q: int| 0 <= p < q < edges@.len() ==> (#[trigger] edges@[p]).0 < (#[trigger] edges@[q]).0
                        || (edges@[p].0 == edges@[q].0 && edges@[p].1 < edges@[q].1),
                decreases m - j,
            {
                let dst = nodes[j];
                proof {
                    lemma_cell(src as int, dst as int, n as int);
                }
                if adj[src * n + dst] {
                    let ghost before = edges@;
                    edges.push((i, j));
                    proof {
                        assert(edges@[before.len() as int] == (i, j));
                        assert forall|a: int, b: int| 0 <= a < i && 0 <= b < m
                            && #[trigger] arc(adj@, n as nat, nodes@[a] as int, nodes@[b] as int) implies edges@.contains((a as usize, b as usize)) by {
                            assert(before.contains((a as usize, b as usize)));
                            let q = choose|q: int| 0 <= q < before.len() && before[q] == (a as usize, b as usize);
                            assert(edges@[q] == before[q]);
                        }
                        assert forall|b: int| 0 <= b < j + 1 && #[trigger] arc(adj@, n as nat, nodes@[i as int] as int, nodes@[b] as int)
                            implies edges@.contains((i, b as usize)) by {
                            if b < j {
                                assert(before.contains((i, b as usize)));
                                let q = choose|q: int| 0 <= q < before.len() && before[q] == (i, b as usize);
                                assert(edges@[q] == before[q]);
                            }
                        }
                    }
                }
                j = j + 1;
            }
            proof {
                assert forall|a: int, b: int| 0 <= a < i + 1 && 0 <= b < m
                    && #[trigger] arc(adj@, n as nat, nodes@[a] as int, nodes@[b] as int) implies edges@.contains((a as usize, b as usize)) by {
                    if a == i as int {
                        assert(arc(adj@, n as nat, nodes@[i as int] as int, nodes@[b] as int));
                    }
                }
            }
            i = i + 1;
        }
        edges
    }
}

/// The steps of a walk: each node paired with the next.
pub open spec fn walk_steps(w: Seq<usize>) -> Seq<(usize, usize)> {
    if w.len() == 0 {
        Seq::empty()
    } else {
        Seq::new((w.len() - 1) as nat, |i: int| (w[i], w[i + 1]))
    }
}

/// The steps of all walks, walk after walk.
pub open spec fn all_steps(walks: Seq<Seq<usize>>) -> Seq<(usize, usize)>
    decreases walks.len(),
{
    if walks.len() == 0 {
        Seq::empty()
    } else {
        all_steps(walks.drop_last()) + walk_steps(walks.last())
    }
}

/// Each node of a walk with its position in the walk, capped at `max_hops`.
pub open spec fn walk_visits(w: Seq<usize>, max_hops: usize) -> Seq<(usize, usize)> {
    Seq::new(w.len(), |i: int| (w[i], if i < max_hops { i as usize } else { max_hops }))
}

/// The visits of all walks, walk after walk.
pub open spec fn all_visits(walks: Seq<Seq<usize>>, max_hops: usize) -> Seq<(usize, usize)>
    decreases walks.len(),
{
    if walks.len() == 0 {
        Seq::empty()
    } else {
        all_visits(walks.drop_last(), max_hops) + walk_visits(walks.last(), max_hops)
    }
}

/// The first visit of each node, in order of first appearance.
pub open spec fn first_visits(v: Seq<(usize, usize)>) -> Seq<(usize, usize)>
    decreases v.len(),
{
    if v.len() == 0 {
        Seq::empty()
    } else {
        let prev = first_visits(v.drop_last());
        if exists|k: int| 0 <= k < prev.len() && #[trigger] prev[k].0 == v.last().0 {
            prev
        } else {
            prev.push(v.last())
        }
    }
}

/// The items of `s` without repeats, in order of first appearance.
pub open spec fn without_repeats(s: Seq<(usize, usize)>) -> Seq<(usize, usize)>
    decreases s.len(),
{
    if s.len() == 0 {
        Seq::empty()
    } else {
        let prev = without_repeats(s.drop_last());
        if prev.contains(s.last()) {
            prev
        } else {
            prev.push(s.last())
        }
    }
}

/// The first visits name each visited node once: no two share a node, and
/// every visited node has one.
pub proof fn law_first_visits_once(v: Seq<(usize, usize)>)
    ensures
        forall|i: int, j: int| 0 <= i < j < first_visits(v).len() ==> (#[trigger] first_visits(v)[i]).0 != (#[trigger] first_visits(v)[j]).0,
        forall|k: int| 0 <= k < v.len() ==> exists|i: int| 0 <= i < first_visits(v).len() && (#[trigger] first_visits(v)[i]).0 == (#[trigger] v[k]).0,
        forall|i: int| 0 <= i < first_visits(v).len() ==> v.contains(#[trigger] first_visits(v)[i]),
    decreases v.len(),
{
    if v.len() > 0 {
        let t = v.drop_last();
        law_first_visits_once(t);
        let prev = first_visits(t);
        let l = v.last();
        assert forall|k: int| 0 <= k < v.len() implies exists|i: int| 0 <= i < first_visits(v).len() && (#[trigger] first_visits(v)[i]).0 == (#[trigger] v[k]).0 by {
            if k < t.len() {
                assert(v[k] == t[k]);
                let i = choose|i: int| 0 <= i < prev.len() && (#[trigger] prev[i]).0 == (#[trigger] t[k]).0;
                if !(exists|q: int| 0 <= q < prev.len() && #[trigger] prev[q].0 == l.0) {
                    assert(first_visits(v)[i] == prev[i]);
                }
            } else if exists|q: int| 0 <= q < prev.len() && #[trigger] prev[q].0 == l.0 {
                let q = choose|q: int| 0 <= q < prev.len() && #[trigger] prev[q].0 == l.0;
                assert(first_visits(v)[q] == prev[q]);
            } else {
                assert(first_visits(v)[prev.len() as int] == l);
            }
        }
        assert forall|i: int| 0 <= i < first_visits(v).len() implies v.contains(#[trigger] first_visits(v)[i]) by {
            if i < prev.len() {
                assert(first_visits(v)[i] == prev[i]);
                assert(t.contains(prev[i]));
                let k = choose|k: int| 0 <= k < t.len() && t[k] == prev[i];
                assert(v[k] == t[k]);
            } else {
                assert(first_visits(v)[i] == l);
                assert(v[v.len() - 1] == l);
            }
        }
    }
}

/// The list without repeats holds each item of the list exactly once.
pub proof fn law_without_repeats_once(s: Seq<(usize, usize)>)
    ensures
        without_repeats(s).no_duplicates(),
        forall|x: (usize, usize)| without_repeats(s).contains(x) <==> s.contains(x),
    decreases s.len(),
{
    if s.len() > 0 {
        let t = s.drop_last();
        let l = s.last();
        law_without_repeats_once(t);
        let prev = without_repeats(t);
        assert forall|x: (usize, usize)| without_repeats(s).contains(x) <==> s.contains(x) by {
            if s.contains(x) {
                let i = choose|i: int| 0 <= i < s.len() && s[i] == x;
                if i < t.len() {
                    assert(t[i] == x);
                }
            }
            if t.contains(x) {
                let i = choose|i: int| 0 <= i < t.len() && t[i] == x;
                assert(s[i] == x);
            }
            if x == l {
                assert(s[s.len() - 1] == x);
            }
            if !prev.contains(l) {
                let ps = prev.push(l);
                if ps.contains(x) {
                    let i = choose|i: int| 0 <= i < ps.len() && ps[i] == x;
                    if i < prev.len() {
                        assert(prev[i] == x);
                    }
                }
                if prev.contains(x) {
                    let i = choose|i: int| 0 <= i < prev.len() && prev[i] == x;
                    assert(ps[i] == x);
                }
                if x == l {
                    assert(ps[prev.len() as int] == l);
                }
            }
        }
        if !prev.contains(l) {
            let ps = prev.push(l);
            assert forall|i: int, j: int| 0 <= i < ps.len() && 0 <= j < ps.len() && i != j implies ps[i] != ps[j] by {
                if i < prev.len() && j < prev.len() {
                } else if i < prev.len() {
                    assert(prev.contains(ps[i]));
                } else {
                    assert(prev.contains(ps[j]));
                }
            }
        }
    }
}

pub(crate) fn has_node(list: &Vec<(usize, usize)>, x: usize) -> (r: bool)
    ensures
        r == exists|k: int| 0 <= k < list@.len() && #[trigger] list@[k].0 == x,
{
    let mut i: usize = 0;
    while i < list.len()
        invariant
            i <= list@.len(),
            forall|k: int| 0 <= k < i ==> #[trigger] list@[k].0 != x,
        decreases list@.len() - i,
    {
        if list[i].0 == x {
            return true;
        }
        i = i + 1;
    }
    false
}

fn has_pair(list: &Vec<(usize, usize)>, e: (usize, usize)) -> (r: bool)
    ensures
        r == list@.contains(e),
{
    let mut i: usize = 0;
    while i < list.len()
        invariant
            i <= list@.len(),
            forall|k: int| 0 <= k < i ==> #[trigger] list@[k] != e,
        decreases list@.len() - i,
    {
        if list[i].0 == e.0 && list[i].1 == e.1 {
            return true;
        }
        i = i + 1;
    }
    false
}

/// The subgraph that random walks trace. The nodes are those the walks
/// visit, in order of first appearance, each with the position at which it
/// was first met in its walk, capped at `max_hops`; the edges are the steps
/// of the walks, in order of first appearance and without repeats.
pub fn walk_to_subgraph(walks: &Vec<Vec<usize>>, max_hops: usize) -> (r: (Vec<(usize, usize)>, Vec<(usize, usize)>))
    ensures
        r.0@ == first_visits(all_visits(walks@.map_values(|w: Vec<usize>| w@), max_hops)),
        r.1@ == without_repeats(all_steps(walks@.map_values(|w: Vec<usize>| w@))),
{
    let ghost ws = walks@.map_values(|w: Vec<usize>| w@);
    let mut nodes: Vec<(usize, usize)> = Vec::new();
    let mut edges: Vec<(usize, usize)> = Vec::new();
    let mut w: usize = 0;
    proof {
        assert(ws.take(0) =~= Seq::<Seq<usize>>::empty());
    }
    while w < walks.len()
        invariant
            ws == walks@.map_values(|w: Vec<usize>| w@),
            w <= walks@.len(),
            nodes@ == first_visits(all_visits(ws.take(w as int), max_hops)),
            edges@ == without_repeats(all_steps(ws.take(w as int))),
        decreases walks@.len() - w,
    {
        let walk = &walks[w];
        let ghost vdone = all_visits(ws.take(w as int), max_hops);
        let ghost sdone = all_steps(ws.take(w as int));
        let ghost wv = walk_visits(walk@, max_hops);
        let ghost wsteps = walk_steps(walk@);
        proof {
            assert(ws.take(w + 1).drop_last() =~= ws.take(w as int));
            assert(ws.take(w + 1).last() == walk@);
            assert(vdone + wv.take(0) =~= vdone);
            assert(sdone + wsteps.take(0) =~= sdone);
        }
        let mut i: usize = 0;
        while i < walk.len()
            invariant
                i <= walk@.len(),
                wv == walk_visits(walk@, max_hops),
                wsteps == walk_steps(walk@),
                nodes@ == first_visits(vdone + wv.take(i as int)),
                edges@ == without_repeats(sdone + wsteps.take(if i == 0 { 0int } else { i - 1 })),
            decreases walk@.len() - i,
        {
            let x = walk[i];
            let hop = if i < max_hops { i } else { max_hops };
            let ghost before = vdone + wv.take(i as int);
            proof {
                assert(wv[i as int] == (x, hop));
                assert(vdone + wv.take(i + 1) =~= before.push((x, hop)));
                assert(before.push((x, hop)).drop_last() =~= before);
            }
            if !has_node(&nodes, x) {
                nodes.push((x, hop));
            }
            if i > 0 {
                let e = (walk[i - 1], x);
                let ghost sbefore = sdone + wsteps.take(i - 1);
                proof {
                    assert(wsteps[i - 1] == e);
                    assert(sdone + wsteps.take(i as int) =~= sbefore.push(e));
                    assert(sbefore.push(e).drop_last() =~= sbefore);
                }
                if !has_pair(&edges, e) {
                    edges.push(e);
                }
            }
            i = i + 1;
        }
        proof {
            assert(wv.take(i as int) =~= wv);
            if walk@.len() == 0 {
                assert(wsteps =~= Seq::<(usize, usize)>::empty());
            } else {
                assert(wsteps.take(i - 1) =~= wsteps);
            }
            assert(all_visits(ws.take(w + 1), max_hops) == vdone + wv);
            assert(all_steps(ws.take(w + 1)) == sdone + wsteps);
        }
        w = w + 1;
    }
    proof {
        assert(ws.take(w as int) =~= ws);
    }
    (nodes, edges)
}

/// `nodes` lists each end of the steps once, and `edges` is the steps with
/// each end replaced by its position in `nodes`.
pub open spec fn relabelled(steps: Seq<(usize, usize)>, nodes: Seq<usize>, edges: Seq<(usize, usize)>) -> bool {
    &&& forall|i: int, j: int| 0 <= i < j < nodes.len() ==> nodes[i] != nodes[j]
    &&& forall|i: int| #![trigger nodes[i]] 0 <= i < nodes.len() ==> exists|k: int| 0 <= k < steps.len()
        && ((#[trigger] steps[k]).0 == nodes[i] || steps[k].1 == nodes[i])
    &&& edges.len() == steps.len()
    &&& forall|k: int| 0 <= k < edges.len() ==> (#[trigger] edges[k]).0 < nodes.len() && edges[k].1 < nodes.len()
        && nodes[edges[k].0 as int] == steps[k].0 && nodes[edges[k].1 as int] == steps[k].1
}

fn node_slot(nodes: &mut Vec<usize>, x: usize) -> (r: usize)
    requires
        forall|i: int, j: int| 0 <= i < j < old(nodes)@.len() ==> old(nodes)@[i] != old(nodes)@[j],
    ensures
        forall|i: int, j: int| 0 <= i < j < final(nodes)@.len() ==> final(nodes)@[i] != final(nodes)@[j],
        r < final(nodes)@.len(),
        final(nodes)@[r as int] == x,
        old(nodes)@.contains(x) ==> final(nodes)@ == old(nodes)@,
        !old(nodes)@.contains(x) ==> final(nodes)@ == old(nodes)@.push(x),
{
    let mut i: usize = 0;
    while i < nodes.len()
        invariant
            i <= nodes@.len(),
            nodes@ == old(nodes)@,
            forall|a: int, b: int| 0 <= a < b < nodes@.len() ==> nodes@[a] != nodes@[b],
            forall|j: int| 0 <= j < i ==> nodes@[j] != x,
        decreases nodes@.len() - i,
    {
        if nodes[i] == x {
            return i;
        }
        i = i + 1;
    }
    let ghost before = nodes@;
    nodes.push(x);
    proof {
        assert forall|a: int, b: int| 0 <= a < b < nodes@.len() implies nodes@[a] != nodes@[b] by {
            if b == before.len() {
                assert(nodes@[a] == before[a]);
            } else {
                assert(nodes@[a] == before[a] && nodes@[b] == before[b]);
            }
        }
    }
    i
}

/// The subgraph on the nodes that the steps of random walks touch: each
/// such node once, and every step, repeats kept, as an edge between the
/// positions of its ends.
pub fn relabel_walk_steps(walks: &Vec<Vec<usize>>) -> (r: (Vec<usize>, Vec<(usize, usize)>))
    ensures
        relabelled(all_steps(walks@.map_values(|w: Vec<usize>| w@)), r.0@, r.1@),
{
    let ghost ws = walks@.map_values(|w: Vec<usize>| w@);
    let mut nodes: Vec<usize> = Vec::new();
    let mut edges: Vec<(usize, usize)> = Vec::new();
    let mut w: usize = 0;
    proof {
        assert(ws.take(0) =~= Seq::<Seq<usize>>::empty());
    }
    while w < walks.len()
        invariant
            ws == walks@.map_values(|w: Vec<usize>| w@),
            w <= walks@.len(),
            relabelled(all_steps(ws.take(w as int)), nodes@, edges@),
        decreases walks@.len() - w,
    {
        let walk = &walks[w];
        let ghost done = all_steps(ws.take(w as int));
        proof {
            assert(ws.take(w + 1).drop_last() =~= ws.take(w as int));
            assert(ws.take(w + 1).last() == walk@);
            assert(done + walk_steps(walk@).take(0) =~= done);
        }
        let mut i: usize = 1;
        while i < walk.len()
            invariant
                1 <= i,
                i <= walk@.len() || i == 1,
                relabelled(done + walk_steps(walk@).take(i - 1), nodes@, edges@),
            decreases walk@.len() - i,
        {
            let ghost steps = done + walk_steps(walk@).take(i - 1);
            let ghost next = done + walk_steps(walk@).take(i as int);
            let ghost old_nodes = nodes@;
            let ghost old_edges = edges@;
            proof {
                assert(walk_steps(walk@)[i - 1] == (walk@[i - 1], walk@[i as int]));
                assert(next =~= steps.push((walk@[i - 1], walk@[i as int])));
            }
            let a = node_slot(&mut nodes, walk[i - 1]);
            let ghost mid_nodes = nodes@;
            let b = node_slot(&mut nodes, walk[i]);
            edges.push((a, b));
            proof {
                let e = (walk@[i - 1], walk@[i as int]);
                assert forall|x: int| 0 <= x < mid_nodes.len() implies nodes@[x] == mid_nodes[x] by {
                    if !mid_nodes.contains(walk@[i as int]) {
                        assert(nodes@ == mid_nodes.push(walk@[i as int]));
                    }
                }
                assert forall|x: int| 0 <= x < old_nodes.len() implies mid_nodes[x] == old_nodes[x] by {
                    if !old_nodes.contains(walk@[i - 1]) {
                        assert(mid_nodes == old_nodes.push(walk@[i - 1]));
                    }
                }
                assert forall|k: int| 0 <= k < edges@.len() implies (#[trigger] edges@[k]).0 < nodes@.len() && edges@[k].1 < nodes@.len()
                    && nodes@[edges@[k].0 as int] == next[k].0 && nodes@[edges@[k].1 as int] == next[k].1 by {
                    if k < old_edges.len() {
                        assert(edges@[k] == old_edges[k]);
                        assert(next[k] == steps[k]);
                    } else {
                        assert(edges@[k] == (a, b));
                        assert(next[k] == e);
                    }
                }
                assert forall|x: int| #![trigger nodes@[x]] 0 <= x < nodes@.len() implies exists|k: int| 0 <= k < next.len()
                    && ((#[trigger] next[k]).0 == nodes@[x] || next[k].1 == nodes@[x]) by {
                    if x < old_nodes.len() {
                        let k = choose|k: int| 0 <= k < steps.len() && ((#[trigger] steps[k]).0 == old_nodes[x] || steps[k].1 == old_nodes[x]);
                        assert(next[k] == steps[k]);
                    } else {
                        let k = steps.len() as int;
                        assert(next[k] == e);
                        if x < mid_nodes.len() {
                            assert(mid_nodes == old_nodes.push(walk@[i - 1]));
                            assert(nodes@[x] == walk@[i - 1]);
                        } else {
                            assert(nodes@ == mid_nodes.push(walk@[i as int]));
                            assert(nodes@[x] == walk@[i as int]);
                        }
                    }
                }
            }
            i = i + 1;
        }
        proof {
            if walk@.len() == 0 {
                assert(walk_steps(walk@) =~= Seq::<(usize, usize)>::empty());
                assert(walk_steps(walk@).take(0) =~= Seq::<(usize, usize)>::empty());
            } else {
                assert(walk_steps(walk@).take(i - 1) =~= walk_steps(walk@));
            }
            assert(done + walk_steps(walk@).take(i - 1) =~= done + walk_steps(walk@));
            assert(all_steps(ws.take(w + 1)) == done + walk_steps(walk@));
        }
        w = w + 1;
    }
    proof {
        assert(ws.take(w as int) =~= ws);
    }
    (nodes, edges)
}

} // verus!
