//! Layer-wise neighbour sampling over adjacency lists: from the seed nodes,
//! each layer draws up to a fanout of neighbours of every node of the
//! previous layer, with the random choices made by the `rand` crate.
use vstd::prelude::*;
use vstd::string::*;
use rand::rngs::StdRng;
use crate::sampling::{distinct_nodes, has_node, seeded_rng, seeding_failure_message};
use crate::error::{GraphError, GraphResult};

verus! {

broadcast use vstd::seq_lib::group_to_multiset_ensures;

/// `SliceRandom::choose` of the `rand` crate with the given generator:
/// nothing from an empty slice, otherwise one of its items, which one being
/// left to the generator.
#[verifier::external_body]
fn choose_one(items: &Vec<usize>, rng: &mut StdRng) -> (r: Option<usize>)
    ensures
        r is None <==> items@.len() == 0,
        r matches Some(x) ==> items@.contains(x),
{
    rand::seq::SliceRandom::choose(items.as_slice(), rng).copied()
}

/// `SliceRandom::choose_multiple` of the `rand` crate with the given
/// generator, collected: `min(amount, len)` items taken at distinct
/// positions of the slice (`rand::seq::index::sample`), which positions and
/// in which order being left to the generator.
#[verifier::external_body]
fn choose_several(items: &Vec<usize>, rng: &mut StdRng, amount: usize) -> (r: Vec<usize>)
    ensures
        r@.len() == if amount < items@.len() { amount as int } else { items@.len() as int },
        exists|pos: Seq<usize>| #[trigger] distinct_nodes(pos, items@.len()) && pos.len() == r@.len()
            && forall|i: int| 0 <= i < r@.len() ==> r@[i] == items@[#[trigger] pos[i] as int],
{
    rand::seq::SliceRandom::choose_multiple(items.as_slice(), rng, amount).copied().collect()
}

/// A draw of neighbours for one node. With replacement, or when the node
/// has no more neighbours than the fanout, `min(fanout, len)` draws, each a
/// neighbour; otherwise `fanout` neighbours taken at distinct positions.
pub open spec fn fair_draw(nbrs: Seq<usize>, fanout: usize, replace: bool, picks: Seq<usize>) -> bool {
    if replace || nbrs.len() <= fanout {
        &&& picks.len() == if fanout < nbrs.len() { fanout as int } else { nbrs.len() as int }
        &&& forall|i: int| 0 <= i < picks.len() ==> nbrs.contains(#[trigger] picks[i])
    } else {
        &&& picks.len() == fanout
        &&& exists|pos: Seq<usize>| #[trigger] distinct_nodes(pos, nbrs.len()) && pos.len() == picks.len()
            && forall|i: int| 0 <= i < picks.len() ==> picks[i] == nbrs[#[trigger] pos[i] as int]
    }
}

/// The candidate edges of a layer: each node with each of its picks, node
/// after node.
pub open spec fn layer_pairs(nodes: Seq<usize>, picks: Seq<Seq<usize>>) -> Seq<(usize, usize)>
    decreases nodes.len(),
{
    if nodes.len() == 0 {
        Seq::empty()
    } else {
        layer_pairs(nodes.drop_last(), picks.drop_last()) + picks.last().map_values(|x: usize| (nodes.last(), x))
    }
}

/// The items of `s` without repeats, in order of first appearance.
pub open spec fn first_seen(s: Seq<usize>) -> Seq<usize>
    decreases s.len(),
{
    if s.len() == 0 {
        Seq::empty()
    } else {
        let prev = first_seen(s.drop_last());
        if prev.contains(s.last()) {
            prev
        } else {
            prev.push(s.last())
        }
    }
}

/// The second ends of the pairs.
pub open spec fn targets(pairs: Seq<(usize, usize)>) -> Seq<usize> {
    pairs.map_values(|p: (usize, usize)| p.1)
}

fn has_item(list: &Vec<usize>, x: usize) -> (r: bool)
    ensures
        r == list@.contains(x),
{
    let mut i: usize = 0;
    while i < list.len()
        invariant
            i <= list@.len(),
            forall|k: int| 0 <= k < i ==> list@[k] != x,
        decreases list@.len() - i,
    {
        if list[i] == x {
            return true;
        }
        i = i + 1;
    }
    false
}

/// Every draw is a neighbour.
proof fn lemma_draw_members(nbrs: Seq<usize>, fanout: usize, replace: bool, picks: Seq<usize>, i: int)
    requires
        fair_draw(nbrs, fanout, replace, picks),
        0 <= i < picks.len(),
    ensures
        nbrs.contains(picks[i]),
{
    if !(replace || nbrs.len() <= fanout) {
        let pos = choose|pos: Seq<usize>| #[trigger] distinct_nodes(pos, nbrs.len()) && pos.len() == picks.len()
            && forall|j: int| 0 <= j < picks.len() ==> picks[j] == nbrs[#[trigger] pos[j] as int];
        assert(pos[i] < nbrs.len());
        assert(picks[i] == nbrs[pos[i] as int]);
    }
}

/// Each pair of a layer is a node of the layer with one of its draws.
proof fn lemma_layer_pairs_members(nodes: Seq<usize>, picks: Seq<Seq<usize>>, p: int)
    requires
        picks.len() == nodes.len(),
        0 <= p < layer_pairs(nodes, picks).len(),
    ensures
        exists|k: int| 0 <= k < nodes.len() && layer_pairs(nodes, picks)[p].0 == #[trigger] nodes[k]
            && picks[k].contains(layer_pairs(nodes, picks)[p].1),
    decreases nodes.len(),
{
    let prev = layer_pairs(nodes.drop_last(), picks.drop_last());
    let last = picks.last().map_values(|x: usize| (nodes.last(), x));
    assert(layer_pairs(nodes, picks) == prev + last);
    let k = nodes.len() - 1;
    if p < prev.len() {
        lemma_layer_pairs_members(nodes.drop_last(), picks.drop_last(), p);
        let j = choose|j: int| 0 <= j < nodes.drop_last().len() && prev[p].0 == #[trigger] nodes.drop_last()[j]
            && picks.drop_last()[j].contains(prev[p].1);
        assert(nodes[j] == nodes.drop_last()[j]);
        assert(picks[j] == picks.drop_last()[j]);
    } else {
        let q = p - prev.len();
        assert(layer_pairs(nodes, picks)[p] == last[q]);
        assert(last[q] == (nodes[k], picks[k][q]));
        assert(picks[k].contains(picks[k][q]));
    }
}

/// The repeats-free list holds exactly the items of the list.
proof fn lemma_first_seen_contains(s: Seq<usize>, x: usize)
    ensures
        first_seen(s).contains(x) <==> s.contains(x),
    decreases s.len(),
{
    if s.len() > 0 {
        let t = s.drop_last();
        let l = s.last();
        let prev = first_seen(t);
        lemma_first_seen_contains(t, x);
        if s.contains(x) {
            let i = choose|i: int| 0 <= i < s.len() && s[i] == x;
            if i < s.len() - 1 {
                assert(t[i] == x);
            }
        }
        if t.contains(x) {
            let i = choose|i: int| 0 <= i < t.len() && t[i] == x;
            assert(s[i] == x);
        }
        if x == l {
            assert(s[s.len() - 1] == x);
        }
        if !prev.contains(l) {
            let ps = prev.push(l);
            if ps.contains(x) {
                let i = choose|i: int| 0 <= i < ps.len() && ps[i] == x;
                if i < prev.len() {
                    assert(prev[i] == x);
                }
            }
            if prev.contains(x) {
                let i = choose|i: int| 0 <= i < prev.len() && prev[i] == x;
                assert(ps[i] == x);
            }
            if x == l {
                assert(ps[prev.len() as int] == l);
            }
        }
    }
}

/// `x` is the node of some entry of `nodes`.
pub open spec fn recorded(nodes: Seq<(usize, usize)>, x: usize) -> bool {
    exists|i: int| 0 <= i < nodes.len() && (#[trigger] nodes[i]).0 == x
}

/// An entry keeps being recorded when entries are added after it.
proof fn lemma_recorded_grows(a: Seq<(usize, usize)>, b: Seq<(usize, usize)>, x: usize)
    requires
        recorded(a, x),
        a.len() <= b.len(),
        forall|i: int| 0 <= i < a.len() ==> #[trigger] b[i] == a[i],
    ensures
        recorded(b, x),
{
    let i = choose|i: int| 0 <= i < a.len() && (#[trigger] a[i]).0 == x;
    assert(b[i] == a[i]);
}

/// `entries` after recording the nodes of `layer`, in order, at `depth`:
/// each node not recorded before is added once.
pub open spec fn recorded_after(entries: Seq<(usize, usize)>, layer: Seq<usize>, depth: usize) -> Seq<(usize, usize)>
    decreases layer.len(),
{
    if layer.len() == 0 {
        entries
    } else {
        let prev = recorded_after(entries, layer.drop_last(), depth);
        if recorded(prev, layer.last()) {
            prev
        } else {
            prev.push((layer.last(), depth))
        }
    }
}

/// The recorded nodes after `k` layers: the seeds at depth 0, then the new
/// nodes of each layer at its number.
pub open spec fn run_entries(seeds: Seq<usize>, layers: Seq<Seq<usize>>, k: nat) -> Seq<(usize, usize)>
    decreases k,
{
    if k == 0 {
        seeds.map_values(|s: usize| (s, 0usize))
    } else {
        recorded_after(run_entries(seeds, layers, (k - 1) as nat), layers[k as int], k as usize)
    }
}

/// The candidate edges of the first `k` layers, layer after layer.
pub open spec fn run_pairs(layers: Seq<Seq<usize>>, picks: Seq<Seq<Seq<usize>>>, k: nat) -> Seq<(usize, usize)>
    decreases k,
{
    if k == 0 {
        Seq::empty()
    } else {
        run_pairs(layers, picks, (k - 1) as nat) + layer_pairs(layers[k - 1], picks[k - 1])
    }
}

/// Layer `i` of a sampling run: its nodes are not empty, each drew its
/// neighbours fairly with the layer's fanout, and the next layer is the
/// distinct nodes drawn, in order of first draw.
pub open spec fn run_layer(lists: Seq<Vec<usize>>, fanouts: Seq<usize>, replace: bool,
    layers: Seq<Seq<usize>>, picks: Seq<Seq<Seq<usize>>>, i: int) -> bool {
    &&& layers[i].len() > 0
    &&& picks[i].len() == layers[i].len()
    &&& forall|j: int| 0 <= j < layers[i].len() ==> fair_draw(lists[layers[i][j] as int]@, fanouts[i], replace, #[trigger] picks[i][j])
    &&& layers[i + 1] == first_seen(targets(layer_pairs(layers[i], picks[i])))
}

/// A run of layer-wise sampling from `seeds`: the first layer is the seeds,
/// every layer drew as `run_layer` says, and the run stopped when the
/// fanouts ran out or a layer came out empty.
pub open spec fn sampling_run(lists: Seq<Vec<usize>>, seeds: Seq<usize>, fanouts: Seq<usize>, replace: bool,
    layers: Seq<Seq<usize>>, picks: Seq<Seq<Seq<usize>>>) -> bool {
    &&& layers.len() >= 1
    &&& layers[0] == seeds
    &&& picks.len() == layers.len() - 1
    &&& picks.len() <= fanouts.len()
    &&& forall|i: int| 0 <= i < picks.len() ==> #[trigger] run_layer(lists, fanouts, replace, layers, picks, i)
    &&& picks.len() == fanouts.len() || layers.last().len() == 0
}

/// Two sampling runs from the same seeds that made the same draws pass
/// through the same layers, so they record the same nodes at the same depths
/// and the same candidate edges: the sample is a function of the draws.
pub proof fn law_same_draws_same_sample(lists: Seq<Vec<usize>>, seeds: Seq<usize>, fanouts: Seq<usize>, replace: bool,
    layers1: Seq<Seq<usize>>, layers2: Seq<Seq<usize>>, picks: Seq<Seq<Seq<usize>>>)
    requires
        sampling_run(lists, seeds, fanouts, replace, layers1, picks),
        sampling_run(lists, seeds, fanouts, replace, layers2, picks),
    ensures
        layers1 == layers2,
        run_entries(seeds, layers1, picks.len()) == run_entries(seeds, layers2, picks.len()),
        run_pairs(layers1, picks, picks.len()) == run_pairs(layers2, picks, picks.len()),
{
    assert forall|i: int| 0 <= i < layers1.len() implies #[trigger] layers1[i] == layers2[i] by {
        lemma_same_layers(lists, seeds, fanouts, replace, layers1, layers2, picks, i);
    }
    assert(layers1 =~= layers2);
}

proof fn lemma_same_layers(lists: Seq<Vec<usize>>, seeds: Seq<usize>, fanouts: Seq<usize>, replace: bool,
    layers1: Seq<Seq<usize>>, layers2: Seq<Seq<usize>>, picks: Seq<Seq<Seq<usize>>>, i: int)
    requires
        sampling_run(lists, seeds, fanouts, replace, layers1, picks),
        sampling_run(lists, seeds, fanouts, replace, layers2, picks),
        0 <= i < layers1.len(),
    ensures
        layers1[i] == layers2[i],
    decreases i,
{
    if i > 0 {
        lemma_same_layers(lists, seeds, fanouts, replace, layers1, layers2, picks, i - 1);
        assert(run_layer(lists, fanouts, replace, layers1, picks, i - 1));
        assert(run_layer(lists, fanouts, replace, layers2, picks, i - 1));
    }
}

proof fn lemma_run_prefix(seeds: Seq<usize>, layers: Seq<Seq<usize>>, more: Seq<Seq<usize>>,
    picks: Seq<Seq<Seq<usize>>>, more_picks: Seq<Seq<Seq<usize>>>, k: nat)
    requires
        k < layers.len(),
        k <= picks.len(),
        layers.len() <= more.len(),
        picks.len() <= more_picks.len(),
        forall|i: int| 0 <= i < layers.len() ==> #[trigger] more[i] == layers[i],
        forall|i: int| 0 <= i < picks.len() ==> #[trigger] more_picks[i] == picks[i],
    ensures
        run_entries(seeds, more, k) == run_entries(seeds, layers, k),
        run_pairs(more, more_picks, k) == run_pairs(layers, picks, k),
    decreases k,
{
    if k > 0 {
        lemma_run_prefix(seeds, layers, more, picks, more_picks, (k - 1) as nat);
        assert(more[k as int] == layers[k as int]);
        assert(more[k - 1] == layers[k - 1]);
        assert(more_picks[k - 1] == picks[k - 1]);
    }
}

/// One more layer of a sampling run.
proof fn lemma_run_step(lists: Seq<Vec<usize>>, seeds: Seq<usize>, fanouts: Seq<usize>, replace: bool,
    layers: Seq<Seq<usize>>, picks: Seq<Seq<Seq<usize>>>, k: nat, new_picks: Seq<Seq<usize>>, next: Seq<usize>,
    nodes_after: Seq<(usize, usize)>, pairs_after: Seq<(usize, usize)>)
    requires
        layers.len() == k + 1,
        picks.len() == k,
        k < fanouts.len(),
        forall|i: int| 0 <= i < k ==> #[trigger] run_layer(lists, fanouts, replace, layers, picks, i),
        layers[k as int].len() > 0,
        new_picks.len() == layers[k as int].len(),
        forall|j: int| 0 <= j < layers[k as int].len() ==> fair_draw(lists[layers[k as int][j] as int]@, fanouts[k as int], replace, #[trigger] new_picks[j]),
        next == first_seen(targets(layer_pairs(layers[k as int], new_picks))),
        nodes_after == recorded_after(run_entries(seeds, layers, k), next, (k + 1) as usize),
        pairs_after == run_pairs(layers, picks, k) + layer_pairs(layers[k as int], new_picks),
    ensures
        forall|i: int| 0 <= i < k + 1 ==> #[trigger] run_layer(lists, fanouts, replace, layers.push(next), picks.push(new_picks), i),
        nodes_after == run_entries(seeds, layers.push(next), k + 1),
        pairs_after == run_pairs(layers.push(next), picks.push(new_picks), k + 1),
{
    let l2 = layers.push(next);
    let p2 = picks.push(new_picks);
    lemma_run_prefix(seeds, layers, l2, picks, p2, k);
    assert forall|i: int| 0 <= i < k + 1 implies #[trigger] run_layer(lists, fanouts, replace, l2, p2, i) by {
        if i < k {
            assert(run_layer(lists, fanouts, replace, layers, picks, i));
            assert(l2[i] == layers[i]);
            assert(l2[i + 1] == layers[i + 1]);
            assert(p2[i] == picks[i]);
        } else {
            assert(l2[i] == layers[i]);
            assert(l2[i + 1] == next);
            assert(p2[i] == new_picks);
        }
    }
    assert(l2[(k + 1) as int] == next);
    assert(l2[k as int] == layers[k as int]);
    assert(p2[k as int] == new_picks);
}

/// Records the neighbours drawn in a layer: each of `next` that is not yet
/// recorded is added at `depth`, and the layer's pairs are appended.
fn record_layer(nodes: &mut Vec<(usize, usize)>, pairs: &mut Vec<(usize, usize)>, next: &Vec<usize>,
    layer: &Vec<(usize, usize)>, depth: usize)
    ensures
        old(nodes)@.len() <= final(nodes)@.len(),
        forall|i: int| 0 <= i < old(nodes)@.len() ==> #[trigger] final(nodes)@[i] == old(nodes)@[i],
        forall|i: int| old(nodes)@.len() <= i < final(nodes)@.len() ==> (#[trigger] final(nodes)@[i]).1 == depth
            && next@.contains(final(nodes)@[i].0) && !recorded(old(nodes)@, final(nodes)@[i].0),
        forall|i: int, j: int| old(nodes)@.len() <= i < j < final(nodes)@.len()
            ==> (#[trigger] final(nodes)@[i]).0 != (#[trigger] final(nodes)@[j]).0,
        forall|k: int| 0 <= k < next@.len() ==> recorded(final(nodes)@, #[trigger] next@[k]),
        final(nodes)@ == recorded_after(old(nodes)@, next@, depth),
        final(pairs)@ == old(pairs)@ + layer@,
{
    let ghost nodes0 = nodes@;
    let mut j: usize = 0;
    proof {
        assert(next@.take(0) =~= Seq::<usize>::empty());
    }
    while j < next.len()
        invariant
            j <= next@.len(),
            nodes0.len() <= nodes@.len(),
            forall|i: int| 0 <= i < nodes0.len() ==> #[trigger] nodes@[i] == nodes0[i],
            forall|i: int| nodes0.len() <= i < nodes@.len() ==> (#[trigger] nodes@[i]).1 == depth
                && next@.contains(nodes@[i].0) && !recorded(nodes0, nodes@[i].0),
            forall|i: int, k: int| nodes0.len() <= i < k < nodes@.len() ==> (#[trigger] nodes@[i]).0 != (#[trigger] nodes@[k]).0,
            forall|k: int| 0 <= k < j ==> recorded(nodes@, #[trigger] next@[k]),
            nodes@ == recorded_after(nodes0, next@.take(j as int), depth),
        decreases next@.len() - j,
    {
        let x = next[j];
        let ghost before = nodes@;
        proof {
            assert(next@.take(j + 1).drop_last() =~= next@.take(j as int));
            assert(next@.take(j + 1).last() == x);
        }
        let seen = has_node(&nodes, x);
        proof {
            if seen {
                let k = choose|k: int| 0 <= k < before.len() && #[trigger] before[k].0 == x;
                assert(recorded(before, x));
            } else {
                assert(!recorded(before, x));
            }
        }
        if !seen {
            nodes.push((x, depth));
            proof {
                assert(nodes@[before.len() as int] == (x, depth));
                assert(next@.contains(x)) by {
                    assert(next@[j as int] == x);
                }
                if recorded(nodes0, x) {
                    let i = choose|i: int| 0 <= i < nodes0.len() && (#[trigger] nodes0[i]).0 == x;
                    assert(before[i] == nodes0[i]);
                }
                assert forall|k: int| 0 <= k < j + 1 implies recorded(nodes@, #[trigger] next@[k]) by {
                    if k < j {
                        lemma_recorded_grows(before, nodes@, next@[k]);
                    } else {
                        assert(nodes@[before.len() as int].0 == next@[k]);
                    }
                }
            }
        } else {
            proof {
                assert(recorded(nodes@, next@[j as int]));
            }
        }
        j = j + 1;
    }
    proof {
        assert(next@.take(j as int) =~= next@);
    }
    let ghost pairs0 = pairs@;
    let mut q: usize = 0;
    while q < layer.len()
        invariant
            q <= layer@.len(),
            pairs@ == pairs0 + layer@.take(q as int),
        decreases layer@.len() - q,
    {
        pairs.push(layer[q]);
        q = q + 1;
        proof {
            assert(pairs@ =~= pairs0 + layer@.take(q as int));
        }
    }
    proof {
        assert(layer@.take(q as int) =~= layer@);
    }
}

/// Layer-wise sampler with one fanout per layer.
pub struct LayerWiseSampler {
    fanouts: Vec<usize>,
    replace: bool,
}

impl LayerWiseSampler {
    pub closed spec fn spec_fanouts(&self) -> Seq<usize> {
        self.fanouts@
    }

    pub closed spec fn spec_replace(&self) -> bool {
        self.replace
    }

    pub fn new(fanouts: Vec<usize>, replace: bool) -> (r: Self)
        ensures
            r.spec_fanouts() == fanouts@,
            r.spec_replace() == replace,
    {
        LayerWiseSampler { fanouts, replace }
    }

    /// Draws the neighbours of one node, as `fair_draw` says.
    pub fn draw_neighbors(&self, neighbors: &Vec<usize>, fanout: usize, rng: &mut StdRng) -> (r: Vec<usize>)
        ensures
            fair_draw(neighbors@, fanout, self.spec_replace(), r@),
    {
        let len = neighbors.len();
        if self.replace || len <= fanout {
            let count = if fanout < len { fanout } else { len };
            let mut out: Vec<usize> = Vec::new();
            let mut i: usize = 0;
            while i < count
                invariant
                    len == neighbors@.len(),
                    count <= len,
                    i <= count,
                    out@.len() == i,
                    forall|j: int| 0 <= j < i ==> neighbors@.contains(#[trigger] out@[j]),
                decreases count - i,
            {
                let picked = choose_one(neighbors, rng);
                match picked {
                    Some(x) => {
                        out.push(x);
                        proof {
                            assert(out@[i as int] == x);
                        }
                    },
                    None => {
                        proof {
                            assert(false);
                        }
                    },
                }
                i = i + 1;
            }
            out
        } else {
            choose_several(neighbors, rng, fanout)
        }
    }

    /// One layer: for each node of `nodes`, in order, draws its neighbours
    /// and pairs the node with each of them. Returns the distinct neighbours
    /// drawn, in order of first draw, and the pairs.
    pub fn sample_layer(&self, lists: &Vec<Vec<usize>>, nodes: &Vec<usize>, fanout: usize, rng: &mut StdRng)
        -> (r: (Vec<usize>, Vec<(usize, usize)>))
        requires
            forall|i: int| 0 <= i < nodes@.len() ==> #[trigger] nodes@[i] < lists@.len(),
        ensures
            exists|picks: Seq<Seq<usize>>| {
                &&& picks.len() == nodes@.len()
                &&& forall|k: int| 0 <= k < nodes@.len() ==> fair_draw(lists@[nodes@[k] as int]@, fanout, self.spec_replace(), #[trigger] picks[k])
                &&& r.1@ == layer_pairs(nodes@, picks)
            },
            r.0@ == first_seen(targets(r.1@)),
    {
        let mut next: Vec<usize> = Vec::new();
        let mut pairs: Vec<(usize, usize)> = Vec::new();
        let ghost mut picks: Seq<Seq<usize>> = Seq::empty();
        let mut k: usize = 0;
        proof {
            assert(nodes@.take(0) =~= Seq::<usize>::empty());
            assert(targets(pairs@) =~= Seq::<usize>::empty());
        }
        while k < nodes.len()
            invariant
                forall|i: int| 0 <= i < nodes@.len() ==> #[trigger] nodes@[i] < lists@.len(),
                k <= nodes@.len(),
                picks.len() == k,
                forall|j: int| 0 <= j < k ==> fair_draw(lists@[nodes@[j] as int]@, fanout, self.spec_replace(), #[trigger] picks[j]),
                pairs@ == layer_pairs(nodes@.take(k as int), picks),
                next@ == first_seen(targets(pairs@)),
            decreases nodes@.len() - k,
        {
            let node = nodes[k];
            let drawn = self.draw_neighbors(&lists[node], fanout, rng);
            let ghost base = pairs@;
            let mut i: usize = 0;
            proof {
                assert(drawn@.take(0).map_values(|x: usize| (node, x)) =~= Seq::<(usize, usize)>::empty());
                assert(base + drawn@.take(0).map_values(|x: usize| (node, x)) =~= base);
            }
            while i < drawn.len()
                invariant
                    i <= drawn@.len(),
                    pairs@ == base + drawn@.take(i as int).map_values(|x: usize| (node, x)),
                    next@ == first_seen(targets(pairs@)),
                decreases drawn@.len() - i,
            {
                let x = drawn[i];
                let ghost before = pairs@;
                pairs.push((node, x));
                proof {
                    assert(drawn@.take(i + 1).map_values(|y: usize| (node, y))
                        =~= drawn@.take(i as int).map_values(|y: usize| (node, y)).push((node, x)));
                    assert(targets(pairs@) =~= targets(before).push(x));
                    assert(targets(pairs@).drop_last() =~= targets(before));
                }
                if !has_item(&next, x) {
                    next.push(x);
                }
                i = i + 1;
            }
            proof {
                assert(drawn@.take(i as int) =~= drawn@);
                let np = picks.push(drawn@);
                assert(nodes@.take(k + 1).drop_last() =~= nodes@.take(k as int));
                assert(np.drop_last() =~= picks);
                assert(nodes@.take(k + 1).last() == node);
                assert(layer_pairs(nodes@.take(k + 1), np) == layer_pairs(nodes@.take(k as int), picks) + drawn@.map_values(|x: usize| (node, x)));
                assert forall|j: int| 0 <= j < k + 1 implies fair_draw(lists@[nodes@[j] as int]@, fanout, self.spec_replace(), #[trigger] np[j]) by {
                    if j < k {
                        assert(np[j] == picks[j]);
                    }
                }
                picks = np;
            }
            k = k + 1;
        }
        proof {
            assert(nodes@.take(k as int) =~= nodes@);
        }
        (next, pairs)
    }

    /// From the seeds, layer after layer, one per fanout while the last
    /// layer is not empty. Returns the nodes, each with the depth at which it
    /// was first reached (the seeds first, in order, at depth 0; then the
    /// drawn nodes that were not reached before, at their layer's number),
    /// and the candidate edges of all layers: every pair of a node of a
    /// layer and a neighbour drawn for it. The random generator is seeded
    /// with `seed`, or from the operating system's random source without
    /// one; only that source can fail, with a `SamplingError`.
    pub fn sample_subgraph(&self, lists: &Vec<Vec<usize>>, seeds: &Vec<usize>, seed: Option<u64>)
        -> (r: GraphResult<(Vec<(usize, usize)>, Vec<(usize, usize)>)>)
        requires
            forall|u: int, i: int| 0 <= u < lists@.len() && 0 <= i < lists@[u]@.len() ==> #[trigger] lists@[u]@[i] < lists@.len(),
            forall|i: int| 0 <= i < seeds@.len() ==> #[trigger] seeds@[i] < lists@.len(),
        ensures
            seed is Some ==> r is Ok,
            r is Err ==> (seed is None && (r matches Err(GraphError::SamplingError(m)) && m@ == seeding_failure_message())),
            r matches Ok(v) ==> {
                &&& seeds@.len() <= v.0@.len()
                &&& forall|i: int| 0 <= i < seeds@.len() ==> #[trigger] v.0@[i] == (seeds@[i], 0usize)
                &&& forall|i: int, j: int| seeds@.len() <= i < j < v.0@.len() ==> (#[trigger] v.0@[i]).0 != (#[trigger] v.0@[j]).0
                &&& forall|i: int| seeds@.len() <= i < v.0@.len() ==> !seeds@.contains((#[trigger] v.0@[i]).0)
                    && 1 <= v.0@[i].1 <= self.spec_fanouts().len()
                &&& forall|i: int| seeds@.len() <= i < v.0@.len() ==> targets(v.1@).contains((#[trigger] v.0@[i]).0)
                &&& forall|p: int| 0 <= p < v.1@.len() ==> (#[trigger] v.1@[p]).0 < lists@.len()
                    && lists@[v.1@[p].0 as int]@.contains(v.1@[p].1)
                    && recorded(v.0@, v.1@[p].0) && recorded(v.0@, v.1@[p].1)
                &&& exists|layers: Seq<Seq<usize>>, picks: Seq<Seq<Seq<usize>>>| {
                    &&& sampling_run(lists@, seeds@, self.spec_fanouts(), self.spec_replace(), layers, picks)
                    &&& v.0@ == run_entries(seeds@, layers, picks.len())
                    &&& v.1@ == run_pairs(layers, picks, picks.len())
                }
            },
    {
        let mut rng = match seeded_rng(seed) {
            Ok(g) => g,
            Err(e) => {
                return Err(e);
            },
        };
        let ns = seeds.len();
        let mut nodes: Vec<(usize, usize)> = Vec::new();
        let mut pairs: Vec<(usize, usize)> = Vec::new();
        let mut current: Vec<usize> = Vec::new();
        let mut i: usize = 0;
        while i < ns
            invariant
                ns == seeds@.len(),
                i <= ns,
                nodes@.len() == i,
                current@.len() == i,
                forall|j: int| 0 <= j < i ==> #[trigger] nodes@[j] == (seeds@[j], 0usize),
                forall|j: int| 0 <= j < i ==> #[trigger] current@[j] == seeds@[j],
            decreases ns - i,
        {
            nodes.push((seeds[i], 0));
            current.push(seeds[i]);
            i = i + 1;
        }
        proof {
            assert forall|k: int| 0 <= k < current@.len() implies #[trigger] current@[k] < lists@.len()
                && recorded(nodes@, current@[k]) by {
                assert(nodes@[k].0 == current@[k]);
            }
            assert(current@ =~= seeds@);
            assert(nodes@ =~= seeds@.map_values(|s: usize| (s, 0usize)));
        }
        let ghost mut layers: Seq<Seq<usize>> = seq![seeds@];
        let ghost mut picks_all: Seq<Seq<Seq<usize>>> = Seq::empty();
        let nf = self.fanouts.len();
        let mut idx: usize = 0;
        while idx < nf && current.len() > 0
            invariant
                forall|u: int, i: int| 0 <= u < lists@.len() && 0 <= i < lists@[u]@.len() ==> #[trigger] lists@[u]@[i] < lists@.len(),
                ns == seeds@.len(),
                nf == self.spec_fanouts().len(),
                idx <= nf,
                ns <= nodes@.len(),
                forall|i: int| 0 <= i < ns ==> #[trigger] nodes@[i] == (seeds@[i], 0usize),
                forall|i: int, j: int| ns <= i < j < nodes@.len() ==> (#[trigger] nodes@[i]).0 != (#[trigger] nodes@[j]).0,
                forall|i: int| ns <= i < nodes@.len() ==> !seeds@.contains((#[trigger] nodes@[i]).0)
                    && 1 <= nodes@[i].1 <= idx,
                forall|i: int| ns <= i < nodes@.len() ==> targets(pairs@).contains((#[trigger] nodes@[i]).0),
                forall|p: int| 0 <= p < pairs@.len() ==> (#[trigger] pairs@[p]).0 < lists@.len()
                    && lists@[pairs@[p].0 as int]@.contains(pairs@[p].1)
                    && recorded(nodes@, pairs@[p].0) && recorded(nodes@, pairs@[p].1),
                forall|k: int| 0 <= k < current@.len() ==> #[trigger] current@[k] < lists@.len()
                    && recorded(nodes@, current@[k]),
                layers.len() == idx + 1,
                picks_all.len() == idx,
                layers[0] == seeds@,
                layers[idx as int] == current@,
                forall|i: int| 0 <= i < idx ==> #[trigger] run_layer(lists@, self.fanouts@, self.replace, layers, picks_all, i),
                nodes@ == run_entries(seeds@, layers, idx as nat),
                pairs@ == run_pairs(layers, picks_all, idx as nat),
            decreases nf - idx,
        {
            let fanout = self.fanouts[idx];
            let depth = idx + 1;
            let (next, layer) = self.sample_layer(lists, &current, fanout, &mut rng);
            let ghost picks = choose|picks: Seq<Seq<usize>>| {
                &&& picks.len() == current@.len()
                &&& forall|k: int| 0 <= k < current@.len() ==> fair_draw(lists@[current@[k] as int]@, fanout, self.spec_replace(), #[trigger] picks[k])
                &&& layer@ == layer_pairs(current@, picks)
            };
            proof {
                assert forall|q: int| 0 <= q < layer@.len() implies (#[trigger] layer@[q]).0 < lists@.len()
                    && lists@[layer@[q].0 as int]@.contains(layer@[q].1)
                    && recorded(nodes@, layer@[q].0) by {
                    lemma_layer_pairs_members(current@, picks, q);
                    let k = choose|k: int| 0 <= k < current@.len() && layer_pairs(current@, picks)[q].0 == #[trigger] current@[k]
                        && picks[k].contains(layer_pairs(current@, picks)[q].1);
                    let t = choose|t: int| 0 <= t < picks[k].len() && picks[k][t] == layer@[q].1;
                    lemma_draw_members(lists@[current@[k] as int]@, fanout, self.spec_replace(), picks[k], t);
                }
                assert forall|x: usize| next@.contains(x) <==> targets(layer@).contains(x) by {
                    lemma_first_seen_contains(targets(layer@), x);
                }
            }
            let ghost nodes0 = nodes@;
            let ghost pairs0 = pairs@;
            record_layer(&mut nodes, &mut pairs, &next, &layer, depth);
            proof {
                lemma_run_step(lists@, seeds@, self.fanouts@, self.replace, layers, picks_all, idx as nat, picks,
                    next@, nodes@, pairs@);
                assert(layers.push(next@)[0] == seeds@);
                layers = layers.push(next@);
                picks_all = picks_all.push(picks);
            }
            proof {
                let nodes1 = nodes@;
                assert forall|i: int| ns <= i < nodes1.len() implies !seeds@.contains((#[trigger] nodes1[i]).0)
                    && 1 <= nodes1[i].1 <= depth && targets(pairs@).contains(nodes1[i].0) by {
                    if i < nodes0.len() {
                        assert(nodes1[i] == nodes0[i]);
                        let t = choose|t: int| 0 <= t < targets(pairs0).len() && targets(pairs0)[t] == nodes0[i].0;
                        assert(targets(pairs@)[t] == pairs@[t].1);
                        assert(pairs@[t] == pairs0[t]);
                    } else {
                        let x = nodes1[i].0;
                        if seeds@.contains(x) {
                            let s = choose|s: int| 0 <= s < seeds@.len() && seeds@[s] == x;
                            assert(nodes0[s].0 == x);
                        }
                        assert(targets(layer@).contains(x));
                        let t = choose|t: int| 0 <= t < targets(layer@).len() && targets(layer@)[t] == x;
                        assert(pairs@[pairs0.len() + t] == layer@[t]);
                        assert(targets(pairs@)[pairs0.len() + t] == x);
                    }
                }
                assert forall|i: int, j: int| ns <= i < j < nodes1.len() implies (#[trigger] nodes1[i]).0 != (#[trigger] nodes1[j]).0 by {
                    if j >= nodes0.len() && i < nodes0.len() {
                        assert(nodes1[i] == nodes0[i]);
                        assert(!recorded(nodes0, nodes1[j].0));
                    } else if j < nodes0.len() {
                        assert(nodes1[i] == nodes0[i]);
                        assert(nodes1[j] == nodes0[j]);
                    }
                }
                assert forall|p: int| 0 <= p < pairs@.len() implies (#[trigger] pairs@[p]).0 < lists@.len()
                    && lists@[pairs@[p].0 as int]@.contains(pairs@[p].1)
                    && recorded(nodes1, pairs@[p].0) && recorded(nodes1, pairs@[p].1) by {
                    if p < pairs0.len() {
                        assert(pairs@[p] == pairs0[p]);
                        lemma_recorded_grows(nodes0, nodes1, pairs0[p].0);
                        lemma_recorded_grows(nodes0, nodes1, pairs0[p].1);
                    } else {
                        let t = p - pairs0.len();
                        assert(pairs@[p] == layer@[t]);
                        lemma_recorded_grows(nodes0, nodes1, layer@[t].0);
                        assert(targets(layer@)[t] == layer@[t].1);
                        assert(next@.contains(layer@[t].1));
                        let m = choose|m: int| 0 <= m < next@.len() && next@[m] == layer@[t].1;
                        assert(recorded(nodes1, next@[m]));
                    }
                }
                assert forall|k: int| 0 <= k < next@.len() implies #[trigger] next@[k] < lists@.len()
                    && recorded(nodes1, next@[k]) by {
                    assert(next@.contains(next@[k]));
                    assert(targets(layer@).contains(next@[k]));
                    let t = choose|t: int| 0 <= t < targets(layer@).len() && targets(layer@)[t] == next@[k];
                    assert(layer@[t].1 == next@[k]);
                    let u = layer@[t].0 as int;
                    let w = choose|w: int| 0 <= w < lists@[u]@.len() && lists@[u]@[w] == next@[k];
                    assert(lists@[u]@[w] < lists@.len());
                }
            }
            current = next;
            idx = idx + 1;
        }
        proof {
            assert(sampling_run(lists@, seeds@, self.spec_fanouts(), self.spec_replace(), layers, picks_all));
        }
        Ok((nodes, pairs))
    }
}

/// Checks a list of fanouts for layer-wise sampling: it may not be empty,
/// and no fanout may be zero.
pub fn validate_fanouts(fanouts: &Vec<usize>) -> (r: GraphResult<()>)
    ensures
        fanouts@.len() == 0 ==> (r matches Err(GraphError::ValidationError(m)) && m@ == "Fanouts cannot be empty"@),
        fanouts@.len() > 0 && fanouts@.contains(0usize) ==> (r matches Err(GraphError::ValidationError(m)) && m@ == "All fanouts must be > 0"@),
        r is Ok <==> (fanouts@.len() > 0 && forall|i: int| 0 <= i < fanouts@.len() ==> #[trigger] fanouts@[i] > 0),
{
    if fanouts.len() == 0 {
        proof {
            reveal_strlit("Fanouts cannot be empty");
        }
        return Err(GraphError::ValidationError(String::from_str("Fanouts cannot be empty")));
    }
    let mut i: usize = 0;
    while i < fanouts.len()
        invariant
            i <= fanouts@.len(),
            forall|j: int| 0 <= j < i ==> #[trigger] fanouts@[j] > 0,
        decreases fanouts@.len() - i,
    {
        if fanouts[i] == 0 {
            proof {
                reveal_strlit("All fanouts must be > 0");
                assert(fanouts@.contains(0usize));
            }
            return Err(GraphError::ValidationError(String::from_str("All fanouts must be > 0")));
        }
        i = i + 1;
    }
    Ok(())
}

} // verus!
