//! Community detection by label propagation, and the community graph that
//! aggregation builds from a partition.
use vstd::prelude::*;
use vstd::string::*;
use crate::topology::Topology;
use crate::reach::succ_of;
use crate::node_id::{NodeId, default_str_hash};
use crate::decimal::{decimal, u64_to_decimal};
use crate::sampling::{seeded_rng, shuffle_with, seeding_failure_message};
use crate::error::{GraphError, GraphResult};

verus! {

broadcast use vstd::seq_lib::group_to_multiset_ensures;

/// How many edges at `node` lead, ignoring direction, to a neighbour labelled
/// `l`. An edge leaving `node` leads to its head; a loop counts once.
pub open spec fn label_count(edges: Seq<(usize, usize)>, node: usize, labels: Seq<usize>, l: usize) -> nat
    decreases edges.len(),
{
    if edges.len() == 0 {
        0
    } else {
        label_count(edges.drop_last(), node, labels, l) + match succ_of(edges.last(), false, node) {
            Some(w) => if labels[w as int] == l { 1nat } else { 0nat },
            None => 0nat,
        }
    }
}

/// No edge touches `node`.
pub open spec fn isolated(edges: Seq<(usize, usize)>, node: usize) -> bool {
    forall|k: int| 0 <= k < edges.len() ==> #[trigger] succ_of(edges[k], false, node) is None
}

/// `l` is a most frequent label among the neighbours of `node`; an isolated
/// node gets label 0.
pub open spec fn is_majority(edges: Seq<(usize, usize)>, node: usize, labels: Seq<usize>, l: usize) -> bool {
    if isolated(edges, node) {
        l == 0
    } else {
        &&& label_count(edges, node, labels, l) > 0
        &&& forall|m: usize| #[trigger] label_count(edges, node, labels, m) <= label_count(edges, node, labels, l)
    }
}

/// Every node listed in `order` holds a most frequent label of its neighbours.
pub open spec fn stable_on(edges: Seq<(usize, usize)>, labels: Seq<usize>, order: Seq<usize>) -> bool {
    forall|i: int| 0 <= i < order.len() ==> is_majority(edges, order[i], labels, #[trigger] labels[order[i] as int])
}

/// The labels after the first `i` steps of a round over `order`, the node at
/// step `j` taking label `picks[j]`.
pub open spec fn relabel_steps(labels: Seq<usize>, order: Seq<usize>, picks: Seq<usize>, i: nat) -> Seq<usize>
    decreases i,
{
    if i == 0 {
        labels
    } else {
        relabel_steps(labels, order, picks, (i - 1) as nat).update(order[i - 1] as int, picks[i - 1])
    }
}

/// One round of propagation over `order`: each node in turn takes a most
/// frequent label of its neighbours under the labels of that moment.
pub open spec fn propagation_round(edges: Seq<(usize, usize)>, labels: Seq<usize>, order: Seq<usize>, picks: Seq<usize>) -> bool {
    &&& picks.len() == order.len()
    &&& forall|i: int| 0 <= i < order.len() ==> is_majority(edges, order[i], relabel_steps(labels, order, picks, i as nat), #[trigger] picks[i])
}

/// Some step of the round gave its node another label than it had.
pub open spec fn round_changes(labels: Seq<usize>, order: Seq<usize>, picks: Seq<usize>) -> bool {
    exists|i: int| 0 <= i < order.len() && #[trigger] picks[i] != relabel_steps(labels, order, picks, i as nat)[order[i] as int]
}

proof fn lemma_relabel_prefix(labels: Seq<usize>, order: Seq<usize>, p: Seq<usize>, q: Seq<usize>, i: nat)
    requires
        i <= p.len(),
        i <= q.len(),
        forall|j: int| 0 <= j < i ==> p[j] == q[j],
    ensures
        relabel_steps(labels, order, p, i) == relabel_steps(labels, order, q, i),
    decreases i,
{
    if i > 0 {
        lemma_relabel_prefix(labels, order, p, q, (i - 1) as nat);
    }
}

/// One more step of a round: the picks so far, extended by the next one.
proof fn lemma_round_step(edges: Seq<(usize, usize)>, start: Seq<usize>, order: Seq<usize>, picks: Seq<usize>, i: nat, l: usize)
    requires
        picks.len() == i,
        i < order.len(),
        forall|j: int| 0 <= j < i ==> is_majority(edges, order[j], relabel_steps(start, order, picks, j as nat), #[trigger] picks[j]),
        is_majority(edges, order[i as int], relabel_steps(start, order, picks, i), l),
    ensures
        forall|j: int| 0 <= j < i + 1 ==> is_majority(edges, order[j], relabel_steps(start, order, picks.push(l), j as nat), #[trigger] picks.push(l)[j]),
        relabel_steps(start, order, picks.push(l), i + 1) == relabel_steps(start, order, picks, i).update(order[i as int] as int, l),
        (exists|j: int| 0 <= j < i + 1 && #[trigger] picks.push(l)[j] != relabel_steps(start, order, picks.push(l), j as nat)[order[j] as int])
            == ((exists|j: int| 0 <= j < i && #[trigger] picks[j] != relabel_steps(start, order, picks, j as nat)[order[j] as int])
                || l != relabel_steps(start, order, picks, i)[order[i as int] as int]),
{
    let np = picks.push(l);
    assert forall|j: int| 0 <= j < i + 1 implies #[trigger] relabel_steps(start, order, np, j as nat) == relabel_steps(start, order, picks, j as nat) by {
        lemma_relabel_prefix(start, order, np, picks, j as nat);
    }
    assert(np[i as int] == l);
    assert forall|j: int| 0 <= j < i + 1 implies is_majority(edges, order[j], relabel_steps(start, order, np, j as nat), #[trigger] np[j]) by {
        if j < i {
            assert(np[j] == picks[j]);
        }
        assert(relabel_steps(start, order, np, j as nat) == relabel_steps(start, order, picks, j as nat));
    }
    assert(relabel_steps(start, order, np, i) == relabel_steps(start, order, picks, i));
    if exists|j: int| 0 <= j < i && #[trigger] picks[j] != relabel_steps(start, order, picks, j as nat)[order[j] as int] {
        let j = choose|j: int| 0 <= j < i && #[trigger] picks[j] != relabel_steps(start, order, picks, j as nat)[order[j] as int];
        assert(np[j] == picks[j]);
        assert(relabel_steps(start, order, np, j as nat) == relabel_steps(start, order, picks, j as nat));
    }
    if exists|j: int| 0 <= j < i + 1 && #[trigger] np[j] != relabel_steps(start, order, np, j as nat)[order[j] as int] {
        let j = choose|j: int| 0 <= j < i + 1 && #[trigger] np[j] != relabel_steps(start, order, np, j as nat)[order[j] as int];
        assert(relabel_steps(start, order, np, j as nat) == relabel_steps(start, order, picks, j as nat));
        if j < i {
            assert(np[j] == picks[j]);
        }
    }
    if l != relabel_steps(start, order, picks, i)[order[i as int] as int] {
        assert(np[i as int] != relabel_steps(start, order, np, i)[order[i as int] as int]);
    }
}

/// Every label is below `n`.
pub open spec fn labels_below(labels: Seq<usize>, n: nat) -> bool {
    forall|v: int| 0 <= v < labels.len() ==> #[trigger] labels[v] < n
}

proof fn lemma_label_count_witness(edges: Seq<(usize, usize)>, node: usize, labels: Seq<usize>, l: usize)
    requires
        label_count(edges, node, labels, l) > 0,
    ensures
        exists|k: int| 0 <= k < edges.len() && #[trigger] succ_of(edges[k], false, node) is Some
            && labels[succ_of(edges[k], false, node)->0 as int] == l,
    decreases edges.len(),
{
    let p = edges.drop_last();
    let k = edges.len() - 1;
    match succ_of(edges.last(), false, node) {
        Some(w) => {
            if labels[w as int] == l {
                assert(succ_of(edges[k], false, node) is Some);
            } else {
                lemma_label_count_witness(p, node, labels, l);
                let j = choose|j: int| 0 <= j < p.len() && #[trigger] succ_of(p[j], false, node) is Some
                    && labels[succ_of(p[j], false, node)->0 as int] == l;
                assert(edges[j] == p[j]);
            }
        },
        None => {
            lemma_label_count_witness(p, node, labels, l);
            let j = choose|j: int| 0 <= j < p.len() && #[trigger] succ_of(p[j], false, node) is Some
                && labels[succ_of(p[j], false, node)->0 as int] == l;
            assert(edges[j] == p[j]);
        },
    }
}

proof fn lemma_incident_count(edges: Seq<(usize, usize)>, node: usize, labels: Seq<usize>, k: int)
    requires
        0 <= k < edges.len(),
        succ_of(edges[k], false, node) is Some,
    ensures
        label_count(edges, node, labels, labels[succ_of(edges[k], false, node)->0 as int]) > 0,
    decreases edges.len(),
{
    let p = edges.drop_last();
    if k < edges.len() - 1 {
        assert(p[k] == edges[k]);
        lemma_incident_count(p, node, labels, k);
    }
}

fn neighbor(e: (usize, usize), node: usize) -> (r: Option<usize>)
    ensures
        r == succ_of(e, false, node),
{
    if e.0 == node {
        Some(e.1)
    } else if e.1 == node {
        Some(e.0)
    } else {
        None
    }
}

fn count_label(topo: &Topology, node: usize, labels: &Vec<usize>, l: usize) -> (r: usize)
    requires
        topo.wf(),
        labels@.len() == topo.num_nodes,
    ensures
        r == label_count(topo.edges@, node, labels@, l),
{
    let mut c: usize = 0;
    let mut k: usize = 0;
    while k < topo.edges.len()
        invariant
            topo.wf(),
            labels@.len() == topo.num_nodes,
            k <= topo.edges@.len(),
            c <= k,
            c == label_count(topo.edges@.take(k as int), node, labels@, l),
        decreases topo.edges@.len() - k,
    {
        proof {
            assert(topo.edges@.take(k + 1).drop_last() =~= topo.edges@.take(k as int));
            assert(topo.edges@.take(k + 1).last() == topo.edges@[k as int]);
        }
        match neighbor(topo.edges[k], node) {
            Some(w) => {
                if labels[w] == l {
                    c = c + 1;
                }
            },
            None => {},
        }
        k = k + 1;
    }
    assert(topo.edges@.take(k as int) =~= topo.edges@);
    c
}

/// Community detection by label propagation: every node repeatedly takes the
/// label most frequent among its neighbours, until no label changes or the
/// round limit is reached.
pub struct LabelPropagation {
    max_iterations: usize,
}

/// Every node's own position as its label.
pub open spec fn own_labels(n: nat) -> Seq<usize> {
    Seq::new(n, |v: int| v as usize)
}

/// A run of label propagation on `n` nodes: from each node labelled by its
/// position, rounds over orders that each list every node once; a round
/// follows another only when that one changed a label, and the run stops
/// after `max_iterations` rounds or after a round that changed nothing.
/// `states[i]` holds the labels before round `i`, the last the final ones.
pub open spec fn propagation_run(edges: Seq<(usize, usize)>, n: nat, max_iterations: nat,
    orders: Seq<Seq<usize>>, picks: Seq<Seq<usize>>, states: Seq<Seq<usize>>) -> bool {
    &&& states.len() == orders.len() + 1
    &&& picks.len() == orders.len()
    &&& states[0] == own_labels(n)
    &&& orders.len() <= max_iterations
    &&& forall|i: int| 0 <= i < orders.len() ==> {
        &&& (#[trigger] orders[i]).to_multiset() == own_labels(n).to_multiset()
        &&& propagation_round(edges, states[i], orders[i], picks[i])
        &&& states[i + 1] == relabel_steps(states[i], orders[i], picks[i], orders[i].len())
    }
    &&& forall|i: int| 0 <= i < orders.len() - 1 ==> round_changes(states[i], #[trigger] orders[i], picks[i])
    &&& orders.len() == max_iterations || {
        let last = orders.len() - 1;
        &&& orders.len() > 0
        &&& !round_changes(states[last], orders[last], picks[last])
    }
}

/// A round that changes nothing leaves every node of its order at a most
/// frequent label of its neighbours, and the labels as they were.
proof fn lemma_quiet_round(edges: Seq<(usize, usize)>, labels: Seq<usize>, order: Seq<usize>, picks: Seq<usize>)
    requires
        propagation_round(edges, labels, order, picks),
        !round_changes(labels, order, picks),
        forall|i: int| 0 <= i < order.len() ==> #[trigger] order[i] < labels.len(),
    ensures
        forall|i: nat| i <= order.len() ==> #[trigger] relabel_steps(labels, order, picks, i) == labels,
        forall|i: int| 0 <= i < order.len() ==> is_majority(edges, order[i], labels, #[trigger] labels[order[i] as int]),
{
    assert forall|i: nat| i <= order.len() implies #[trigger] relabel_steps(labels, order, picks, i) == labels by {
        lemma_quiet_prefix(labels, order, picks, i);
    }
    assert forall|i: int| 0 <= i < order.len() implies is_majority(edges, order[i], labels, #[trigger] labels[order[i] as int]) by {
        lemma_quiet_prefix(labels, order, picks, i as nat);
        assert(!(picks[i] != relabel_steps(labels, order, picks, i as nat)[order[i] as int]));
    }
}

proof fn lemma_quiet_prefix(labels: Seq<usize>, order: Seq<usize>, picks: Seq<usize>, i: nat)
    requires
        picks.len() == order.len(),
        !round_changes(labels, order, picks),
        forall|j: int| 0 <= j < order.len() ==> #[trigger] order[j] < labels.len(),
        i <= order.len(),
    ensures
        relabel_steps(labels, order, picks, i) == labels,
    decreases i,
{
    if i > 0 {
        lemma_quiet_prefix(labels, order, picks, (i - 1) as nat);
        let j = i - 1;
        assert(!(picks[j] != relabel_steps(labels, order, picks, j as nat)[order[j] as int]));
        assert(relabel_steps(labels, order, picks, i) =~= labels.update(order[j] as int, picks[j]));
        assert(labels.update(order[j] as int, picks[j]) =~= labels);
    }
}

/// Label propagation stops before its last allowed round only at a
/// labelling where every node holds a most frequent label of its
/// neighbours (an isolated node, label 0).
pub proof fn law_early_stop_is_stable(edges: Seq<(usize, usize)>, n: nat, max_iterations: nat,
    orders: Seq<Seq<usize>>, picks: Seq<Seq<usize>>, states: Seq<Seq<usize>>)
    requires
        propagation_run(edges, n, max_iterations, orders, picks, states),
        orders.len() < max_iterations,
        n <= usize::MAX,
    ensures
        states.last() == states[states.len() - 2],
        forall|v: int| 0 <= v < n ==> is_majority(edges, v as usize, states.last(), #[trigger] states.last()[v]),
{
    let last = orders.len() - 1;
    let order = orders[last];
    let labels = states[last];
    assert(order.to_multiset() == own_labels(n).to_multiset());
    lemma_relabel_keeps_len(states, orders, picks, n, last);
    assert forall|i: int| 0 <= i < order.len() implies #[trigger] order[i] < labels.len() by {
        assert(order.to_multiset().count(order[i]) > 0);
        assert(own_labels(n).to_multiset().count(order[i]) > 0);
        assert(own_labels(n).contains(order[i]));
    }
    lemma_quiet_round(edges, labels, order, picks[last]);
    assert(states[last + 1] == labels);
    assert(states.last() == labels);
    assert forall|v: int| 0 <= v < n implies is_majority(edges, v as usize, states.last(), #[trigger] states.last()[v]) by {
        assert(own_labels(n)[v] == v as usize);
        assert(own_labels(n).contains(v as usize));
        assert(own_labels(n).to_multiset().count(v as usize) > 0);
        assert(order.to_multiset().count(v as usize) > 0);
        assert(order.contains(v as usize));
        let i = choose|i: int| 0 <= i < order.len() && order[i] == v as usize;
        assert(is_majority(edges, order[i], labels, labels[order[i] as int]));
    }
}

/// Every state of a run holds one label per node.
proof fn lemma_relabel_keeps_len(states: Seq<Seq<usize>>, orders: Seq<Seq<usize>>, picks: Seq<Seq<usize>>, n: nat, k: int)
    requires
        states.len() == orders.len() + 1,
        picks.len() == orders.len(),
        states[0] == own_labels(n),
        forall|i: int| 0 <= i < orders.len() ==> {
            &&& (#[trigger] orders[i]).to_multiset() == own_labels(n).to_multiset()
            &&& states[i + 1] == relabel_steps(states[i], orders[i], picks[i], orders[i].len())
        },
        0 <= k < states.len(),
    ensures
        states[k].len() == n,
    decreases k,
{
    if k > 0 {
        lemma_relabel_keeps_len(states, orders, picks, n, k - 1);
        let order = orders[k - 1];
        assert(order.to_multiset() == own_labels(n).to_multiset());
        assert forall|j: int| 0 <= j < order.len() implies #[trigger] order[j] < n by {
            assert(order.to_multiset().count(order[j]) > 0);
            assert(own_labels(n).to_multiset().count(order[j]) > 0);
            assert(own_labels(n).contains(order[j]));
        }
        lemma_relabel_len_bound(states[k - 1], order, picks[k - 1], order.len(), n);
    }
}

proof fn lemma_relabel_len_bound(labels: Seq<usize>, order: Seq<usize>, picks: Seq<usize>, i: nat, n: nat)
    requires
        labels.len() == n,
        i <= order.len(),
        forall|j: int| 0 <= j < order.len() ==> #[trigger] order[j] < n,
    ensures
        relabel_steps(labels, order, picks, i).len() == n,
    decreases i,
{
    if i > 0 {
        lemma_relabel_len_bound(labels, order, picks, (i - 1) as nat, n);
    }
}

impl LabelPropagation {
    pub closed spec fn spec_max_iterations(&self) -> usize {
        self.max_iterations
    }

    pub fn new(max_iterations: usize) -> (r: Self)
        ensures
            r.spec_max_iterations() == max_iterations,
    {
        LabelPropagation { max_iterations }
    }

    /// A most frequent label among the neighbours of `node` (which of several
    /// equally frequent ones is not fixed); 0 for an isolated node.
    pub fn get_majority_label(&self, topo: &Topology, node: usize, labels: &Vec<usize>) -> (r: usize)
        requires
            topo.wf(),
            labels@.len() == topo.num_nodes,
        ensures
            is_majority(topo.edges@, node, labels@, r),
            !isolated(topo.edges@, node) ==> exists|k: int| 0 <= k < topo.edges@.len()
                && #[trigger] succ_of(topo.edges@[k], false, node) == Some(succ_of(topo.edges@[k], false, node)->0)
                && labels@[succ_of(topo.edges@[k], false, node)->0 as int] == r,
    {
        let ghost edges = topo.edges@;
        let mut best: usize = 0;
        let mut best_count: usize = 0;
        let mut k: usize = 0;
        while k < topo.edges.len()
            invariant
                topo.wf(),
                edges == topo.edges@,
                labels@.len() == topo.num_nodes,
                k <= edges.len(),
                best_count == 0 ==> best == 0,
                best_count > 0 ==> best_count == label_count(edges, node, labels@, best),
                best_count > 0 ==> exists|j: int| 0 <= j < edges.len() && #[trigger] succ_of(edges[j], false, node) is Some
                    && labels@[succ_of(edges[j], false, node)->0 as int] == best,
                forall|j: int| 0 <= j < k && #[trigger] succ_of(edges[j], false, node) is Some ==>
                    label_count(edges, node, labels@, labels@[succ_of(edges[j], false, node)->0 as int]) <= best_count,
                forall|j: int| 0 <= j < k ==> #[trigger] succ_of(edges[j], false, node) is None || best_count > 0,
            decreases edges.len() - k,
        {
            match neighbor(topo.edges[k], node) {
                Some(w) => {
                    let l = labels[w];
                    let c = count_label(topo, node, labels, l);
                    proof {
                        lemma_incident_count(edges, node, labels@, k as int);
                    }
                    if c > best_count {
                        best = l;
                        best_count = c;
                    }
                },
                None => {},
            }
            k = k + 1;
        }
        proof {
            if !isolated(edges, node) {
                let j = choose|j: int| 0 <= j < edges.len() && #[trigger] succ_of(edges[j], false, node) is Some;
                assert(best_count > 0);
                assert forall|m: usize| #[trigger] label_count(edges, node, labels@, m) <= label_count(edges, node, labels@, best) by {
                    if label_count(edges, node, labels@, m) > 0 {
                        lemma_label_count_witness(edges, node, labels@, m);
                        let i = choose|i: int| 0 <= i < edges.len() && #[trigger] succ_of(edges[i], false, node) is Some
                            && labels@[succ_of(edges[i], false, node)->0 as int] == m;
                    }
                }
            }
        }
        best
    }

    /// One round over the nodes in `order`: each takes a most frequent label
    /// of its neighbours as the labels stand at its turn. Returns whether a
    /// label was replaced; a round that replaces none leaves every node in
    /// `order` holding a most frequent label of its neighbours.
    pub fn propagate(&self, topo: &Topology, labels: &mut Vec<usize>, order: &Vec<usize>) -> (changed: bool)
        requires
            topo.wf(),
            old(labels)@.len() == topo.num_nodes,
            forall|i: int| 0 <= i < order@.len() ==> #[trigger] order@[i] < topo.num_nodes,
        ensures
            final(labels)@.len() == topo.num_nodes,
            exists|picks: Seq<usize>| {
                &&& propagation_round(topo.edges@, old(labels)@, order@, picks)
                &&& final(labels)@ == relabel_steps(old(labels)@, order@, picks, order@.len())
                &&& changed == round_changes(old(labels)@, order@, picks)
            },
            !changed ==> final(labels)@ == old(labels)@ && stable_on(topo.edges@, old(labels)@, order@),
            topo.num_nodes > 0 && labels_below(old(labels)@, topo.num_nodes as nat)
                ==> labels_below(final(labels)@, topo.num_nodes as nat),
    {
        let ghost start = labels@;
        let ghost mut picks: Seq<usize> = Seq::empty();
        let n = topo.num_nodes;
        let mut changed = false;
        let mut i: usize = 0;
        while i < order.len()
            invariant
                topo.wf(),
                n == topo.num_nodes,
                labels@.len() == n,
                start.len() == n,
                i <= order@.len(),
                picks.len() == i,
                forall|j: int| 0 <= j < i ==> is_majority(topo.edges@, order@[j], relabel_steps(start, order@, picks, j as nat), #[trigger] picks[j]),
                labels@ == relabel_steps(start, order@, picks, i as nat),
                changed == exists|j: int| 0 <= j < i && #[trigger] picks[j] != relabel_steps(start, order@, picks, j as nat)[order@[j] as int],
                forall|j: int| 0 <= j < order@.len() ==> #[trigger] order@[j] < n,
                !changed ==> labels@ == start,
                !changed ==> forall|j: int| 0 <= j < i ==> is_majority(topo.edges@, order@[j], start, #[trigger] start[order@[j] as int]),
                n > 0 && labels_below(start, n as nat) ==> labels_below(labels@, n as nat),
            decreases order@.len() - i,
        {
            let v = order[i];
            let new_label = self.get_majority_label(topo, v, labels);
            proof {
                if n > 0 && labels_below(start, n as nat) && !isolated(topo.edges@, v) {
                    let k = choose|k: int| 0 <= k < topo.edges@.len()
                        && #[trigger] succ_of(topo.edges@[k], false, v) == Some(succ_of(topo.edges@[k], false, v)->0)
                        && labels@[succ_of(topo.edges@[k], false, v)->0 as int] == new_label;
                    assert(topo.edges@[k].0 < n && topo.edges@[k].1 < n);
                }
            }
            let ghost before = labels@;
            proof {
                lemma_round_step(topo.edges@, start, order@, picks, i as nat, new_label);
            }
            if new_label != labels[v] {
                labels.set(v, new_label);
                changed = true;
            }
            proof {
                assert(labels@ =~= before.update(v as int, new_label));
                picks = picks.push(new_label);
            }
            i = i + 1;
        }
        proof {
            assert(propagation_round(topo.edges@, start, order@, picks));
            assert(labels@ == relabel_steps(start, order@, picks, order@.len()));
            assert(changed == round_changes(start, order@, picks));
        }
        changed
    }

    /// Label propagation from one label per node (its position): rounds over
    /// the nodes in a fresh random order, until a round changes nothing or
    /// `max_iterations` rounds have run. Labels are node positions. The
    /// orders come from a generator seeded from the operating system's random
    /// source; when that source fails, the result is a `SamplingError`. With
    /// no rounds to run, no generator is made.
    pub fn detect(&self, topo: &Topology) -> (r: GraphResult<Vec<usize>>)
        requires
            topo.wf(),
        ensures
            self.spec_max_iterations() == 0 ==> r is Ok,
            r is Err ==> (r matches Err(GraphError::SamplingError(m)) && m@ == seeding_failure_message()),
            r matches Ok(labels) ==> {
                &&& labels@.len() == topo.num_nodes
                &&& labels_below(labels@, topo.num_nodes as nat)
                &&& self.spec_max_iterations() == 0 ==> forall|v: int| 0 <= v < topo.num_nodes ==> #[trigger] labels@[v] == v
                &&& exists|orders: Seq<Seq<usize>>, picks: Seq<Seq<usize>>, states: Seq<Seq<usize>>| {
                    &&& propagation_run(topo.edges@, topo.num_nodes as nat, self.spec_max_iterations() as nat, orders, picks, states)
                    &&& labels@ == states.last()
                }
            },
    {
        let n = topo.num_nodes;
        let mut labels: Vec<usize> = Vec::new();
        let mut v: usize = 0;
        while v < n
            invariant
                v <= n,
                labels@.len() == v,
                forall|j: int| 0 <= j < v ==> #[trigger] labels@[j] == j,
            decreases n - v,
        {
            labels.push(v);
            v = v + 1;
        }
        let mut iteration: usize = 0;
        let mut changed = true;
        let ghost mut orders: Seq<Seq<usize>> = Seq::empty();
        let ghost mut picks_all: Seq<Seq<usize>> = Seq::empty();
        let ghost mut states: Seq<Seq<usize>> = seq![labels@];
        proof {
            assert(labels@ =~= own_labels(n as nat));
        }
        if self.max_iterations == 0 {
            proof {
                assert(propagation_run(topo.edges@, topo.num_nodes as nat, self.spec_max_iterations() as nat, orders, picks_all, states));
            }
            return Ok(labels);
        }
        let mut rng = match seeded_rng(None) {
            Ok(g) => g,
            Err(e) => {
                return Err(e);
            },
        };
        while changed && iteration < self.max_iterations
            invariant
                topo.wf(),
                n == topo.num_nodes,
                labels@.len() == n,
                labels_below(labels@, n as nat),
                iteration <= self.max_iterations,
                iteration == 0 ==> forall|j: int| 0 <= j < n ==> #[trigger] labels@[j] == j,
                states.len() == iteration + 1,
                orders.len() == iteration,
                picks_all.len() == iteration,
                states[0] == own_labels(n as nat),
                labels@ == states.last(),
                forall|i: int| 0 <= i < iteration ==> {
                    &&& (#[trigger] orders[i]).to_multiset() == own_labels(n as nat).to_multiset()
                    &&& propagation_round(topo.edges@, states[i], orders[i], picks_all[i])
                    &&& states[i + 1] == relabel_steps(states[i], orders[i], picks_all[i], orders[i].len())
                },
                forall|i: int| 0 <= i < iteration - 1 ==> round_changes(states[i], #[trigger] orders[i], picks_all[i]),
                iteration == 0 ==> changed,
                iteration > 0 ==> changed == round_changes(states[iteration - 1], orders[iteration - 1], picks_all[iteration - 1]),
            decreases self.max_iterations - iteration,
        {
            let mut order: Vec<usize> = Vec::new();
            let mut u: usize = 0;
            while u < n
                invariant
                    u <= n,
                    order@.len() == u,
                    forall|j: int| 0 <= j < u ==> #[trigger] order@[j] == j,
                decreases n - u,
            {
                order.push(u);
                u = u + 1;
            }
            let ghost before = order@;
            shuffle_with(&mut order, &mut rng);
            proof {
                assert forall|i: int| 0 <= i < order@.len() implies #[trigger] order@[i] < n by {
                    assert(order@.contains(order@[i]));
                    assert(order@.to_multiset().count(order@[i]) > 0);
                    assert(before.contains(order@[i]));
                }
            }
            let ghost start = labels@;
            let ghost was_changed = changed;
            proof {
                assert(before =~= own_labels(n as nat));
            }
            changed = self.propagate(topo, &mut labels, &order);
            proof {
                let p = choose|p: Seq<usize>| {
                    &&& propagation_round(topo.edges@, start, order@, p)
                    &&& labels@ == relabel_steps(start, order@, p, order@.len())
                    &&& changed == round_changes(start, order@, p)
                };
                let o2 = orders.push(order@);
                let p2 = picks_all.push(p);
                let s2 = states.push(labels@);
                assert(start == states.last());
                assert(s2[iteration as int] == start);
                assert forall|i: int| 0 <= i < iteration + 1 implies {
                    &&& (#[trigger] o2[i]).to_multiset() == own_labels(n as nat).to_multiset()
                    &&& propagation_round(topo.edges@, s2[i], o2[i], p2[i])
                    &&& s2[i + 1] == relabel_steps(s2[i], o2[i], p2[i], o2[i].len())
                } by {
                    if i < iteration {
                        assert(o2[i] == orders[i] && p2[i] == picks_all[i] && s2[i] == states[i] && s2[i + 1] == states[i + 1]);
                    } else {
                        assert(o2[i] == order@ && p2[i] == p && s2[i] == start && s2[i + 1] == labels@);
                    }
                }
                assert forall|i: int| 0 <= i < iteration implies round_changes(s2[i], #[trigger] o2[i], p2[i]) by {
                    assert(o2[i] == orders[i] && p2[i] == picks_all[i] && s2[i] == states[i]);
                    if i == iteration - 1 {
                        assert(was_changed);
                    }
                }
                orders = o2;
                picks_all = p2;
                states = s2;
            }
            iteration = iteration + 1;
        }
        proof {
            if iteration < self.max_iterations {
                assert(!changed);
                assert(iteration > 0);
                assert(!round_changes(states[iteration - 1], orders[iteration - 1], picks_all[iteration - 1]));
            }
            assert(propagation_run(topo.edges@, n as nat, self.max_iterations as nat, orders, picks_all, states));
            assert(propagation_run(topo.edges@, topo.num_nodes as nat, self.spec_max_iterations() as nat, orders, picks_all, states));
            assert(labels@ == states.last());
        }
        Ok(labels)
    }
}

/// The name of the community numbered `c` in an aggregated graph.
pub open spec fn community_name(c: usize) -> Seq<char> {
    "community_"@ + decimal(c as nat)
}

/// The node that stands for community `c` in an aggregated graph: the node
/// named `community_{c}`.
pub fn community_node_id(c: usize) -> (r: NodeId)
    ensures
        r.id@ == decimal(default_str_hash(community_name(c)) as nat),
        r.table_type@ == decimal((default_str_hash(community_name(c)) % 1000) as nat),
{
    let mut name = String::from_str("community_");
    let digits = u64_to_decimal(c as u64);
    name.append(digits.as_str());
    NodeId::from_string(name.as_str())
}

/// The unordered pair of communities that an edge joins, smaller first, when
/// they differ.
pub open spec fn community_pair(communities: Seq<usize>, e: (usize, usize)) -> Option<(usize, usize)> {
    let a = communities[e.0 as int];
    let b = communities[e.1 as int];
    if a == b {
        None
    } else if a < b {
        Some((a, b))
    } else {
        Some((b, a))
    }
}

/// How many edges join the communities of `pair`.
pub open spec fn pair_count(edges: Seq<(usize, usize)>, communities: Seq<usize>, pair: (usize, usize)) -> nat
    decreases edges.len(),
{
    if edges.len() == 0 {
        0
    } else {
        pair_count(edges.drop_last(), communities, pair)
            + if community_pair(communities, edges.last()) == Some(pair) { 1nat } else { 0nat }
    }
}

/// `weights` lists each pair of different communities that some edge joins,
/// once, with the number of edges that join it.
pub open spec fn community_weights(edges: Seq<(usize, usize)>, communities: Seq<usize>, weights: Seq<((usize, usize), usize)>) -> bool {
    &&& forall|i: int, j: int| 0 <= i < j < weights.len() ==> (#[trigger] weights[i]).0 != (#[trigger] weights[j]).0
    &&& forall|i: int| 0 <= i < weights.len() ==> (#[trigger] weights[i]).1 == pair_count(edges, communities, weights[i].0)
        && weights[i].1 > 0
    &&& forall|k: int| 0 <= k < edges.len() && #[trigger] community_pair(communities, edges[k]) is Some ==>
        exists|i: int| 0 <= i < weights.len() && (#[trigger] weights[i]).0 == community_pair(communities, edges[k])->0
}

proof fn lemma_pair_count_push(edges: Seq<(usize, usize)>, communities: Seq<usize>, e: (usize, usize), pair: (usize, usize))
    ensures
        pair_count(edges.push(e), communities, pair) == pair_count(edges, communities, pair)
            + if community_pair(communities, e) == Some(pair) { 1nat } else { 0nat },
{
    assert(edges.push(e).drop_last() =~= edges);
}

proof fn lemma_pair_count_absent(edges: Seq<(usize, usize)>, communities: Seq<usize>, pair: (usize, usize))
    requires
        forall|k: int| 0 <= k < edges.len() ==> #[trigger] community_pair(communities, edges[k]) != Some(pair),
    ensures
        pair_count(edges, communities, pair) == 0,
    decreases edges.len(),
{
    if edges.len() > 0 {
        let p = edges.drop_last();
        assert forall|k: int| 0 <= k < p.len() implies #[trigger] community_pair(communities, p[k]) != Some(pair) by {
            assert(p[k] == edges[k]);
        }
        lemma_pair_count_absent(p, communities, pair);
        assert(community_pair(communities, edges[edges.len() - 1]) != Some(pair));
    }
}

/// The weighted edges of the community graph: for every pair of different
/// communities that edges join, the pair (smaller community first) and the
/// number of such edges, in the order the pairs first occur.
pub fn community_edge_weights(topo: &Topology, communities: &Vec<usize>) -> (r: Vec<((usize, usize), usize)>)
    requires
        topo.wf(),
        communities@.len() == topo.num_nodes,
    ensures
        community_weights(topo.edges@, communities@, r@),
{
    let ghost edges = topo.edges@;
    let mut weights: Vec<((usize, usize), usize)> = Vec::new();
    let mut k: usize = 0;
    while k < topo.edges.len()
        invariant
            topo.wf(),
            edges == topo.edges@,
            communities@.len() == topo.num_nodes,
            k <= edges.len(),
            community_weights(edges.take(k as int), communities@, weights@),
            forall|i: int| 0 <= i < weights@.len() ==> (#[trigger] weights@[i]).1 <= k,
        decreases edges.len() - k,
    {
        let ghost pre = edges.take(k as int);
        let ghost post = edges.take(k + 1);
        proof {
            assert(post =~= pre.push(edges[k as int]));
        }
        let (a0, b0) = topo.edges[k];
        let a = communities[a0];
        let b = communities[b0];
        if a != b {
            let pair = if a < b { (a, b) } else { (b, a) };
            assert(community_pair(communities@, edges[k as int]) == Some(pair));
            let mut i: usize = 0;
            let mut found = false;
            while i < weights.len()
                invariant_except_break
                    !found,
                invariant
                    i <= weights@.len(),
                    forall|j: int| 0 <= j < i ==> (#[trigger] weights@[j]).0 != pair,
                ensures
                    found ==> i < weights@.len() && weights@[i as int].0 == pair,
                    !found ==> forall|j: int| 0 <= j < weights@.len() ==> (#[trigger] weights@[j]).0 != pair,
                decreases weights@.len() - i,
            {
                let (q, _) = weights[i];
                if q.0 == pair.0 && q.1 == pair.1 {
                    found = true;
                    break;
                }
                i = i + 1;
            }
            let ghost old_w = weights@;
            if found {
                let w = weights[i].1;
                weights.set(i, (pair, w + 1));
                proof {
                    assert forall|j: int| 0 <= j < weights@.len() implies (#[trigger] weights@[j]).1 == pair_count(post, communities@, weights@[j].0)
                        && weights@[j].1 > 0 by {
                        lemma_pair_count_push(pre, communities@, edges[k as int], weights@[j].0);
                        if j != i as int {
                            assert(weights@[j] == old_w[j]);
                            assert(old_w[j].0 != old_w[i as int].0);
                        }
                    }
                    assert forall|q: int| 0 <= q < post.len() && #[trigger] community_pair(communities@, post[q]) is Some implies
                        exists|j: int| 0 <= j < weights@.len() && (#[trigger] weights@[j]).0 == community_pair(communities@, post[q])->0 by {
                        if q < pre.len() {
                            assert(post[q] == pre[q]);
                            let j = choose|j: int| 0 <= j < old_w.len() && (#[trigger] old_w[j]).0 == community_pair(communities@, pre[q])->0;
                            assert(weights@[j].0 == old_w[j].0);
                        } else {
                            assert(weights@[i as int].0 == pair);
                        }
                    }
                    assert forall|x: int, y: int| 0 <= x < y < weights@.len() implies (#[trigger] weights@[x]).0 != (#[trigger] weights@[y]).0 by {
                        assert(weights@[x].0 == old_w[x].0 && weights@[y].0 == old_w[y].0);
                    }
                }
            } else {
                proof {
                    assert forall|q: int| 0 <= q < pre.len() implies #[trigger] community_pair(communities@, pre[q]) != Some(pair) by {
                        if community_pair(communities@, pre[q]) == Some(pair) {
                            let j = choose|j: int| 0 <= j < old_w.len() && (#[trigger] old_w[j]).0 == community_pair(communities@, pre[q])->0;
                        }
                    }
                    lemma_pair_count_absent(pre, communities@, pair);
                }
                weights.push((pair, 1));
                proof {
                    assert forall|j: int| 0 <= j < weights@.len() implies (#[trigger] weights@[j]).1 == pair_count(post, communities@, weights@[j].0)
                        && weights@[j].1 > 0 by {
                        lemma_pair_count_push(pre, communities@, edges[k as int], weights@[j].0);
                        if j < old_w.len() {
                            assert(weights@[j] == old_w[j]);
                        }
                    }
                    assert forall|q: int| 0 <= q < post.len() && #[trigger] community_pair(communities@, post[q]) is Some implies
                        exists|j: int| 0 <= j < weights@.len() && (#[trigger] weights@[j]).0 == community_pair(communities@, post[q])->0 by {
                        if q < pre.len() {
                            assert(post[q] == pre[q]);
                            let j = choose|j: int| 0 <= j < old_w.len() && (#[trigger] old_w[j]).0 == community_pair(communities@, pre[q])->0;
                            assert(weights@[j] == old_w[j]);
                        } else {
                            assert(weights@[old_w.len() as int].0 == pair);
                        }
                    }
                    assert forall|x: int, y: int| 0 <= x < y < weights@.len() implies (#[trigger] weights@[x]).0 != (#[trigger] weights@[y]).0 by {
                        if y == old_w.len() {
                            assert(weights@[x] == old_w[x]);
                        } else {
                            assert(weights@[x] == old_w[x] && weights@[y] == old_w[y]);
                        }
                    }
                }
            }
        } else {
            proof {
                assert(community_pair(communities@, edges[k as int]) is None);
                let w = weights@;
                assert forall|j: int| 0 <= j < w.len() implies (#[trigger] w[j]).1 == pair_count(post, communities@, w[j].0)
                    && w[j].1 > 0 by {
                    lemma_pair_count_push(pre, communities@, edges[k as int], w[j].0);
                }
                assert forall|q: int| 0 <= q < post.len() && #[trigger] community_pair(communities@, post[q]) is Some implies
                    exists|j: int| 0 <= j < w.len() && (#[trigger] w[j]).0 == community_pair(communities@, post[q])->0 by {
                    assert(post[q] == pre[q]);
                }
            }
        }
        k = k + 1;
    }
    assert(edges.take(k as int) =~= edges);
    weights
}

} // verus!
