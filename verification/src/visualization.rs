//! Text renderings of a graph for visualisation tools.
use vstd::prelude::*;
use vstd::string::*;
use crate::node_id::{NodeId, node_text};

verus! {

/// Graph export for visualisation.
pub struct GraphVisualizer;

/// Force-directed placement of nodes in the plane.
pub struct GraphLayout;

/// The DOT line that declares a node, labelled with its own name.
pub open spec fn dot_node_line(n: NodeId) -> Seq<char> {
    "  \""@ + node_text(n.table_type@, n.id@) + "\" [label=\""@ + node_text(n.table_type@, n.id@) + "\"];\n"@
}

/// The DOT line of an edge, labelled with its relation.
pub open spec fn dot_edge_line(from: NodeId, to: NodeId, relation: Seq<char>) -> Seq<char> {
    "  \""@ + node_text(from.table_type@, from.id@) + "\" -> \""@ + node_text(to.table_type@, to.id@)
        + "\" [label=\""@ + relation + "\"];\n"@
}

/// The node lines of the first `i` nodes.
pub open spec fn dot_node_lines(nodes: Seq<NodeId>, i: int) -> Seq<char>
    decreases i,
{
    if i <= 0 {
        Seq::empty()
    } else {
        dot_node_lines(nodes, i - 1) + dot_node_line(nodes[i - 1])
    }
}

/// The edge lines of the first `i` edges.
pub open spec fn dot_edge_lines(edges: Seq<(NodeId, NodeId, String)>, i: int) -> Seq<char>
    decreases i,
{
    if i <= 0 {
        Seq::empty()
    } else {
        dot_edge_lines(edges, i - 1) + dot_edge_line(edges[i - 1].0, edges[i - 1].1, edges[i - 1].2@)
    }
}

/// A DOT document of a directed graph, laid out left to right with circular
/// nodes: a line per node, then a line per edge.
pub open spec fn dot_document(nodes: Seq<NodeId>, edges: Seq<(NodeId, NodeId, String)>) -> Seq<char> {
    "digraph G {\n"@ + "  rankdir=LR;\n"@ + "  node [shape=circle];\n"@
        + dot_node_lines(nodes, nodes.len() as int) + dot_edge_lines(edges, edges.len() as int) + "}\n"@
}

impl GraphVisualizer {
    /// The DOT text of a graph with the given nodes and `(from, to, relation)`
    /// edges.
    pub fn dot_text(nodes: &Vec<NodeId>, edges: &Vec<(NodeId, NodeId, String)>) -> (r: String)
        ensures
            r@ == dot_document(nodes@, edges@),
    {
        let mut s = String::from_str("digraph G {\n");
        s.append("  rankdir=LR;\n");
        s.append("  node [shape=circle];\n");
        let ghost head = s@;
        let mut i: usize = 0;
        while i < nodes.len()
            invariant
                i <= nodes@.len(),
                s@ == head + dot_node_lines(nodes@, i as int),
            decreases nodes@.len() - i,
        {
            let name = nodes[i].to_string();
            s.append("  \"");
            s.append(name.as_str());
            s.append("\" [label=\"");
            s.append(name.as_str());
            s.append("\"];\n");
            i = i + 1;
            assert(s@ =~= head + dot_node_lines(nodes@, i as int));
        }
        let ghost mid = s@;
        let mut k: usize = 0;
        while k < edges.len()
            invariant
                k <= edges@.len(),
                s@ == mid + dot_edge_lines(edges@, k as int),
            decreases edges@.len() - k,
        {
            let from = edges[k].0.to_string();
            let to = edges[k].1.to_string();
            s.append("  \"");
            s.append(from.as_str());
            s.append("\" -> \"");
            s.append(to.as_str());
            s.append("\" [label=\"");
            s.append(edges[k].2.as_str());
            s.append("\"];\n");
            k = k + 1;
            assert(s@ =~= mid + dot_edge_lines(edges@, k as int));
        }
        s.append("}\n");
        assert(s@ =~= dot_document(nodes@, edges@));
        s
    }
}

/// How often `k` occurs in `s`.
pub open spec fn occurrences<T>(s: Seq<T>, k: T) -> nat
    decreases s.len(),
{
    if s.len() == 0 {
        0
    } else {
        occurrences(s.drop_last(), k) + if s.last() == k { 1nat } else { 0nat }
    }
}

/// The items of `s` without repeats, in the order of their first occurrence.
pub open spec fn distinct_in_order<T>(s: Seq<T>) -> Seq<T>
    decreases s.len(),
{
    if s.len() == 0 {
        Seq::empty()
    } else {
        let prev = distinct_in_order(s.drop_last());
        if prev.contains(s.last()) {
            prev
        } else {
            prev.push(s.last())
        }
    }
}

/// The character sequences of a list of strings.
pub open spec fn name_views(names: Seq<String>) -> Seq<Seq<char>> {
    names.map_values(|s: String| s@)
}

proof fn lemma_occurrences_bound<T>(s: Seq<T>, k: T)
    ensures
        occurrences(s, k) <= s.len(),
    decreases s.len(),
{
    if s.len() > 0 {
        lemma_occurrences_bound(s.drop_last(), k);
    }
}

fn has_type(list: &Vec<usize>, x: usize) -> (r: bool)
    ensures
        r == list@.contains(x),
{
    let mut i: usize = 0;
    while i < list.len()
        invariant
            i <= list@.len(),
            forall|k: int| 0 <= k < i ==> list@[k] != x,
        decreases list@.len() - i,
    {
        if list[i] == x {
            assert(list@[i as int] == x);
            return true;
        }
        i = i + 1;
    }
    false
}

fn has_name(list: &Vec<String>, x: &String) -> (r: bool)
    ensures
        r == name_views(list@).contains(x@),
{
    let mut i: usize = 0;
    while i < list.len()
        invariant
            i <= list@.len(),
            forall|k: int| 0 <= k < i ==> list@[k]@ != x@,
        decreases list@.len() - i,
    {
        if list[i] == *x {
            assert(name_views(list@)[i as int] == x@);
            return true;
        }
        i = i + 1;
    }
    proof {
        if name_views(list@).contains(x@) {
            let k = choose|k: int| 0 <= k < name_views(list@).len() && name_views(list@)[k] == x@;
            assert(list@[k]@ == x@);
        }
    }
    false
}

impl GraphVisualizer {
    /// How many nodes have each node type: an entry per distinct type, in
    /// order of first occurrence, with its number of occurrences.
    pub fn type_distribution(types: &Vec<usize>) -> (r: Vec<(usize, usize)>)
        ensures
            r@.len() == distinct_in_order(types@).len(),
            forall|j: int| 0 <= j < r@.len() ==> #[trigger] r@[j].0 == distinct_in_order(types@)[j]
                && r@[j].1 == occurrences(types@, r@[j].0),
    {
        let mut keys: Vec<usize> = Vec::new();
        let mut i: usize = 0;
        assert(types@.take(0) =~= Seq::<usize>::empty());
        while i < types.len()
            invariant
                i <= types@.len(),
                keys@ == distinct_in_order(types@.take(i as int)),
            decreases types@.len() - i,
        {
            let t = types[i];
            assert(types@.take(i as int + 1).drop_last() =~= types@.take(i as int));
            if !has_type(&keys, t) {
                keys.push(t);
            }
            i = i + 1;
        }
        assert(types@.take(types@.len() as int) =~= types@);
        let mut r: Vec<(usize, usize)> = Vec::new();
        let mut j: usize = 0;
        while j < keys.len()
            invariant
                j <= keys@.len(),
                keys@ == distinct_in_order(types@),
                r@.len() == j,
                forall|q: int| 0 <= q < j ==> #[trigger] r@[q].0 == keys@[q] && r@[q].1 == occurrences(types@, r@[q].0),
            decreases keys@.len() - j,
        {
            let k = keys[j];
            let mut c: usize = 0;
            let mut m: usize = 0;
            while m < types.len()
                invariant
                    m <= types@.len(),
                    c == occurrences(types@.take(m as int), k),
                decreases types@.len() - m,
            {
                assert(types@.take(m as int + 1).drop_last() =~= types@.take(m as int));
                proof {
                    lemma_occurrences_bound(types@.take(m as int), k);
                }
                if types[m] == k {
                    c = c + 1;
                }
                m = m + 1;
            }
            assert(types@.take(types@.len() as int) =~= types@);
            r.push((k, c));
            j = j + 1;
        }
        r
    }

    /// How many edges have each relation: an entry per distinct relation
    /// name, in order of first occurrence, with its number of occurrences.
    pub fn relation_distribution(names: &Vec<String>) -> (r: Vec<(String, usize)>)
        ensures
            r@.len() == distinct_in_order(name_views(names@)).len(),
            forall|j: int| 0 <= j < r@.len() ==> #[trigger] r@[j].0@ == distinct_in_order(name_views(names@))[j]
                && r@[j].1 == occurrences(name_views(names@), r@[j].0@),
    {
        let ghost views = name_views(names@);
        let mut keys: Vec<String> = Vec::new();
        let mut i: usize = 0;
        assert(views.take(0) =~= Seq::<Seq<char>>::empty());
        assert(name_views(keys@) =~= Seq::<Seq<char>>::empty());
        while i < names.len()
            invariant
                i <= names@.len(),
                views == name_views(names@),
                name_views(keys@) == distinct_in_order(views.take(i as int)),
            decreases names@.len() - i,
        {
            assert(views.take(i as int + 1).drop_last() =~= views.take(i as int));
            assert(views.take(i as int + 1).last() == names@[i as int]@);
            if !has_name(&keys, &names[i]) {
                let ghost before = keys@;
                keys.push(names[i].clone());
                assert(name_views(keys@) =~= name_views(before).push(names@[i as int]@));
            }
            i = i + 1;
        }
        assert(views.take(views.len() as int) =~= views);
        let mut r: Vec<(String, usize)> = Vec::new();
        let mut j: usize = 0;
        while j < keys.len()
            invariant
                j <= keys@.len(),
                views == name_views(names@),
                name_views(keys@) == distinct_in_order(views),
                r@.len() == j,
                forall|q: int| 0 <= q < j ==> #[trigger] r@[q].0@ == keys@[q]@ && r@[q].1 == occurrences(views, r@[q].0@),
            decreases keys@.len() - j,
        {
            let ghost kv = keys@[j as int]@;
            let mut c: usize = 0;
            let mut m: usize = 0;
            while m < names.len()
                invariant
                    m <= names@.len(),
                    views == name_views(names@),
                    j < keys@.len(),
                    kv == keys@[j as int]@,
                    c == occurrences(views.take(m as int), kv),
                decreases names@.len() - m,
            {
                assert(views.take(m as int + 1).drop_last() =~= views.take(m as int));
                assert(views.take(m as int + 1).last() == names@[m as int]@);
                proof {
                    lemma_occurrences_bound(views.take(m as int), kv);
                }
                if names[m] == keys[j] {
                    c = c + 1;
                }
                m = m + 1;
            }
            assert(views.take(views.len() as int) =~= views);
            assert(name_views(keys@)[j as int] == kv);
            r.push((keys[j].clone(), c));
            j = j + 1;
        }
        proof {
            assert forall|q: int| 0 <= q < r@.len() implies #[trigger] r@[q].0@ == distinct_in_order(name_views(names@))[q] by {
                assert(name_views(keys@)[q] == keys@[q]@);
            }
        }
        r
    }
}

} // verus!
