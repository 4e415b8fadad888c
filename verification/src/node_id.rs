//! Node identifiers: a table type and a row id, both kept in decimal text.
use vstd::prelude::*;
use vstd::string::*;
use crate::decimal::{
    decimal, parse_unsigned, u64_to_decimal, parse_unsigned_str, lemma_parse_decimal,
};

verus! {

/// Identifies a node by the table it comes from and its row id.
///
/// Both parts are kept as text. Nodes made by [`NodeId::new`] hold decimal
/// numbers; nodes made by [`NodeId::from_string`] hold a hash of the name.
/// Nodes order by table type first, then by id.
#[derive(Debug, Clone, PartialEq, Eq, Hash, PartialOrd, Ord)]
pub struct NodeId {
    pub table_type: String,
    pub id: String,
}

/// A directed edge identifier: two endpoints and a relation number.
#[derive(Debug, Clone, PartialEq, Eq, Hash, PartialOrd, Ord)]
pub struct EdgeId {
    pub source: NodeId,
    pub target: NodeId,
    pub relation_id: usize,
}

/// The text `"{table_type}:{id}"` that names a node.
pub open spec fn node_text(table_type: Seq<char>, id: Seq<char>) -> Seq<char> {
    table_type + seq![':'] + id
}

/// The numeric key `(table_type, id)` that a node's text parts stand for, if
/// both parse as unsigned integers of their widths.
pub open spec fn node_key(table_type: Seq<char>, id: Seq<char>) -> Option<(nat, nat)> {
    match (parse_unsigned(table_type, usize::MAX as nat), parse_unsigned(id, u64::MAX as nat)) {
        (Some(t), Some(i)) => Some((t, i)),
        _ => None,
    }
}

/// The value that std's `DefaultHasher`, freshly made with its fixed keys,
/// gives for a string hashed through `Hash`.
pub uninterp spec fn default_str_hash(s: Seq<char>) -> u64;

/// `BuildHasher::hash_one` with std's `DefaultHasher` applied to a string:
/// a new hasher with the fixed keys, the string fed through `Hash`, then
/// `finish`. The contract names the value and says nothing more of it: std
/// leaves the algorithm open, and it is the same for the same string.
#[verifier::external_body]
fn default_hash_of_str(s: &str) -> (r: u64)
    ensures
        r == default_str_hash(s@),
{
    std::hash::BuildHasher::hash_one(
        &std::hash::BuildHasherDefault::<std::collections::hash_map::DefaultHasher>::default(),
        s,
    )
}

impl NodeId {
    /// The node of row `node_id` in table `table_type`.
    pub fn new(table_type: usize, node_id: u64) -> (r: Self)
        ensures
            r.table_type@ == decimal(table_type as nat),
            r.id@ == decimal(node_id as nat),
    {
        NodeId { table_type: u64_to_decimal(table_type as u64), id: u64_to_decimal(node_id) }
    }

    /// The node that a name hashing to `hash` stands for: the id is the hash,
    /// the table type is the hash modulo 1000.
    pub fn from_hash(hash: u64) -> (r: Self)
        ensures
            r.id@ == decimal(hash as nat),
            r.table_type@ == decimal((hash % 1000) as nat),
    {
        NodeId { table_type: u64_to_decimal(hash % 1000), id: u64_to_decimal(hash) }
    }

    /// The node that the name `s` stands for, through std's default hasher.
    pub fn from_string(s: &str) -> (r: Self)
        ensures
            r.id@ == decimal(default_str_hash(s@) as nat),
            r.table_type@ == decimal((default_str_hash(s@) % 1000) as nat),
    {
        let h = default_hash_of_str(s);
        Self::from_hash(h)
    }

    /// The text `"{table_type}:{id}"`.
    pub fn to_string(&self) -> (r: String)
        ensures
            r@ == node_text(self.table_type@, self.id@),
    {
        proof {
            reveal_strlit(":");
        }
        let mut r = self.table_type.clone();
        r.append(":");
        r.append(self.id.as_str());
        r
    }

    /// The numeric `(table_type, id)` pair, if both parts parse as numbers.
    pub fn key_parts(&self) -> (r: Option<(usize, u64)>)
        ensures
            match r {
                Some((t, i)) => node_key(self.table_type@, self.id@) == Some((t as nat, i as nat)),
                None => node_key(self.table_type@, self.id@) is None,
            },
    {
        let t = parse_unsigned_str(self.table_type.as_str(), usize::MAX as u64);
        let i = parse_unsigned_str(self.id.as_str(), u64::MAX);
        match (t, i) {
            (Some(t), Some(i)) => Some((t as usize, i)),
            _ => None,
        }
    }
}

impl From<&str> for NodeId {
    /// The node that the name `s` stands for, as [`NodeId::from_string`]
    /// makes it.
    fn from(s: &str) -> (r: Self)
        ensures
            r.id@ == decimal(default_str_hash(s@) as nat),
            r.table_type@ == decimal((default_str_hash(s@) % 1000) as nat),
    {
        Self::from_string(s)
    }
}

/// The conversion's result is given by the `ensures` of `from` itself, over
/// the views of the two text parts; no spec value of the node is claimed.
impl vstd::std_specs::convert::FromSpecImpl<&str> for NodeId {
    open spec fn obeys_from_spec() -> bool {
        false
    }

    open spec fn from_spec(v: &str) -> NodeId {
        arbitrary()
    }
}

impl From<String> for NodeId {
    /// The node that the name `s` stands for, as [`NodeId::from_string`]
    /// makes it.
    fn from(s: String) -> (r: Self)
        ensures
            r.id@ == decimal(default_str_hash(s@) as nat),
            r.table_type@ == decimal((default_str_hash(s@) % 1000) as nat),
    {
        Self::from_string(s.as_str())
    }
}

/// The conversion's result is given by the `ensures` of `from` itself, over
/// the views of the two text parts; no spec value of the node is claimed.
impl vstd::std_specs::convert::FromSpecImpl<String> for NodeId {
    open spec fn obeys_from_spec() -> bool {
        false
    }

    open spec fn from_spec(v: String) -> NodeId {
        arbitrary()
    }
}

/// A node made from numbers gives the same numbers back.
pub proof fn law_node_key_round_trip(table_type: usize, node_id: u64)
    ensures
        node_key(decimal(table_type as nat), decimal(node_id as nat))
            == Some((table_type as nat, node_id as nat)),
{
    lemma_parse_decimal(table_type as nat, usize::MAX as nat);
    lemma_parse_decimal(node_id as nat, u64::MAX as nat);
}

} // verus!
