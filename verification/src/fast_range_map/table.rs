use vstd::prelude::*;

verus! {

/// One entry of the linked hash map: the half-open range `start..end`
/// that maps to `value`, under the handle `index`, with the handles of
/// its neighbours in insertion order.
#[derive(Copy, Clone)]
pub struct Node {
    pub index: u64,
    pub start: u64,
    pub end: u64,
    pub value: u64,
    pub prev: Option<u64>,
    pub next: Option<u64>,
}

impl Node {
    /// The hash under which the node is stored: its handle, which is
    /// already well spread.
    pub fn hasher(&self) -> (hash: u64)
        ensures
            hash == self.index,
    {
        self.index
    }

    pub fn has_index(&self, index: u64) -> (r: bool)
        ensures
            r == (self.index == index),
    {
        self.index == index
    }
}

/// The nodes of a linked hash map, held in a `hashbrown` raw table in
/// which every node is stored under the hash of its own handle.
#[verifier::external_body]
pub struct NodeTable {
    table: hashbrown::raw::RawTable<Node>,
}

/// The contents of an empty table.
pub open spec fn no_nodes() -> Map<u64, Node> {
    Map::empty()
}

/// The nodes that a table holds, by their handles.
pub uninterp spec fn table_nodes(table: NodeTable) -> Map<u64, Node>;

/// `RawTable::new`: a table with no element.
#[verifier::external_body]
pub fn table_new() -> (table: NodeTable)
    ensures
        table_nodes(table) == no_nodes(),
{
    NodeTable { table: hashbrown::raw::RawTable::new() }
}

/// `RawTable::len`: the number of elements in the table.
#[verifier::external_body]
pub fn table_len(table: &NodeTable) -> (len: usize)
    ensures
        len == table_nodes(*table).len(),
{
    table.table.len()
}

/// `RawTable::get`, with the node's handle as hash and a comparison of
/// handles as equality: a copy of the node stored under `index`, if any.
#[verifier::external_body]
pub fn table_get(table: &NodeTable, index: u64) -> (node: Option<Node>)
    ensures
        node == (if table_nodes(*table).contains_key(index) {
            Some(table_nodes(*table)[index])
        } else {
            None::<Node>
        }),
{
    table.table.get(index, |node: &Node| node.has_index(index)).copied()
}

/// `RawTable::insert_entry`, with the node's handle as hash and
/// `Node::hasher` for rehashing. The raw table does not look for an
/// element with the same hash; the caller makes sure that there is none.
#[verifier::external_body]
pub fn table_insert(table: &mut NodeTable, node: Node)
    requires
        !table_nodes(*old(table)).contains_key(node.index),
    ensures
        table_nodes(*final(table)) == table_nodes(*old(table)).insert(node.index, node),
{
    table.table.insert_entry(node.index, node, |node: &Node| node.hasher());
}

/// `RawTable::get_mut`, through which the node stored under `node.index`
/// is overwritten with `node`.
#[verifier::external_body]
pub fn table_replace(table: &mut NodeTable, node: Node)
    requires
        table_nodes(*old(table)).contains_key(node.index),
    ensures
        table_nodes(*final(table)) == table_nodes(*old(table)).insert(node.index, node),
{
    let index = node.index;
    *table.table.get_mut(index, |n: &Node| n.has_index(index)).unwrap() = node;
}

/// `RawTable::remove_entry`: takes the node stored under `index` out of
/// the table.
#[verifier::external_body]
pub fn table_remove(table: &mut NodeTable, index: u64) -> (node: Option<Node>)
    ensures
        node == (if table_nodes(*old(table)).contains_key(index) {
            Some(table_nodes(*old(table))[index])
        } else {
            None::<Node>
        }),
        table_nodes(*final(table)) == table_nodes(*old(table)).remove(index),
{
    table.table.remove_entry(index, |node: &Node| node.has_index(index))
}

/// `RawTable::reserve`: makes room for `additional` more nodes; the
/// contents stay as they are.
#[verifier::external_body]
pub fn table_reserve(table: &mut NodeTable, additional: usize)
    ensures
        table_nodes(*final(table)) == table_nodes(*old(table)),
{
    table.table.reserve(additional, |node: &Node| node.hasher());
}

/// `RawTable::clone`: a table with the same nodes.
#[verifier::external_body]
pub fn table_clone(table: &NodeTable) -> (copy: NodeTable)
    ensures
        table_nodes(copy) == table_nodes(*table),
{
    NodeTable { table: table.table.clone() }
}

} // verus!
