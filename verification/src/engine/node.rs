//! Node pages of the storage engine: their in-memory form and their byte layout.
use vstd::prelude::*;

use crate::config::PAGE_SIZE;
use crate::engine::disk::{disk_page, disk_written, Pager};
use crate::error::DatabaseError;
use crate::storage::codec::{le_u32_at, read_u32_le};
use crate::storage::page::zero_page;

verus! {

broadcast use vstd::array::group_array_axioms;

pub const NODE_LEAF: u8 = 1;
pub const NODE_INTERNAL: u8 = 2;

pub const NODE_HEADER_SIZE: usize = 8;
pub const LEAF_CELL_SIZE: usize = 16;
pub const INTERNAL_CELL_SIZE: usize = 12;

pub const LEAF_CAPACITY: usize = (PAGE_SIZE - NODE_HEADER_SIZE) / LEAF_CELL_SIZE;
pub const INTERNAL_CAPACITY: usize = (PAGE_SIZE - NODE_HEADER_SIZE) / INTERNAL_CELL_SIZE;

/// The capacities, evaluated.
pub proof fn lemma_capacities()
    ensures
        LEAF_CAPACITY == 255,
        INTERNAL_CAPACITY == 340,
{
    assert(4088usize / 16usize == 255usize) by (nonlinear_arith);
    assert(4088usize / 12usize == 340usize) by (nonlinear_arith);
}

#[derive(Debug, Clone, Copy, PartialEq, Eq)]
pub struct LeafEntry {
    pub key: u64,
    pub value: u64,
}

#[derive(Debug, Clone, PartialEq, Eq)]
pub struct LeafNode {
    pub entries: Vec<LeafEntry>,
}

#[derive(Debug, Clone, PartialEq, Eq)]
pub struct InternalNode {
    pub children: Vec<u32>,
    pub max_keys: Vec<u64>,
}

#[derive(Debug, Clone, PartialEq, Eq)]
pub enum Node {
    Leaf(LeafNode),
    Internal(InternalNode),
}

/// The contents of a node.
pub enum NodeView {
    Leaf(Seq<LeafEntry>),
    Internal(Seq<u32>, Seq<u64>),
}

impl View for Node {
    type V = NodeView;

    open spec fn view(&self) -> NodeView {
        match self {
            Node::Leaf(leaf) => NodeView::Leaf(leaf.entries@),
            Node::Internal(internal) => NodeView::Internal(internal.children@, internal.max_keys@),
        }
    }
}

/// The `u16` stored little-endian at `off`.
pub open spec fn le_u16_at(s: Seq<u8>, off: int) -> u16 {
    (s[off] as int + s[off + 1] as int * 0x100) as u16
}

/// The `u64` stored little-endian at `off`.
pub open spec fn le_u64_at(s: Seq<u8>, off: int) -> u64 {
    (s[off] as int + s[off + 1] as int * 0x100 + s[off + 2] as int * 0x1_0000 + s[off + 3] as int
        * 0x100_0000 + s[off + 4] as int * 0x1_0000_0000 + s[off + 5] as int * 0x100_0000_0000
        + s[off + 6] as int * 0x1_0000_0000_0000 + s[off + 7] as int * 0x100_0000_0000_0000) as u64
}

/// Byte `k` (0 is the least significant) of `v`.
pub open spec fn u64_byte(v: u64, k: int) -> u8 {
    if k == 0 {
        (v % 0x100) as u8
    } else if k == 1 {
        ((v / 0x100) % 0x100) as u8
    } else if k == 2 {
        ((v / 0x1_0000) % 0x100) as u8
    } else if k == 3 {
        ((v / 0x100_0000) % 0x100) as u8
    } else if k == 4 {
        ((v / 0x1_0000_0000) % 0x100) as u8
    } else if k == 5 {
        ((v / 0x100_0000_0000) % 0x100) as u8
    } else if k == 6 {
        ((v / 0x1_0000_0000_0000) % 0x100) as u8
    } else {
        (v / 0x100_0000_0000_0000) as u8
    }
}

/// The eight bytes of a `u64` put back together give the `u64`.
pub proof fn lemma_u64_bytes(v: u64)
    ensures
        u64_byte(v, 0) as int + u64_byte(v, 1) as int * 0x100 + u64_byte(v, 2) as int * 0x1_0000
            + u64_byte(v, 3) as int * 0x100_0000 + u64_byte(v, 4) as int * 0x1_0000_0000 + u64_byte(
            v,
            5,
        ) as int * 0x100_0000_0000 + u64_byte(v, 6) as int * 0x1_0000_0000_0000 + u64_byte(v, 7) as int
            * 0x100_0000_0000_0000 == v,
{
    assert((v % 0x100) as u8 as int + ((v / 0x100) % 0x100) as u8 as int * 0x100 + ((v / 0x1_0000)
        % 0x100) as u8 as int * 0x1_0000 + ((v / 0x100_0000) % 0x100) as u8 as int * 0x100_0000
        + ((v / 0x1_0000_0000) % 0x100) as u8 as int * 0x1_0000_0000 + ((v / 0x100_0000_0000)
        % 0x100) as u8 as int * 0x100_0000_0000 + ((v / 0x1_0000_0000_0000) % 0x100) as u8 as int
        * 0x1_0000_0000_0000 + (v / 0x100_0000_0000_0000) as u8 as int * 0x100_0000_0000_0000 == v)
        by (bit_vector);
}

/// Byte `k` of a `u32` (as a `u64`).
pub open spec fn u32_byte(v: u32, k: int) -> u8 {
    u64_byte(v as u64, k)
}

/// Reads the little-endian `u64` at `off`.
pub fn read_u64_le(s: &[u8], off: usize) -> (v: u64)
    requires
        off + 8 <= s@.len(),
    ensures
        v == le_u64_at(s@, off as int),
{
    s[off] as u64 + s[off + 1] as u64 * 0x100 + s[off + 2] as u64 * 0x1_0000 + s[off + 3] as u64
        * 0x100_0000 + s[off + 4] as u64 * 0x1_0000_0000 + s[off + 5] as u64 * 0x100_0000_0000
        + s[off + 6] as u64 * 0x1_0000_0000_0000 + s[off + 7] as u64 * 0x100_0000_0000_0000
}

/// Writes `v` little-endian into the eight bytes at `off`.
pub fn write_u64_le(s: &mut [u8], off: usize, v: u64)
    requires
        off + 8 <= old(s)@.len(),
    ensures
        final(s)@.len() == old(s)@.len(),
        forall|i: int| 0 <= i < final(s)@.len() && !(off <= i < off + 8) ==> final(s)@[i] == old(s)@[i],
        forall|k: int| 0 <= k < 8 ==> #[trigger] final(s)@[off + k] == u64_byte(v, k),
{
    s[off] = (v % 0x100) as u8;
    s[off + 1] = ((v / 0x100) % 0x100) as u8;
    s[off + 2] = ((v / 0x1_0000) % 0x100) as u8;
    s[off + 3] = ((v / 0x100_0000) % 0x100) as u8;
    s[off + 4] = ((v / 0x1_0000_0000) % 0x100) as u8;
    s[off + 5] = ((v / 0x100_0000_0000) % 0x100) as u8;
    s[off + 6] = ((v / 0x1_0000_0000_0000) % 0x100) as u8;
    assert(v / 0x100_0000_0000_0000 < 0x100) by (bit_vector);
    s[off + 7] = (v / 0x100_0000_0000_0000) as u8;
}

/// Whether a node can be written to a page: a leaf within capacity, or an internal node
/// with one more child than keys and keys within capacity.
pub open spec fn writable_node(node: NodeView) -> bool {
    match node {
        NodeView::Leaf(entries) => entries.len() <= LEAF_CAPACITY,
        NodeView::Internal(children, max_keys) => {
            &&& children.len() >= 1
            &&& max_keys.len() + 1 == children.len()
            &&& max_keys.len() <= INTERNAL_CAPACITY
        },
    }
}

/// Byte `i` of a leaf page whose first `m` cells hold `entries` (the header counts all of
/// `entries`).
pub open spec fn leaf_page_byte(entries: Seq<LeafEntry>, m: int, i: int) -> u8 {
    if i == 0 {
        NODE_LEAF
    } else if i == 1 {
        u64_byte(entries.len() as u64, 0)
    } else if i == 2 {
        u64_byte(entries.len() as u64, 1)
    } else if 8 <= i < 8 + 16 * m {
        let j = (i - 8) / 16;
        let o = (i - 8) % 16;
        if o < 8 {
            u64_byte(entries[j].key, o)
        } else {
            u64_byte(entries[j].value, o - 8)
        }
    } else {
        0
    }
}

/// Byte `i` of an internal page whose first `m` cells are filled in.
pub open spec fn internal_page_byte(children: Seq<u32>, max_keys: Seq<u64>, m: int, i: int) -> u8 {
    if i == 0 {
        NODE_INTERNAL
    } else if i == 1 {
        u64_byte(max_keys.len() as u64, 0)
    } else if i == 2 {
        u64_byte(max_keys.len() as u64, 1)
    } else if 4 <= i < 8 {
        u32_byte(children.last(), i - 4)
    } else if 8 <= i < 8 + 12 * m {
        let j = (i - 8) / 12;
        let o = (i - 8) % 12;
        if o < 4 {
            u32_byte(children[j], o)
        } else {
            u64_byte(max_keys[j], o - 4)
        }
    } else {
        0
    }
}

/// The page that holds a node.
#[verifier::opaque]
pub open spec fn encode_node(node: NodeView) -> Seq<u8> {
    match node {
        NodeView::Leaf(entries) => Seq::new(
            PAGE_SIZE as nat,
            |i: int| leaf_page_byte(entries, entries.len() as int, i),
        ),
        NodeView::Internal(children, max_keys) => Seq::new(
            PAGE_SIZE as nat,
            |i: int| internal_page_byte(children, max_keys, max_keys.len() as int, i),
        ),
    }
}

/// The node that a page holds, if its header names a kind and a count within capacity.
pub open spec fn decode_node(page: Seq<u8>) -> Option<NodeView> {
    let count = le_u16_at(page, 1) as int;
    if page[0] == NODE_LEAF {
        if count > LEAF_CAPACITY {
            None
        } else {
            Some(
                NodeView::Leaf(
                    Seq::new(
                        count as nat,
                        |i: int|
                            LeafEntry {
                                key: le_u64_at(page, 8 + 16 * i),
                                value: le_u64_at(page, 16 + 16 * i),
                            },
                    ),
                ),
            )
        }
    } else if page[0] == NODE_INTERNAL {
        if count > INTERNAL_CAPACITY {
            None
        } else {
            Some(
                NodeView::Internal(
                    Seq::new(
                        (count + 1) as nat,
                        |i: int|
                            if i < count {
                                le_u32_at(page, 8 + 12 * i)
                            } else {
                                le_u32_at(page, 4)
                            },
                    ),
                    Seq::new(count as nat, |i: int| le_u64_at(page, 12 + 12 * i)),
                ),
            )
        }
    } else {
        None
    }
}

/// Eight bytes that spell out `v` read back as `v`.
proof fn lemma_read_u64_bytes(page: Seq<u8>, off: int, v: u64)
    requires
        0 <= off,
        off + 8 <= page.len(),
        forall|k: int| 0 <= k < 8 ==> page[off + k] == u64_byte(v, k),
    ensures
        le_u64_at(page, off) == v,
{
    lemma_u64_bytes(v);
    assert(page[off] == u64_byte(v, 0) && page[off + 1] == u64_byte(v, 1) && page[off + 2] == u64_byte(v, 2)
        && page[off + 3] == u64_byte(v, 3) && page[off + 4] == u64_byte(v, 4) && page[off + 5]
        == u64_byte(v, 5) && page[off + 6] == u64_byte(v, 6) && page[off + 7] == u64_byte(v, 7));
}

/// Four bytes that spell out `v` read back as `v`.
proof fn lemma_read_u32_bytes(page: Seq<u8>, off: int, v: u32)
    requires
        0 <= off,
        off + 4 <= page.len(),
        forall|k: int| 0 <= k < 4 ==> page[off + k] == u32_byte(v, k),
    ensures
        le_u32_at(page, off) == v,
{
    lemma_u64_bytes(v as u64);
    assert(u64_byte(v as u64, 4) == 0 && u64_byte(v as u64, 5) == 0 && u64_byte(v as u64, 6) == 0
        && u64_byte(v as u64, 7) == 0) by {
        assert(v as u64 / 0x1_0000_0000 == 0);
    }
    assert(page[off] == u32_byte(v, 0) && page[off + 1] == u32_byte(v, 1) && page[off + 2] == u32_byte(v, 2)
        && page[off + 3] == u32_byte(v, 3));
}

/// A count below 65536 reads back from its two header bytes.
proof fn lemma_read_count(page: Seq<u8>, n: int)
    requires
        0 <= n < 0x1_0000,
        page.len() > 2,
        page[1] == u64_byte(n as u64, 0),
        page[2] == u64_byte(n as u64, 1),
    ensures
        le_u16_at(page, 1) == n,
{
    lemma_u64_bytes(n as u64);
    assert((n as u64) / 0x1_0000 == 0);
}

proof fn lemma_leaf_round_trip(entries: Seq<LeafEntry>)
    requires
        entries.len() <= 255,
    ensures
        decode_node(encode_node(NodeView::Leaf(entries))) == Some(NodeView::Leaf(entries)),
{
    lemma_capacities();
    reveal(encode_node);
    let page = encode_node(NodeView::Leaf(entries));
    let n = entries.len() as int;
    lemma_read_count(page, n);
    assert forall|i: int| 0 <= i < n implies #[trigger] le_u64_at(page, 8 + 16 * i)
        == entries[i].key && le_u64_at(page, 16 + 16 * i) == entries[i].value by {
        assert forall|k: int| 0 <= k < 8 implies page[8 + 16 * i + k] == u64_byte(entries[i].key, k) by {
            assert((8 + 16 * i + k - 8) / 16 == i && (8 + 16 * i + k - 8) % 16 == k);
        }
        assert forall|k: int| 0 <= k < 8 implies page[16 + 16 * i + k] == u64_byte(entries[i].value, k) by {
            assert((16 + 16 * i + k - 8) / 16 == i && (16 + 16 * i + k - 8) % 16 == k + 8);
        }
        lemma_read_u64_bytes(page, 8 + 16 * i, entries[i].key);
        lemma_read_u64_bytes(page, 16 + 16 * i, entries[i].value);
    }
    match decode_node(page) {
        Some(NodeView::Leaf(decoded)) => {
            assert(decoded =~= entries);
        },
        _ => {},
    }
}

/// Cell `i` of an encoded internal page reads back as child `i` and key `i`.
proof fn lemma_internal_cell(children: Seq<u32>, max_keys: Seq<u64>, i: int)
    requires
        children.len() >= 1,
        max_keys.len() + 1 == children.len(),
        max_keys.len() <= 340,
        0 <= i < max_keys.len(),
    ensures
        le_u32_at(encode_node(NodeView::Internal(children, max_keys)), 8 + 12 * i) == children[i],
        le_u64_at(encode_node(NodeView::Internal(children, max_keys)), 12 + 12 * i) == max_keys[i],
{
    reveal(encode_node);
    let page = encode_node(NodeView::Internal(children, max_keys));
    let m = max_keys.len() as int;
    assert forall|k: int| 0 <= k < 4 implies page[8 + 12 * i + k] == u32_byte(children[i], k) by {
        assert((8 + 12 * i + k - 8) / 12 == i && (8 + 12 * i + k - 8) % 12 == k);
        assert(page[8 + 12 * i + k] == internal_page_byte(children, max_keys, m, 8 + 12 * i + k));
    }
    assert forall|k: int| 0 <= k < 8 implies page[12 + 12 * i + k] == u64_byte(max_keys[i], k) by {
        assert((12 + 12 * i + k - 8) / 12 == i && (12 + 12 * i + k - 8) % 12 == k + 4);
        assert(page[12 + 12 * i + k] == internal_page_byte(children, max_keys, m, 12 + 12 * i + k));
    }
    lemma_read_u32_bytes(page, 8 + 12 * i, children[i]);
    lemma_read_u64_bytes(page, 12 + 12 * i, max_keys[i]);
}

/// The header of an encoded internal page reads back as the key count and last child.
proof fn lemma_internal_header(children: Seq<u32>, max_keys: Seq<u64>)
    requires
        children.len() >= 1,
        max_keys.len() + 1 == children.len(),
        max_keys.len() <= 340,
    ensures
        encode_node(NodeView::Internal(children, max_keys))[0] == NODE_INTERNAL,
        le_u16_at(encode_node(NodeView::Internal(children, max_keys)), 1) == max_keys.len(),
        le_u32_at(encode_node(NodeView::Internal(children, max_keys)), 4) == children.last(),
{
    reveal(encode_node);
    let page = encode_node(NodeView::Internal(children, max_keys));
    let m = max_keys.len() as int;
    lemma_read_count(page, m);
    assert forall|k: int| 0 <= k < 4 implies page[4 + k] == u32_byte(children.last(), k) by {
        assert(page[4 + k] == internal_page_byte(children, max_keys, m, 4 + k));
    }
    lemma_read_u32_bytes(page, 4, children.last());
}

#[verifier::spinoff_prover]
proof fn lemma_internal_round_trip(children: Seq<u32>, max_keys: Seq<u64>)
    requires
        children.len() >= 1,
        max_keys.len() + 1 == children.len(),
        max_keys.len() <= 340,
    ensures
        decode_node(encode_node(NodeView::Internal(children, max_keys))) == Some(
            NodeView::Internal(children, max_keys),
        ),
{
    lemma_capacities();
    let page = encode_node(NodeView::Internal(children, max_keys));
    let m = max_keys.len() as int;
    lemma_internal_header(children, max_keys);
    assert forall|i: int| 0 <= i < m implies #[trigger] le_u32_at(page, 8 + 12 * i) == children[i]
        && le_u64_at(page, 12 + 12 * i) == max_keys[i] by {
        lemma_internal_cell(children, max_keys, i);
    }
    match decode_node(page) {
        Some(NodeView::Internal(dc, dk)) => {
            assert(dc.len() == children.len());
            assert forall|i: int| 0 <= i < dc.len() implies dc[i] == children[i] by {
                if i < m {
                    lemma_internal_cell(children, max_keys, i);
                }
            }
            assert(dc =~= children);
            assert(dk.len() == max_keys.len());
            assert forall|i: int| 0 <= i < dk.len() implies dk[i] == max_keys[i] by {
                lemma_internal_cell(children, max_keys, i);
            }
            assert(dk =~= max_keys);
        },
        _ => {},
    }
}

/// Reading a node back from the page it was written to gives the same node.
pub proof fn lemma_node_round_trip(node: NodeView)
    requires
        writable_node(node),
    ensures
        decode_node(encode_node(node)) == Some(node),
{
    lemma_capacities();
    match node {
        NodeView::Leaf(entries) => lemma_leaf_round_trip(entries),
        NodeView::Internal(children, max_keys) => lemma_internal_round_trip(children, max_keys),
    }
}

/// Reads and decodes the node stored in a page.
///
/// A page whose kind byte is neither leaf nor internal, or whose count exceeds the
/// capacity, gives `CorruptDatabase`.
pub fn read_node(pager: &Pager, page_id: u32) -> (result: Result<Node, DatabaseError>)
    requires
        pager.wf(),
    ensures
        match decode_node(disk_page(pager@, page_id as int)) {
            None => result matches Err(e) && e is CorruptDatabase,
            Some(node) => result matches Ok(n) && n@ == node,
        },
{
    proof {
        lemma_capacities();
    }
    let page = pager.read_page(page_id);
    let kind = page[0];
    let count = page[1] as usize + page[2] as usize * 0x100;
    assert(count == le_u16_at(page@, 1));
    if kind == NODE_LEAF {
        if count > LEAF_CAPACITY {
            return Err(DatabaseError::corrupt("leaf node capacity exceeded on disk"));
        }
        let mut entries: Vec<LeafEntry> = Vec::with_capacity(count);
        let mut i: usize = 0;
        while i < count
            invariant
                count <= 255,
                0 <= i <= count,
                entries@.len() == i,
                forall|j: int|
                    0 <= j < i ==> #[trigger] entries@[j] == (LeafEntry {
                        key: le_u64_at(page@, 8 + 16 * j),
                        value: le_u64_at(page@, 16 + 16 * j),
                    }),
            decreases count - i,
        {
            let start = NODE_HEADER_SIZE + i * LEAF_CELL_SIZE;
            let key = read_u64_le(&page, start);
            let value = read_u64_le(&page, start + 8);
            entries.push(LeafEntry { key, value });
            i = i + 1;
        }
        let node = Node::Leaf(LeafNode { entries });
        proof {
            match decode_node(page@) {
                Some(NodeView::Leaf(decoded)) => {
                    assert(decoded =~= entries@);
                },
                _ => {},
            }
        }
        Ok(node)
    } else if kind == NODE_INTERNAL {
        if count > INTERNAL_CAPACITY {
            return Err(DatabaseError::corrupt("internal node capacity exceeded on disk"));
        }
        let right_child = read_u32_le(&page, 4);
        let mut children: Vec<u32> = Vec::with_capacity(count + 1);
        let mut max_keys: Vec<u64> = Vec::with_capacity(count);
        let mut i: usize = 0;
        while i < count
            invariant
                count <= 340,
                0 <= i <= count,
                children@.len() == i,
                max_keys@.len() == i,
                forall|j: int| 0 <= j < i ==> #[trigger] children@[j] == le_u32_at(page@, 8 + 12 * j),
                forall|j: int| 0 <= j < i ==> #[trigger] max_keys@[j] == le_u64_at(page@, 12 + 12 * j),
            decreases count - i,
        {
            let start = NODE_HEADER_SIZE + i * INTERNAL_CELL_SIZE;
            let child = read_u32_le(&page, start);
            let max_key = read_u64_le(&page, start + 4);
            children.push(child);
            max_keys.push(max_key);
            i = i + 1;
        }
        children.push(right_child);
        let node = Node::Internal(InternalNode { children, max_keys });
        proof {
            match decode_node(page@) {
                Some(NodeView::Internal(dc, dk)) => {
                    assert(dc =~= children@);
                    assert(dk =~= max_keys@);
                },
                _ => {},
            }
        }
        Ok(node)
    } else {
        Err(DatabaseError::corrupt("unknown node type"))
    }
}

/// Encodes a node into a page and writes it.
///
/// A node that does not fit a page (see `writable_node`) gives `InvalidInput` and writes
/// nothing.
pub fn write_node(pager: &mut Pager, page_id: u32, node: &Node) -> (result: Result<(), DatabaseError>)
    requires
        old(pager).wf(),
        page_id < u32::MAX,
        (page_id + 1) * 4096 <= usize::MAX,
    ensures
        final(pager).wf(),
        result is Ok <==> writable_node(node@),
        result matches Err(e) ==> e is InvalidInput && final(pager)@ == old(pager)@,
        result is Ok ==> final(pager)@ == disk_written(old(pager)@, page_id as int, encode_node(node@)),
{
    proof {
        lemma_capacities();
        reveal(encode_node);
    }
    let mut page = [0u8; PAGE_SIZE];
    match node {
        Node::Leaf(leaf) => {
            let n = leaf.entries.len();
            if n > LEAF_CAPACITY {
                return Err(DatabaseError::invalid_input("leaf node capacity exceeded"));
            }
            let ghost entries = leaf.entries@;
            page[0] = NODE_LEAF;
            page[1] = (n % 0x100) as u8;
            page[2] = (n / 0x100) as u8;
            assert(page@ =~= Seq::new(PAGE_SIZE as nat, |i: int| leaf_page_byte(entries, 0, i)));
            let mut i: usize = 0;
            while i < n
                invariant
                    n == entries.len(),
                    n <= 255,
                    entries == leaf.entries@,
                    0 <= i <= n,
                    page@ == Seq::new(PAGE_SIZE as nat, |k: int| leaf_page_byte(entries, i as int, k)),
                decreases n - i,
            {
                let start = NODE_HEADER_SIZE + i * LEAF_CELL_SIZE;
                let entry = leaf.entries[i];
                let ghost before = page@;
                write_u64_le(&mut page, start, entry.key);
                write_u64_le(&mut page, start + 8, entry.value);
                proof {
                    assert forall|k: int| 0 <= k < PAGE_SIZE implies page@[k] == leaf_page_byte(entries, i + 1, k) by {
                        if start <= k < start + 16 {
                            assert((k - 8) / 16 == i);
                            if k < start + 8 {
                                assert(page@[start + (k - start)] == u64_byte(entry.key, k - start));
                            } else {
                                assert(page@[start + 8 + (k - start - 8)] == u64_byte(entry.value, k - start - 8));
                            }
                        } else {
                            assert(page@[k] == before[k]);
                        }
                    }
                    assert(page@ =~= Seq::new(PAGE_SIZE as nat, |k: int| leaf_page_byte(entries, i + 1, k)));
                }
                i = i + 1;
            }
        },
        Node::Internal(internal) => {
            let num_children = internal.children.len();
            if num_children == 0 {
                return Err(DatabaseError::invalid_input("internal node must have at least one child"));
            }
            let m = internal.max_keys.len();
            if m != num_children - 1 {
                return Err(DatabaseError::invalid_input("internal node key/child count mismatch"));
            }
            if m > INTERNAL_CAPACITY {
                return Err(DatabaseError::invalid_input("internal node capacity exceeded"));
            }
            let ghost children = internal.children@;
            let ghost max_keys = internal.max_keys@;
            page[0] = NODE_INTERNAL;
            page[1] = (m % 0x100) as u8;
            page[2] = (m / 0x100) as u8;
            let right_child = internal.children[num_children - 1];
            let ghost before_right = page@;
            write_u64_le_low4(&mut page, 4, right_child);
            proof {
                assert forall|k: int| 0 <= k < PAGE_SIZE implies page@[k] == internal_page_byte(children, max_keys, 0, k) by {
                    if 4 <= k < 8 {
                        assert(page@[4 + (k - 4)] == u32_byte(right_child, k - 4));
                    } else {
                        assert(page@[k] == before_right[k]);
                    }
                }
                assert(page@ =~= Seq::new(PAGE_SIZE as nat, |k: int| internal_page_byte(children, max_keys, 0, k)));
            }
            let mut i: usize = 0;
            while i < m
                invariant
                    m == max_keys.len(),
                    m + 1 == children.len(),
                    m <= 340,
                    children == internal.children@,
                    max_keys == internal.max_keys@,
                    0 <= i <= m,
                    page@ == Seq::new(PAGE_SIZE as nat, |k: int| internal_page_byte(children, max_keys, i as int, k)),
                decreases m - i,
            {
                let start = NODE_HEADER_SIZE + i * INTERNAL_CELL_SIZE;
                let child = internal.children[i];
                let max_key = internal.max_keys[i];
                let ghost before = page@;
                write_u64_le_low4(&mut page, start, child);
                write_u64_le(&mut page, start + 4, max_key);
                proof {
                    assert forall|k: int| 0 <= k < PAGE_SIZE implies page@[k] == internal_page_byte(children, max_keys, i + 1, k) by {
                        if start <= k < start + 12 {
                            assert((k - 8) / 12 == i);
                            if k < start + 4 {
                                assert(page@[start + (k - start)] == u32_byte(child, k - start));
                            } else {
                                assert(page@[start + 4 + (k - start - 4)] == u64_byte(max_key, k - start - 4));
                            }
                        } else {
                            assert(page@[k] == before[k]);
                        }
                    }
                    assert(page@ =~= Seq::new(PAGE_SIZE as nat, |k: int| internal_page_byte(children, max_keys, i + 1, k)));
                }
                i = i + 1;
            }
        },
    }
    pager.write_page(page_id, &page);
    Ok(())
}

/// Writes the four little-endian bytes of `v` at `off`.
fn write_u64_le_low4(s: &mut [u8], off: usize, v: u32)
    requires
        off + 4 <= old(s)@.len(),
    ensures
        final(s)@.len() == old(s)@.len(),
        forall|i: int| 0 <= i < final(s)@.len() && !(off <= i < off + 4) ==> final(s)@[i] == old(s)@[i],
        forall|k: int| 0 <= k < 4 ==> #[trigger] final(s)@[off + k] == u32_byte(v, k),
{
    let w = v as u64;
    s[off] = (w % 0x100) as u8;
    s[off + 1] = ((w / 0x100) % 0x100) as u8;
    s[off + 2] = ((w / 0x1_0000) % 0x100) as u8;
    s[off + 3] = ((w / 0x100_0000) % 0x100) as u8;
}

} // verus!
