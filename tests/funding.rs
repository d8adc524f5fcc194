use std::collections::HashMap;

use funding_graph::funding::{
    BlockRecord, BuildError, FundingGraphBuilder, OutPointRef, SourceError, TxId, TxRecord,
};
use funding_graph::graph::DirectedGraph;

/// A transaction id whose first bytes are zero, so that many of them share a bucket.
fn id(n: u8) -> TxId {
    let mut b = [0u8; 32];
    b[31] = n;
    b[16] = 0xab;
    TxId(b)
}

fn null_input() -> OutPointRef {
    OutPointRef { txid: TxId([0u8; 32]), vout: u32::MAX }
}

fn spend(txid: TxId, vout: u32) -> OutPointRef {
    OutPointRef { txid, vout }
}

fn tx(txid: TxId, inputs: Vec<OutPointRef>) -> TxRecord {
    TxRecord { txid, inputs }
}

fn block(transactions: Vec<TxRecord>) -> BlockRecord {
    BlockRecord { transactions }
}

/// A block source held in memory, which records the heights it was asked for.
struct MockSource {
    blocks: HashMap<u64, Result<BlockRecord, SourceError>>,
    asked: Vec<u64>,
}

impl MockSource {
    fn new() -> MockSource {
        MockSource { blocks: HashMap::new(), asked: Vec::new() }
    }

    fn with(mut self, height: u64, b: BlockRecord) -> MockSource {
        self.blocks.insert(height, Ok(b));
        self
    }

    fn failing(mut self, height: u64, e: SourceError) -> MockSource {
        self.blocks.insert(height, Err(e));
        self
    }

    fn fetch(&mut self, height: u64) -> Result<BlockRecord, SourceError> {
        self.asked.push(height);
        self.blocks.get(&height).cloned().unwrap_or(Err(SourceError::NotFound))
    }
}

fn build(start: u64, end: u64, source: &mut MockSource) -> Result<DirectedGraph<TxId>, BuildError> {
    let mut builder = FundingGraphBuilder::new(start, end);
    while let Some(height) = builder.next_height() {
        match source.fetch(height) {
            Ok(b) => builder.add_block(b),
            Err(cause) => return Err(builder.fail(cause)),
        }
    }
    Ok(builder.finish())
}

#[test]
fn empty_range_gives_empty_graph_without_queries() {
    let mut source = MockSource::new().with(7, block(vec![tx(id(1), vec![null_input()])]));
    let g = build(7, 6, &mut source).unwrap();
    assert_eq!(g.vertex_count(), 0);
    assert_eq!(g.edge_count(), 0);
    assert!(source.asked.is_empty());
}

#[test]
fn single_block_single_coinbase_transaction() {
    let t = id(1);
    let mut source = MockSource::new().with(3, block(vec![tx(t, vec![null_input()])]));
    let g = build(3, 3, &mut source).unwrap();
    assert_eq!(g.vertex_count(), 1);
    assert!(g.contains_vertex(&t));
    assert_eq!(g.edge_count(), 0);
    assert_eq!(source.asked, vec![3]);
}

#[test]
fn funding_chain_across_two_blocks() {
    let a = id(1);
    let b = id(2);
    let mut source = MockSource::new()
        .with(10, block(vec![tx(a, vec![null_input()])]))
        .with(11, block(vec![tx(b, vec![spend(a, 0)])]));
    let g = build(10, 11, &mut source).unwrap();
    assert_eq!(g.vertex_count(), 2);
    assert!(g.contains_vertex(&a));
    assert!(g.contains_vertex(&b));
    assert_eq!(g.edge_count(), 1);
    assert!(g.has_edge(&a, &b));
    assert!(!g.has_edge(&b, &a));
    assert_eq!(g.successors(&a), vec![b]);
    assert!(g.successors(&b).is_empty());
    assert_eq!(source.asked, vec![10, 11]);
}

#[test]
fn dangling_root_outside_the_range() {
    let b = id(2);
    let x = id(9);
    let mut source = MockSource::new().with(20, block(vec![tx(b, vec![spend(x, 1)])]));
    let g = build(20, 20, &mut source).unwrap();
    assert_eq!(g.vertex_count(), 2);
    assert!(g.contains_vertex(&b));
    assert!(g.contains_vertex(&x));
    assert!(g.has_edge(&x, &b));
    assert_eq!(g.edge_count(), 1);
    assert_eq!(g.successors(&x), vec![b]);
}

#[test]
fn failure_at_second_height_aborts_the_build() {
    let a = id(1);
    let mut source = MockSource::new()
        .with(5, block(vec![tx(a, vec![null_input()])]))
        .failing(6, SourceError::Unavailable("connection refused".to_string()))
        .with(7, block(vec![tx(id(2), vec![spend(a, 0)])]));
    let r = build(5, 7, &mut source);
    assert_eq!(
        r.err(),
        Some(BuildError::SourceUnavailable {
            height: 6,
            cause: SourceError::Unavailable("connection refused".to_string()),
        })
    );
    assert_eq!(source.asked, vec![5, 6]);
}

#[test]
fn missing_height_gives_not_found() {
    let mut source = MockSource::new().with(1, block(vec![tx(id(1), vec![null_input()])]));
    let r = build(1, 2, &mut source);
    assert_eq!(
        r.err(),
        Some(BuildError::SourceUnavailable { height: 2, cause: SourceError::NotFound })
    );
}

#[test]
fn zero_txid_with_ordinary_index_is_a_real_input() {
    let t = id(1);
    let zero = TxId([0u8; 32]);
    let mut source = MockSource::new().with(1, block(vec![tx(t, vec![spend(zero, 0)])]));
    let g = build(1, 1, &mut source).unwrap();
    assert!(g.has_edge(&zero, &t));
    assert_eq!(g.vertex_count(), 2);
}

#[test]
fn max_index_with_nonzero_txid_is_a_real_input() {
    let t = id(1);
    let p = id(4);
    let mut source = MockSource::new().with(1, block(vec![tx(t, vec![spend(p, u32::MAX)])]));
    let g = build(1, 1, &mut source).unwrap();
    assert!(g.has_edge(&p, &t));
    assert_eq!(g.edge_count(), 1);
}

#[test]
fn two_inputs_from_one_transaction_give_one_edge() {
    let a = id(1);
    let b = id(2);
    let mut source = MockSource::new().with(
        4,
        block(vec![tx(a, vec![null_input()]), tx(b, vec![spend(a, 0), spend(a, 1)])]),
    );
    let g = build(4, 4, &mut source).unwrap();
    assert_eq!(g.edge_count(), 1);
    assert_eq!(g.vertex_count(), 2);
    assert_eq!(g.successors(&a), vec![b]);
}

#[test]
fn spends_within_one_block_and_fan_out() {
    let a = id(1);
    let b = id(2);
    let c = id(3);
    let d = id(4);
    let mut source = MockSource::new()
        .with(0, block(vec![tx(a, vec![null_input()]), tx(b, vec![spend(a, 0)])]))
        .with(1, block(vec![tx(c, vec![spend(a, 1), spend(b, 0)]), tx(d, vec![spend(b, 1)])]));
    let g = build(0, 1, &mut source).unwrap();
    assert_eq!(g.vertex_count(), 4);
    assert_eq!(g.edge_count(), 4);
    assert!(g.has_edge(&a, &b));
    assert!(g.has_edge(&a, &c));
    assert!(g.has_edge(&b, &c));
    assert!(g.has_edge(&b, &d));
    assert!(!g.has_edge(&c, &d));
    let mut s = g.successors(&b);
    s.sort_by_key(|t| t.0);
    assert_eq!(s, vec![c, d]);
}

#[test]
fn builder_asks_for_heights_in_order() {
    let mut builder = FundingGraphBuilder::new(8, 9);
    assert_eq!(builder.next_height(), Some(8));
    builder.add_block(block(vec![]));
    assert_eq!(builder.next_height(), Some(9));
    builder.add_block(block(vec![]));
    assert_eq!(builder.next_height(), None);
    let g = builder.finish();
    assert_eq!(g.vertex_count(), 0);
}

#[test]
fn range_ending_at_the_largest_height() {
    let mut builder = FundingGraphBuilder::new(u64::MAX, u64::MAX);
    assert_eq!(builder.next_height(), Some(u64::MAX));
    builder.add_block(block(vec![tx(id(1), vec![null_input()])]));
    assert_eq!(builder.next_height(), None);
    assert_eq!(builder.finish().vertex_count(), 1);
}

#[test]
fn ids_sharing_leading_bytes_stay_distinct() {
    let mut g: DirectedGraph<TxId> = DirectedGraph::new();
    for n in 0..50u8 {
        g.insert_vertex(id(n));
    }
    assert_eq!(g.vertex_count(), 50);
    g.insert_vertex(id(3));
    assert_eq!(g.vertex_count(), 50);
    let mut other = [0u8; 32];
    other[0] = 1;
    assert!(!g.contains_vertex(&TxId(other)));
}
