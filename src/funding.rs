use crate::graph::{DirectedGraph, GraphView, VertexId};
use vstd::prelude::*;

verus! {

/// A transaction identifier: the 32 bytes of a transaction hash.
#[derive(Clone, Copy, Debug, PartialEq, Eq, Hash)]
pub struct TxId(pub [u8; 32]);

impl TxId {
    /// The identifier whose bytes are all zero.
    pub open spec fn is_zero(self) -> bool {
        forall|k: int| 0 <= k < 32 ==> self.0[k] == 0
    }
}

impl VertexId for TxId {
    /// The first four bytes, read as a big-endian number.
    open spec fn spec_bucket(self) -> u64 {
        ((self.0[0] as u64) * 16777216 + (self.0[1] as u64) * 65536 + (self.0[2] as u64) * 256 + (
        self.0[3] as u64)) as u64
    }

    fn bucket(&self) -> (r: u64) {
        (self.0[0] as u64) * 16777216 + (self.0[1] as u64) * 65536 + (self.0[2] as u64) * 256 + (
        self.0[3] as u64)
    }

    fn same(&self, other: &TxId) -> (r: bool) {
        let mut k: usize = 0;
        while k < 32
            invariant
                k <= 32,
                forall|q: int| 0 <= q < k ==> self.0[q] == other.0[q],
            decreases 32 - k,
        {
            if self.0[k] != other.0[k] {
                return false;
            }
            k = k + 1;
        }
        proof {
            assert(self.0 =~= other.0);
        }
        true
    }
}

/// A reference from a transaction input to an output of an earlier
/// transaction: that transaction's identifier and the output's index.
#[derive(Clone, Copy, Debug, PartialEq, Eq)]
pub struct OutPointRef {
    pub txid: TxId,
    pub vout: u32,
}

impl OutPointRef {
    /// The null reference of a coinbase input: zero identifier, index `u32::MAX`.
    pub open spec fn is_null(self) -> bool {
        self.txid.is_zero() && self.vout == u32::MAX
    }
}

/// A transaction as the graph needs it: its identifier and, in order, the
/// outputs that its inputs spend.
#[derive(Clone, Debug, PartialEq, Eq)]
pub struct TxRecord {
    pub txid: TxId,
    pub inputs: Vec<OutPointRef>,
}

/// The transactions of one block, in the block's order.
#[derive(Clone, Debug, PartialEq, Eq)]
pub struct BlockRecord {
    pub transactions: Vec<TxRecord>,
}

/// Relies on bitcoin's `OutPoint::is_null`, which compares the outpoint with
/// `OutPoint::null()`: the all-zero txid and output index `u32::MAX`.
#[verifier::external_body]
fn outpoint_is_null(prev: &OutPointRef) -> (r: bool)
    ensures
        r == prev.is_null(),
{
    let txid = <bitcoin::Txid as bitcoin::hashes::Hash>::from_byte_array(prev.txid.0);
    bitcoin::OutPoint { txid, vout: prev.vout }.is_null()
}

/// `prev` spends an output of `a` on behalf of transaction `b`.
pub open spec fn input_funds(b_id: TxId, prev: OutPointRef, a: TxId, b: TxId) -> bool {
    !prev.is_null() && prev.txid == a && b_id == b
}

/// What a list of inputs of transaction `txid` contributes: the vertex
/// `txid`, and an edge from the transaction of each non-null input to `txid`.
pub open spec fn inputs_view(txid: TxId, inputs: Seq<OutPointRef>) -> GraphView<TxId> {
    GraphView {
        vertices: Set::new(
            |v: TxId|
                v == txid || exists|k: int|
                    0 <= k < inputs.len() && !inputs[k].is_null() && #[trigger] inputs[k].txid
                        == v,
        ),
        edges: Set::new(
            |e: (TxId, TxId)|
                exists|k: int| 0 <= k < inputs.len() && #[trigger] input_funds(txid, inputs[k], e.0, e.1),
        ),
    }
}

/// What one transaction contributes to the funding graph.
pub open spec fn tx_view(tx: TxRecord) -> GraphView<TxId> {
    inputs_view(tx.txid, tx.inputs@)
}

/// What a list of transactions contributes: the union of their contributions.
pub open spec fn txs_view(txs: Seq<TxRecord>) -> GraphView<TxId> {
    GraphView {
        vertices: Set::new(
            |v: TxId| exists|j: int| 0 <= j < txs.len() && #[trigger] tx_view(txs[j]).vertices.contains(v),
        ),
        edges: Set::new(
            |e: (TxId, TxId)|
                exists|j: int| 0 <= j < txs.len() && #[trigger] tx_view(txs[j]).edges.contains(e),
        ),
    }
}

pub open spec fn block_view(block: BlockRecord) -> GraphView<TxId> {
    txs_view(block.transactions@)
}

/// The funding graph of a sequence of blocks: a vertex for every transaction
/// and for every transaction whose output is spent, and an edge `a -> b`
/// exactly when some input of `b` spends an output of `a`. Several inputs of
/// `b` that spend outputs of `a` give that one edge.
pub open spec fn funding_view(blocks: Seq<BlockRecord>) -> GraphView<TxId> {
    GraphView {
        vertices: Set::new(
            |v: TxId|
                exists|i: int| 0 <= i < blocks.len() && #[trigger] block_view(blocks[i]).vertices.contains(v),
        ),
        edges: Set::new(
            |e: (TxId, TxId)|
                exists|i: int| 0 <= i < blocks.len() && #[trigger] block_view(blocks[i]).edges.contains(e),
        ),
    }
}

/// Adds to `graph` the vertex of `tx` and an edge from the transaction of
/// each of its non-null inputs to `tx`.
pub fn add_transaction(graph: &mut DirectedGraph<TxId>, tx: &TxRecord)
    requires
        old(graph).wf(),
    ensures
        final(graph).wf(),
        final(graph)@ == old(graph)@.union(tx_view(*tx)),
{
    let ghost start = graph@;
    let txid = tx.txid;
    graph.insert_vertex(txid);
    proof {
        let none = inputs_view(txid, tx.inputs@.take(0));
        assert(graph@.vertices =~= start.union(none).vertices);
        assert(graph@.edges =~= start.union(none).edges);
    }
    let mut k: usize = 0;
    while k < tx.inputs.len()
        invariant
            graph.wf(),
            k <= tx.inputs@.len(),
            txid == tx.txid,
            graph@ == start.union(inputs_view(txid, tx.inputs@.take(k as int))),
        decreases tx.inputs@.len() - k,
    {
        let ghost before = graph@;
        let prev = tx.inputs[k];
        let ghost done = tx.inputs@.take(k as int);
        let ghost next = tx.inputs@.take(k as int + 1);
        if !outpoint_is_null(&prev) {
            graph.insert_edge(prev.txid, txid);
        }
        proof {
            assert(next =~= done.push(prev));
            let was = inputs_view(txid, done);
            let now = inputs_view(txid, next);
            if prev.is_null() {
                assert(now.vertices =~= was.vertices) by {
                    assert forall|v: TxId| now.vertices.contains(v) implies was.vertices.contains(v) by {
                        if v != txid {
                            let q = choose|q: int|
                                0 <= q < next.len() && !next[q].is_null() && #[trigger] next[q].txid == v;
                            assert(done[q] == next[q]);
                        }
                    }
                    assert forall|v: TxId| was.vertices.contains(v) implies now.vertices.contains(v) by {
                        if v != txid {
                            let q = choose|q: int|
                                0 <= q < done.len() && !done[q].is_null() && #[trigger] done[q].txid == v;
                            assert(done[q] == next[q]);
                        }
                    }
                }
                assert(now.edges =~= was.edges) by {
                    assert forall|e: (TxId, TxId)| now.edges.contains(e) implies was.edges.contains(e) by {
                        let q = choose|q: int| 0 <= q < next.len() && #[trigger] input_funds(txid, next[q], e.0, e.1);
                        assert(done[q] == next[q]);
                    }
                    assert forall|e: (TxId, TxId)| was.edges.contains(e) implies now.edges.contains(e) by {
                        let q = choose|q: int| 0 <= q < done.len() && #[trigger] input_funds(txid, done[q], e.0, e.1);
                        assert(done[q] == next[q]);
                    }
                }
                assert(graph@.vertices =~= start.union(now).vertices);
                assert(graph@.edges =~= start.union(now).edges);
            } else {
                assert(now.vertices =~= was.vertices.insert(prev.txid)) by {
                    assert forall|v: TxId| now.vertices.contains(v) implies was.vertices.insert(prev.txid).contains(v) by {
                        if v != txid && v != prev.txid {
                            let q = choose|q: int|
                                0 <= q < next.len() && !next[q].is_null() && #[trigger] next[q].txid == v;
                            assert(done[q] == next[q]);
                        }
                    }
                    assert forall|v: TxId| was.vertices.insert(prev.txid).contains(v) implies now.vertices.contains(v) by {
                        if v == prev.txid {
                            assert(next[k as int].txid == v);
                        } else if v != txid {
                            let q = choose|q: int|
                                0 <= q < done.len() && !done[q].is_null() && #[trigger] done[q].txid == v;
                            assert(done[q] == next[q]);
                        }
                    }
                }
                assert(now.edges =~= was.edges.insert((prev.txid, txid))) by {
                    assert forall|e: (TxId, TxId)| now.edges.contains(e) implies was.edges.insert((prev.txid, txid)).contains(e) by {
                        let q = choose|q: int| 0 <= q < next.len() && #[trigger] input_funds(txid, next[q], e.0, e.1);
                        if q < k {
                            assert(done[q] == next[q]);
                        }
                    }
                    assert forall|e: (TxId, TxId)| was.edges.insert((prev.txid, txid)).contains(e) implies now.edges.contains(e) by {
                        if e == (prev.txid, txid) {
                            assert(input_funds(txid, next[k as int], e.0, e.1));
                        } else {
                            let q = choose|q: int| 0 <= q < done.len() && #[trigger] input_funds(txid, done[q], e.0, e.1);
                            assert(done[q] == next[q]);
                        }
                    }
                }
                assert(graph@.vertices =~= start.union(now).vertices);
                assert(graph@.edges =~= start.union(now).edges);
            }
        }
        k = k + 1;
    }
    proof {
        assert(tx.inputs@.take(k as int) =~= tx.inputs@);
    }
}

proof fn lemma_txs_view_push(txs: Seq<TxRecord>, tx: TxRecord)
    ensures
        txs_view(txs.push(tx)) == txs_view(txs).union(tx_view(tx)),
{
    let all = txs.push(tx);
    let lhs = txs_view(all);
    let rhs = txs_view(txs).union(tx_view(tx));
    assert forall|v: TxId| lhs.vertices.contains(v) implies rhs.vertices.contains(v) by {
        let j = choose|j: int| 0 <= j < all.len() && #[trigger] tx_view(all[j]).vertices.contains(v);
        if j < txs.len() {
            assert(all[j] == txs[j]);
        }
    }
    assert forall|v: TxId| rhs.vertices.contains(v) implies lhs.vertices.contains(v) by {
        if tx_view(tx).vertices.contains(v) {
            assert(all[txs.len() as int] == tx);
        } else {
            let j = choose|j: int| 0 <= j < txs.len() && #[trigger] tx_view(txs[j]).vertices.contains(v);
            assert(all[j] == txs[j]);
        }
    }
    assert forall|e: (TxId, TxId)| lhs.edges.contains(e) implies rhs.edges.contains(e) by {
        let j = choose|j: int| 0 <= j < all.len() && #[trigger] tx_view(all[j]).edges.contains(e);
        if j < txs.len() {
            assert(all[j] == txs[j]);
        }
    }
    assert forall|e: (TxId, TxId)| rhs.edges.contains(e) implies lhs.edges.contains(e) by {
        if tx_view(tx).edges.contains(e) {
            assert(all[txs.len() as int] == tx);
        } else {
            let j = choose|j: int| 0 <= j < txs.len() && #[trigger] tx_view(txs[j]).edges.contains(e);
            assert(all[j] == txs[j]);
        }
    }
    assert(lhs.vertices =~= rhs.vertices);
    assert(lhs.edges =~= rhs.edges);
}

proof fn lemma_funding_view_push(blocks: Seq<BlockRecord>, block: BlockRecord)
    ensures
        funding_view(blocks.push(block)) == funding_view(blocks).union(block_view(block)),
{
    let all = blocks.push(block);
    let lhs = funding_view(all);
    let rhs = funding_view(blocks).union(block_view(block));
    assert forall|v: TxId| lhs.vertices.contains(v) implies rhs.vertices.contains(v) by {
        let i = choose|i: int| 0 <= i < all.len() && #[trigger] block_view(all[i]).vertices.contains(v);
        if i < blocks.len() {
            assert(all[i] == blocks[i]);
        }
    }
    assert forall|v: TxId| rhs.vertices.contains(v) implies lhs.vertices.contains(v) by {
        if block_view(block).vertices.contains(v) {
            assert(all[blocks.len() as int] == block);
        } else {
            let i = choose|i: int| 0 <= i < blocks.len() && #[trigger] block_view(blocks[i]).vertices.contains(v);
            assert(all[i] == blocks[i]);
        }
    }
    assert forall|e: (TxId, TxId)| lhs.edges.contains(e) implies rhs.edges.contains(e) by {
        let i = choose|i: int| 0 <= i < all.len() && #[trigger] block_view(all[i]).edges.contains(e);
        if i < blocks.len() {
            assert(all[i] == blocks[i]);
        }
    }
    assert forall|e: (TxId, TxId)| rhs.edges.contains(e) implies lhs.edges.contains(e) by {
        if block_view(block).edges.contains(e) {
            assert(all[blocks.len() as int] == block);
        } else {
            let i = choose|i: int| 0 <= i < blocks.len() && #[trigger] block_view(blocks[i]).edges.contains(e);
            assert(all[i] == blocks[i]);
        }
    }
    assert(lhs.vertices =~= rhs.vertices);
    assert(lhs.edges =~= rhs.edges);
}

proof fn lemma_union_assoc(a: GraphView<TxId>, b: GraphView<TxId>, c: GraphView<TxId>)
    ensures
        a.union(b).union(c) == a.union(b.union(c)),
{
    assert(a.union(b).union(c).vertices =~= a.union(b.union(c)).vertices);
    assert(a.union(b).union(c).edges =~= a.union(b.union(c)).edges);
}

/// Adds to `graph` what every transaction of `block` contributes.
pub fn add_block(graph: &mut DirectedGraph<TxId>, block: &BlockRecord)
    requires
        old(graph).wf(),
    ensures
        final(graph).wf(),
        final(graph)@ == old(graph)@.union(block_view(*block)),
{
    let ghost start = graph@;
    let txs = &block.transactions;
    proof {
        let none = txs_view(txs@.take(0));
        assert(none.vertices =~= Set::empty());
        assert(none.edges =~= Set::empty());
        assert(start.union(none).vertices =~= start.vertices);
        assert(start.union(none).edges =~= start.edges);
    }
    let mut j: usize = 0;
    while j < txs.len()
        invariant
            graph.wf(),
            j <= txs@.len(),
            graph@ == start.union(txs_view(txs@.take(j as int))),
        decreases txs@.len() - j,
    {
        add_transaction(graph, &txs[j]);
        proof {
            assert(txs@.take(j as int + 1) =~= txs@.take(j as int).push(txs@[j as int]));
            lemma_txs_view_push(txs@.take(j as int), txs@[j as int]);
            lemma_union_assoc(start, txs_view(txs@.take(j as int)), tx_view(txs@[j as int]));
        }
        j = j + 1;
    }
    proof {
        assert(txs@.take(j as int) =~= txs@);
    }
}

/// The funding graph of no blocks is the empty graph.
pub proof fn lemma_funding_view_empty()
    ensures
        funding_view(Seq::empty()) == GraphView::<TxId>::empty(),
{
    assert(funding_view(Seq::empty()).vertices =~= Set::empty());
    assert(funding_view(Seq::empty()).edges =~= Set::empty());
}

/// Why the block source could not supply a block.
#[derive(Clone, Debug, PartialEq, Eq)]
pub enum SourceError {
    /// The height or the block hash is not known to the source.
    NotFound,
    /// The source could not be reached or could not deliver the data.
    Unavailable(String),
}

/// Why a build over a range of heights failed.
#[derive(Clone, Debug, PartialEq, Eq)]
pub enum BuildError {
    /// The block at `height` could not be had; the whole range is abandoned.
    SourceUnavailable { height: u64, cause: SourceError },
}

/// The construction of the funding graph of the blocks at heights
/// `start..=end`, one block at a time in ascending height order.
///
/// The caller asks `next_height` which block is wanted, fetches it, and hands
/// it to `add_block`; when no height is left, `finish` yields the graph. A
/// failed fetch is handed to `fail`, which gives up the partial graph.
pub struct FundingGraphBuilder {
    graph: DirectedGraph<TxId>,
    start: u64,
    end: u64,
    next: u64,
    pending: bool,
    received: Ghost<Seq<BlockRecord>>,
}

impl FundingGraphBuilder {
    pub closed spec fn start_height(&self) -> u64 {
        self.start
    }

    pub closed spec fn end_height(&self) -> u64 {
        self.end
    }

    /// The blocks handed in so far, in height order.
    pub closed spec fn received(&self) -> Seq<BlockRecord> {
        self.received@
    }

    /// The height whose block is wanted next, if any is left.
    pub open spec fn expected_height(&self) -> Option<u64> {
        if self.start_height() + self.received().len() <= self.end_height() {
            Some((self.start_height() + self.received().len()) as u64)
        } else {
            None
        }
    }

    pub closed spec fn wf(&self) -> bool {
        &&& self.graph.wf()
        &&& self.graph@ == funding_view(self.received@)
        &&& self.pending <==> self.start + self.received@.len() <= self.end
        &&& self.pending ==> self.next == self.start + self.received@.len()
        &&& !self.pending ==> self.received@.len() == if self.start <= self.end {
            self.end - self.start + 1
        } else {
            0
        }
    }

    pub fn new(start_height: u64, end_height: u64) -> (b: Self)
        ensures
            b.wf(),
            b.start_height() == start_height,
            b.end_height() == end_height,
            b.received() == Seq::<BlockRecord>::empty(),
            start_height > end_height ==> b.expected_height() is None,
            start_height <= end_height ==> b.expected_height() == Some(start_height),
    {
        proof {
            lemma_funding_view_empty();
        }
        FundingGraphBuilder {
            graph: DirectedGraph::new(),
            start: start_height,
            end: end_height,
            next: start_height,
            pending: start_height <= end_height,
            received: Ghost(Seq::empty()),
        }
    }

    pub fn next_height(&self) -> (r: Option<u64>)
        requires
            self.wf(),
        ensures
            r == self.expected_height(),
    {
        if self.pending {
            Some(self.next)
        } else {
            None
        }
    }

    /// Takes in the block at the expected height.
    pub fn add_block(&mut self, block: BlockRecord)
        requires
            old(self).wf(),
            old(self).expected_height() is Some,
        ensures
            final(self).wf(),
            final(self).start_height() == old(self).start_height(),
            final(self).end_height() == old(self).end_height(),
            final(self).received() == old(self).received().push(block),
    {
        add_block(&mut self.graph, &block);
        proof {
            lemma_funding_view_push(self.received@, block);
        }
        self.received = Ghost(self.received@.push(block));
        if self.next < self.end {
            self.next = self.next + 1;
        } else {
            self.pending = false;
        }
    }

    /// The graph of the whole range, once every block has been taken in.
    pub fn finish(self) -> (g: DirectedGraph<TxId>)
        requires
            self.wf(),
            self.expected_height() is None,
        ensures
            g.wf(),
            g@ == funding_view(self.received()),
            self.received().len() == if self.start_height() <= self.end_height() {
                self.end_height() - self.start_height() + 1
            } else {
                0
            },
    {
        self.graph
    }

    /// Abandons the build because the block at the expected height could not
    /// be had.
    pub fn fail(self, cause: SourceError) -> (e: BuildError)
        requires
            self.wf(),
            self.expected_height() is Some,
        ensures
            e == (BuildError::SourceUnavailable {
                height: self.expected_height()->Some_0,
                cause,
            }),
    {
        BuildError::SourceUnavailable { height: self.next, cause }
    }
}

/// A build over a range whose start lies above its end wants no block at
/// all, and what it yields is the empty graph.
pub proof fn lemma_empty_range(b: &FundingGraphBuilder)
    requires
        b.wf(),
        b.start_height() > b.end_height(),
    ensures
        b.expected_height() is None,
        b.received().len() == 0,
        funding_view(b.received()) == GraphView::<TxId>::empty(),
{
    assert(b.received() =~= Seq::<BlockRecord>::empty());
    lemma_funding_view_empty();
}

} // verus!
