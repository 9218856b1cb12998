//! Reusable buffers: the tree that a sampler writes, and a reservoir of
//! random bytes.
use rand::rngs::SmallRng;
use vstd::arithmetic::div_mod::{lemma_fundamental_div_mod, lemma_fundamental_div_mod_converse};
use vstd::prelude::*;

use crate::connectivity::{in_range, is_spanning_tree, lemma_in_range_drop_last};
use crate::graph::Graph;
use crate::random::{below, fill_bytes};

verus! {

/// The adjacency lists `rows` with the edge `e` added: each end is appended
/// to the list of the other.
pub open spec fn link(rows: Seq<Seq<int>>, e: (int, int)) -> Seq<Seq<int>> {
    let mid = rows.update(e.0, rows[e.0].push(e.1));
    mid.update(e.1, mid[e.1].push(e.0))
}

/// The adjacency lists of the edges `es` on the nodes `0..n`, each list in
/// the order of `es`.
pub open spec fn adjacency(n: nat, es: Seq<(int, int)>) -> Seq<Seq<int>>
    decreases es.len(),
{
    if es.len() == 0 {
        Seq::new(n, |u: int| Seq::<int>::empty())
    } else {
        link(adjacency(n, es.drop_last()), es.last())
    }
}

/// A spanning tree as adjacency lists: `st[u]` holds the tree neighbors of
/// node `u`.
pub struct SpanningTreeBuffer {
    pub st: Vec<Vec<usize>>,
}

impl View for SpanningTreeBuffer {
    type V = Seq<Seq<int>>;

    /// The adjacency lists as sequences of integers.
    open spec fn view(&self) -> Seq<Seq<int>> {
        Seq::new(
            self.st@.len(),
            |u: int| Seq::new(self.st@[u]@.len(), |j: int| self.st@[u]@[j] as int),
        )
    }
}

impl SpanningTreeBuffer {
    /// Whether the buffer holds a spanning tree of `graph`.
    pub open spec fn is_spanning_tree_of(&self, graph: &Graph) -> bool {
        exists|tree: Seq<(int, int)>|
            is_spanning_tree(graph.node_count(), graph.edge_seq(), tree) && self@ == adjacency(
                graph.node_count(),
                tree,
            )
    }

    /// Creates a buffer for trees on `n` nodes, with no edge in it.
    pub fn new(n: usize) -> (buf: SpanningTreeBuffer)
        ensures
            buf@.len() == n,
            buf@ == adjacency(n as nat, Seq::empty()),
    {
        let mut st: Vec<Vec<usize>> = Vec::with_capacity(n);
        let mut i: usize = 0;
        while i < n
            invariant
                i <= n,
                st@.len() == i,
                forall|u: int| 0 <= u < i ==> (#[trigger] st@[u])@.len() == 0,
            decreases n - i,
        {
            st.push(Vec::new());
            i += 1;
        }
        let buf = SpanningTreeBuffer { st };
        assert(buf@ =~~= adjacency(n as nat, Seq::empty()));
        buf
    }

    /// Removes every edge. The number of nodes stays.
    pub fn clear(&mut self)
        ensures
            final(self)@.len() == old(self)@.len(),
            final(self)@ == adjacency(old(self)@.len(), Seq::empty()),
    {
        let n: usize = self.st.len();
        let mut i: usize = 0;
        while i < n
            invariant
                n == self.st@.len(),
                i <= n,
                forall|u: int| 0 <= u < i ==> (#[trigger] self.st@[u])@.len() == 0,
            decreases n - i,
        {
            self.st[i].clear();
            i += 1;
        }
        assert(self@ =~~= adjacency(n as nat, Seq::empty()));
    }

    /// Adds the edge `(src, dst)`.
    pub fn add_edge(&mut self, src: usize, dst: usize)
        requires
            src < old(self)@.len(),
            dst < old(self)@.len(),
        ensures
            final(self)@.len() == old(self)@.len(),
            final(self)@ == link(old(self)@, (src as int, dst as int)),
    {
        self.st[src].push(dst);
        self.st[dst].push(src);
        assert(self@ =~~= link(old(self)@, (src as int, dst as int)));
    }
}

/// The number of random bytes that the reservoir holds.
pub const RESERVOIR_SIZE: usize = 4096;

/// The number of bytes that one draw may reject before it asks the
/// generator directly.
pub const REJECTION_LIMIT: usize = 64;

/// The largest multiple of `k` that is at most 256: the bytes below it fall
/// into `256 / k` full runs of the remainders `0..k`.
pub open spec fn accept_limit(k: int) -> int {
    256int - 256int % k
}

/// Whether `reduce` accepts `byte` for the bound `k`.
pub open spec fn accepts(byte: u8, k: int) -> bool {
    (byte as int) < accept_limit(k)
}

/// Whether the byte at position `j` is the first of `bytes` that `reduce`
/// accepts for the bound `k`.
pub open spec fn first_accepted(bytes: Seq<u8>, k: int, j: int) -> bool {
    &&& 0 <= j < bytes.len()
    &&& accepts(bytes[j], k)
    &&& forall|i: int| 0 <= i < j ==> !accepts(#[trigger] bytes[i], k)
}

/// Whether `reduce` rejects each of the first `count` of `bytes` for the
/// bound `k`.
pub open spec fn all_rejected(bytes: Seq<u8>, k: int, count: int) -> bool {
    &&& count <= bytes.len()
    &&& forall|i: int| 0 <= i < count ==> !accepts(#[trigger] bytes[i], k)
}

/// Reduces a uniform byte to a uniform value in `0..k`, or rejects it: the
/// bytes below `accept_limit(k)` are reduced modulo `k`, the others, which
/// would favor the small remainders, are rejected.
pub fn reduce(byte: u8, k: u16) -> (r: Option<u8>)
    requires
        1 <= k <= 256,
    ensures
        r == if (byte as int) < accept_limit(k as int) {
            Some((byte as int % k as int) as u8)
        } else {
            None::<u8>
        },
{
    let limit: u16 = 256 - 256 % k;
    let wide: u16 = byte as u16;
    if wide < limit {
        Some((wide % k) as u8)
    } else {
        None
    }
}

/// No value is favored: for every `k`, the bytes that `reduce` accepts are
/// the `256 / k` full runs of the remainders `0..k`. The byte number `value`
/// of the run number `run` is accepted, and is reduced to `value`.
pub proof fn lemma_reduce_unbiased(k: int, run: int, value: int)
    requires
        1 <= k <= 256,
        0 <= run < 256int / k,
        0 <= value < k,
    ensures
        0 <= run * k + value < accept_limit(k),
        (run * k + value) % k == value,
        (run * k + value) / k == run,
{
    lemma_fundamental_div_mod(256, k);
    lemma_fundamental_div_mod_converse(run * k + value, k, run, value);
    assert(run * k + value < k * (256int / k)) by (nonlinear_arith)
        requires
            0 <= run < 256int / k,
            0 <= value < k,
    {}
    assert(0 <= run * k) by (nonlinear_arith)
        requires
            0 <= run,
            0 < k,
    {}
}

/// Every byte that `reduce` accepts lies in one of the `256 / k` full runs
/// of the remainders `0..k`.
pub proof fn lemma_accepted_in_run(k: int, byte: int)
    requires
        1 <= k <= 256,
        0 <= byte < accept_limit(k),
    ensures
        0 <= byte / k < 256int / k,
        0 <= byte % k < k,
        byte == (byte / k) * k + byte % k,
{
    lemma_fundamental_div_mod(256, k);
    lemma_fundamental_div_mod(byte, k);
    let run = byte / k;
    assert(0 <= run < 256int / k) by (nonlinear_arith)
        requires
            0 < k,
            0 <= byte < k * (256int / k),
            byte == k * run + byte % k,
            0 <= byte % k < k,
    {}
}

/// A reservoir of random bytes that serves uniform values in `0..k` for
/// `k` up to 256. It is refilled from the generator when it runs out.
pub struct RandomRangeBuffer {
    bytes: Vec<u8>,
    cursor: usize,
}

impl RandomRangeBuffer {
    /// The reservoir has its full size, and the cursor lies within it.
    pub closed spec fn wf(&self) -> bool {
        self.bytes@.len() == RESERVOIR_SIZE && self.cursor <= RESERVOIR_SIZE
    }

    /// Creates a reservoir and fills it from `rng`.
    pub fn new(rng: &mut SmallRng) -> (buf: RandomRangeBuffer)
        ensures
            buf.wf(),
    {
        let mut bytes: Vec<u8> = Vec::with_capacity(RESERVOIR_SIZE);
        let mut i: usize = 0;
        while i < RESERVOIR_SIZE
            invariant
                i <= RESERVOIR_SIZE,
                bytes@.len() == i,
            decreases RESERVOIR_SIZE - i,
        {
            bytes.push(0);
            i += 1;
        }
        fill_bytes(rng, &mut bytes);
        RandomRangeBuffer { bytes, cursor: 0 }
    }

    /// The bytes of the reservoir that have not been served, the next one
    /// first.
    pub closed spec fn pending(&self) -> Seq<u8> {
        self.bytes@.subrange(self.cursor as int, self.bytes@.len() as int)
    }

    /// Takes the next byte out of the reservoir: the first of the pending
    /// bytes. When none is pending, the reservoir is refilled from `rng`
    /// first, and one of the new bytes is taken.
    fn next_byte(&mut self, rng: &mut SmallRng) -> (byte: u8)
        requires
            old(self).wf(),
        ensures
            final(self).wf(),
            old(self).pending().len() > 0 ==> byte == old(self).pending()[0]
                && final(self).pending() == old(self).pending().skip(1),
            old(self).pending().len() == 0 ==> final(self).pending().len() == RESERVOIR_SIZE
                - 1,
    {
        if self.cursor == RESERVOIR_SIZE {
            fill_bytes(rng, &mut self.bytes);
            self.cursor = 0;
        }
        let byte: u8 = self.bytes[self.cursor];
        self.cursor += 1;
        assert(old(self).pending().len() > 0 ==> self.pending() =~= old(self).pending().skip(1));
        byte
    }

    /// Draws a value in `0..k`.
    ///
    /// Bytes are taken from the reservoir until `reduce` accepts one: where
    /// one of the first `REJECTION_LIMIT` pending bytes is accepted, the
    /// value is the remainder of the first such byte, and the bytes up to it
    /// are used up. Where the pending bytes run out before that, the
    /// reservoir is refilled from `rng` and the draw goes on with the new
    /// bytes. A byte is rejected with probability below one half, so the
    /// direct draw from `rng` after `REJECTION_LIMIT` rejections is all but
    /// never made.
    pub fn range(&mut self, rng: &mut SmallRng, k: u16) -> (r: u8)
        requires
            old(self).wf(),
            1 <= k <= 256,
        ensures
            final(self).wf(),
            r < k,
            forall|j: int|
                j < REJECTION_LIMIT && #[trigger] first_accepted(
                    old(self).pending(),
                    k as int,
                    j,
                ) ==> r == old(self).pending()[j] as int % (k as int) && final(self).pending()
                    == old(self).pending().skip(j + 1),
            all_rejected(old(self).pending(), k as int, REJECTION_LIMIT as int)
                ==> final(self).pending() == old(self).pending().skip(REJECTION_LIMIT as int),
    {
        let ghost served = self.pending();
        let ghost mut intact: bool = true;
        let mut tries: usize = 0;
        while tries < REJECTION_LIMIT
            invariant
                self.wf(),
                1 <= k <= 256,
                tries <= REJECTION_LIMIT,
                served == old(self).pending(),
                intact ==> tries <= served.len() && self.pending() == served.skip(tries as int),
                !intact ==> served.len() < tries,
                forall|i: int|
                    0 <= i < tries && i < served.len() ==> !accepts(#[trigger] served[i], k as int),
            decreases REJECTION_LIMIT - tries,
        {
            let ghost before = self.pending();
            let byte: u8 = self.next_byte(rng);
            proof {
                if intact && before.len() > 0 {
                    assert(byte == served[tries as int]);
                    assert(self.pending() =~= served.skip(tries + 1));
                } else {
                    intact = false;
                }
            }
            match reduce(byte, k) {
                Some(r) => {
                    return r;
                },
                None => {},
            }
            tries += 1;
        }
        below(rng, k as usize) as u8
    }
}

/// The adjacency lists of `es` have one list per node.
pub proof fn lemma_adjacency_len(n: nat, es: Seq<(int, int)>)
    requires
        in_range(n, es),
    ensures
        adjacency(n, es).len() == n,
    decreases es.len(),
{
    if es.len() > 0 {
        let prev = es.drop_last();
        lemma_in_range_drop_last(n, es);
        lemma_adjacency_len(n, prev);
    }
}

} // verus!
