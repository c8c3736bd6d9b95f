//! A ring of growable, self-contained chunks of replayable output.

use vstd::prelude::*;

use crate::bytes::extend_bytes;

verus! {

/// A sealed-or-open unit of replayable output. `prologue` re-establishes
/// sticky state so the chunk is self-contained; `data` is the sanitized
/// visual byte stream.
#[derive(Debug, Clone)]
struct Chunk {
    prologue: Vec<u8>,
    data: Vec<u8>,
}

/// What one chunk holds.
#[verifier::ext_equal]
pub struct ChunkView {
    pub prologue: Seq<u8>,
    pub data: Seq<u8>,
}

impl ChunkView {
    /// A chunk without data.
    pub open spec fn opened(prologue: Seq<u8>) -> ChunkView {
        ChunkView { prologue, data: Seq::empty() }
    }
}

impl View for Chunk {
    type V = ChunkView;

    closed spec fn view(&self) -> ChunkView {
        ChunkView { prologue: self.prologue@, data: self.data@ }
    }
}

impl Chunk {
    fn new(prologue: Vec<u8>) -> (c: Self)
        ensures
            c@ == ChunkView::opened(prologue@),
    {
        Self { prologue, data: Vec::new() }
    }
}

/// A ring of growable, self-contained chunks. Storage only: it does not
/// parse. The scanner decides when to `cut` (ground state past the watermark)
/// and `purge` (screen clear).
#[derive(Debug)]
pub struct ChunkRing {
    chunks: Vec<Chunk>,
    /// Soft byte target for an open chunk before the scanner should cut it.
    watermark: usize,
}

/// What a [`ChunkRing`] holds: the chunks from oldest to newest, the last of
/// them open, and the watermark.
#[verifier::ext_equal]
pub struct RingView {
    pub chunks: Seq<ChunkView>,
    pub watermark: nat,
}

/// The data of all chunks, in order.
pub open spec fn chunk_data(chunks: Seq<ChunkView>) -> Seq<u8>
    decreases chunks.len(),
{
    if chunks.len() == 0 {
        Seq::empty()
    } else {
        chunk_data(chunks.drop_last()) + chunks.last().data
    }
}

impl RingView {
    /// A ring holds at least its open chunk.
    pub open spec fn wf(self) -> bool {
        self.chunks.len() > 0
    }

    /// A ring with a single empty chunk.
    pub open spec fn started(watermark: nat, prologue: Seq<u8>) -> RingView {
        RingView { chunks: seq![ChunkView::opened(prologue)], watermark }
    }

    /// The data kept since the last purge.
    pub open spec fn data(self) -> Seq<u8> {
        chunk_data(self.chunks)
    }

    /// `bytes` added to the open chunk.
    pub open spec fn append(self, bytes: Seq<u8>) -> RingView {
        let open = self.chunks.last();
        RingView {
            chunks: self.chunks.drop_last().push(ChunkView { data: open.data + bytes, ..open }),
            ..self
        }
    }

    /// The open chunk has reached the watermark.
    pub open spec fn should_cut(self) -> bool {
        self.chunks.last().data.len() >= self.watermark
    }

    /// A new open chunk after the present ones.
    pub open spec fn cut(self, prologue: Seq<u8>) -> RingView {
        RingView { chunks: self.chunks.push(ChunkView::opened(prologue)), ..self }
    }

    /// Only a new open chunk.
    pub open spec fn purge(self, prologue: Seq<u8>) -> RingView {
        RingView::started(self.watermark, prologue)
    }

    /// The index of the oldest chunk in a replay of `want` chunks. At least
    /// one chunk is replayed, and no more than there are.
    pub open spec fn replay_start(self, want: nat) -> int {
        let n = self.chunks.len();
        if want <= 1 {
            n - 1
        } else if want >= n {
            0
        } else {
            n - want
        }
    }

    /// The newest `want` chunks: the prologue of the oldest of them, then
    /// the data of all of them.
    pub open spec fn replay(self, want: nat) -> Seq<u8> {
        let start = self.replay_start(want);
        self.chunks[start].prologue + chunk_data(self.chunks.skip(start))
    }

    /// All chunks: the prologue of the oldest, then all data.
    pub open spec fn replay_all(self) -> Seq<u8> {
        self.chunks[0].prologue + self.data()
    }
}

/// The data of two runs of chunks, one after the other.
pub proof fn lemma_chunk_data_add(a: Seq<ChunkView>, b: Seq<ChunkView>)
    ensures
        chunk_data(a + b) == chunk_data(a) + chunk_data(b),
    decreases b.len(),
{
    if b.len() == 0 {
        assert(a + b =~= a);
        assert(chunk_data(a) + chunk_data(b) =~= chunk_data(a));
    } else {
        lemma_chunk_data_add(a, b.drop_last());
        assert((a + b).drop_last() =~= a + b.drop_last());
        assert((a + b).last() == b.last());
        assert(chunk_data(a) + chunk_data(b) =~= chunk_data(a) + chunk_data(b.drop_last())
            + b.last().data);
    }
}

pub proof fn lemma_chunk_data_one(c: ChunkView)
    ensures
        chunk_data(seq![c]) == c.data,
{
    reveal_with_fuel(chunk_data, 2);
    assert(seq![c].drop_last() =~= Seq::<ChunkView>::empty());
    assert(Seq::<u8>::empty() + c.data =~= c.data);
}

/// What is appended comes at the end of the data.
pub proof fn law_append_extends_data(r: RingView, bytes: Seq<u8>)
    requires
        r.wf(),
    ensures
        r.append(bytes).data() == r.data() + bytes,
{
    let a = r.append(bytes);
    assert(a.chunks.drop_last() =~= r.chunks.drop_last());
    assert(a.data() =~= r.data() + bytes);
}

/// Cutting keeps all data and the whole replay.
pub proof fn law_cut_keeps_everything(r: RingView, prologue: Seq<u8>)
    requires
        r.wf(),
    ensures
        r.cut(prologue).data() == r.data(),
        r.cut(prologue).replay_all() == r.replay_all(),
{
    let c = r.cut(prologue);
    assert(c.chunks.drop_last() =~= r.chunks);
    assert(c.data() =~= r.data());
}

/// Right after a cut the newest chunk alone replays the prologue it was cut
/// with.
pub proof fn law_cut_opens_with_prologue(r: RingView, prologue: Seq<u8>)
    ensures
        r.cut(prologue).replay(1) == prologue,
{
    let c = r.cut(prologue);
    let n = c.chunks.len();
    assert(c.chunks.skip(n - 1) =~= seq![ChunkView::opened(prologue)]);
    lemma_chunk_data_one(ChunkView::opened(prologue));
    assert(c.replay(1) =~= prologue);
}

/// A purge forgets all that was there: only the new prologue is replayed.
pub proof fn law_purge_forgets(r: RingView, prologue: Seq<u8>, want: nat)
    ensures
        r.purge(prologue).data() == Seq::<u8>::empty(),
        r.purge(prologue).replay(want) == prologue,
        r.purge(prologue).replay_all() == prologue,
{
    let p = r.purge(prologue);
    lemma_chunk_data_one(ChunkView::opened(prologue));
    assert(p.chunks.skip(0) =~= p.chunks);
    assert(p.replay(want) =~= prologue);
    assert(p.replay_all() =~= prologue);
}

/// Appending extends the replay of any number of chunks by the same bytes.
pub proof fn law_append_extends_replay(r: RingView, bytes: Seq<u8>, want: nat)
    requires
        r.wf(),
    ensures
        r.append(bytes).replay(want) == r.replay(want) + bytes,
{
    let a = r.append(bytes);
    let start = r.replay_start(want);
    let old_tail = RingView { chunks: r.chunks.skip(start), ..r };
    law_append_extends_data(old_tail, bytes);
    assert(a.chunks.skip(start) =~= old_tail.append(bytes).chunks);
    assert(a.chunks[start].prologue == r.chunks[start].prologue);
    assert(a.replay(want) =~= r.replay(want) + bytes);
}

/// A capped replay is a prologue followed by the newest part of the data.
pub proof fn law_capped_replay_is_newest_data(r: RingView, want: nat)
    requires
        r.wf(),
    ensures
        r.replay(want) == r.chunks[r.replay_start(want)].prologue + chunk_data(
            r.chunks.skip(r.replay_start(want)),
        ),
        chunk_data(r.chunks.skip(r.replay_start(want))).is_suffix_of(r.data()),
{
    let start = r.replay_start(want);
    lemma_chunk_data_add(r.chunks.take(start), r.chunks.skip(start));
    assert(r.chunks.take(start) + r.chunks.skip(start) =~= r.chunks);
    let tail = chunk_data(r.chunks.skip(start));
    assert(r.data().subrange(r.data().len() - tail.len(), r.data().len() as int) =~= tail);
}

/// Asking for as many chunks as there are, or more, gives the whole replay.
pub proof fn law_large_cap_replays_all(r: RingView, want: nat)
    requires
        r.wf(),
        want >= r.chunks.len(),
    ensures
        r.replay(want) == r.replay_all(),
{
    assert(r.chunks.skip(0) =~= r.chunks);
    assert(r.replay_start(want) == 0);
}

impl View for ChunkRing {
    type V = RingView;

    closed spec fn view(&self) -> RingView {
        RingView {
            chunks: self.chunks@.map_values(|c: Chunk| c@),
            watermark: self.watermark as nat,
        }
    }
}

impl ChunkRing {
    /// `watermark` is the soft cut target.
    pub fn new(watermark: usize) -> (r: Self)
        ensures
            r@ == RingView::started(watermark as nat, Seq::empty()),
            r@.wf(),
    {
        let mut chunks: Vec<Chunk> = Vec::new();
        chunks.push(Chunk::new(Vec::new()));
        let r = Self { chunks, watermark };
        assert(r@.chunks =~= seq![ChunkView::opened(Seq::empty())]);
        r
    }

    /// Append sanitized visual bytes to the currently open (last) chunk.
    pub fn append(&mut self, bytes: &[u8])
        requires
            old(self)@.wf(),
        ensures
            final(self)@ == old(self)@.append(bytes@),
            final(self)@.wf(),
    {
        let last = self.chunks.len() - 1;
        extend_bytes(&mut self.chunks[last].data, bytes);
        assert(self@.chunks =~= old(self)@.append(bytes@).chunks);
    }

    /// True once the open chunk's data has reached the soft watermark. The
    /// scanner only acts on this at parser ground state, so a single long
    /// sequence is never split: the chunk simply grows past the watermark.
    #[must_use]
    pub fn should_cut(&self) -> (r: bool)
        requires
            self@.wf(),
        ensures
            r == self@.should_cut(),
    {
        self.chunks[self.chunks.len() - 1].data.len() >= self.watermark
    }

    /// Seal the open chunk and open a new one carrying `prologue` (the
    /// serialized sticky state at this moment).
    pub fn cut(&mut self, prologue: Vec<u8>)
        ensures
            final(self)@ == old(self)@.cut(prologue@),
            final(self)@.wf(),
    {
        self.chunks.push(Chunk::new(prologue));
        assert(self@.chunks =~= old(self)@.cut(prologue@).chunks);
    }

    /// Drop all history on a screen clear: discard every chunk and start
    /// fresh with a single open chunk whose prologue is a known-good replay
    /// base.
    pub fn purge(&mut self, clear_prologue: Vec<u8>)
        ensures
            final(self)@ == old(self)@.purge(clear_prologue@),
            final(self)@.wf(),
    {
        let mut chunks: Vec<Chunk> = Vec::new();
        chunks.push(Chunk::new(clear_prologue));
        self.chunks = chunks;
        assert(self@.chunks =~= old(self)@.purge(clear_prologue@).chunks);
    }

    /// Replay the most recent `want_chunks` chunks:
    /// `first_selected.prologue + concat(selected.data)`.
    pub fn replay(&self, want_chunks: usize) -> (out: Vec<u8>)
        requires
            self@.wf(),
        ensures
            out@ == self@.replay(want_chunks as nat),
            want_chunks == usize::MAX ==> out@ == self@.replay_all(),
    {
        let n = self.chunks.len();
        let want = if want_chunks < 1 { 1 } else { want_chunks };
        let start = if want >= n { 0 } else { n - want };
        assert(start == self@.replay_start(want_chunks as nat));
        let mut out: Vec<u8> = Vec::new();
        extend_bytes(&mut out, self.chunks[start].prologue.as_slice());
        let ghost selected = self@.chunks.skip(start as int);
        assert(selected.take(0) =~= Seq::empty());
        let mut i: usize = start;
        while i < n
            invariant
                start <= i <= n,
                n == self.chunks@.len(),
                n == self@.chunks.len(),
                selected == self@.chunks.skip(start as int),
                out@ == self@.chunks[start as int].prologue + chunk_data(selected.take(i - start)),
            decreases n - i,
        {
            assert(selected.take(i - start + 1).drop_last() =~= selected.take(i - start));
            assert(selected.take(i - start + 1).last() == self.chunks@[i as int]@);
            extend_bytes(&mut out, self.chunks[i].data.as_slice());
            assert(out@ =~= self@.chunks[start as int].prologue + chunk_data(
                selected.take(i - start + 1),
            ));
            i = i + 1;
        }
        assert(selected.take(n - start) =~= selected);
        proof {
            if want_chunks >= n {
                law_large_cap_replays_all(self@, want_chunks as nat);
            }
        }
        out
    }
}

/// The data of each chunk.
pub open spec fn pieces(chunks: Seq<ChunkView>) -> Seq<Seq<u8>> {
    chunks.map_values(|c: ChunkView| c.data)
}

proof fn lemma_data_is_flat(chunks: Seq<ChunkView>)
    ensures
        chunk_data(chunks) == pieces(chunks).flatten(),
    decreases chunks.len(),
{
    if chunks.len() == 0 {
        assert(pieces(chunks) =~= Seq::empty());
    } else {
        let front = chunks.drop_last();
        lemma_data_is_flat(front);
        pieces(front).lemma_flatten_push(chunks.last().data);
        assert(pieces(chunks) =~= pieces(front).push(chunks.last().data));
    }
}

/// The data is that of all chunks, one after the other, and the whole replay
/// is the prologue of the oldest chunk and all of the data. A capped replay is
/// the prologue of the oldest and the data of all of the newest `want` chunks:
/// of exactly so many, or of all if there are fewer, and of one at least.
pub proof fn law_replay_is_the_newest_chunks(r: RingView, want: nat)
    requires
        r.wf(),
    ensures
        r.data() == pieces(r.chunks).flatten(),
        r.replay_all() == r.chunks[0].prologue + pieces(r.chunks).flatten(),
        ({
            let n = r.chunks.len();
            let m = if want == 0 {
                1
            } else if want < n {
                want
            } else {
                n
            };
            r.replay(want) == r.chunks[n - m].prologue + pieces(
                r.chunks.subrange(n - m, n as int),
            ).flatten()
        }),
{
    let n = r.chunks.len();
    let start = r.replay_start(want);
    lemma_data_is_flat(r.chunks);
    lemma_data_is_flat(r.chunks.skip(start));
    assert(r.chunks.skip(start) =~= r.chunks.subrange(start, n as int));
}

/// Chunk by chunk: appending adds to the data of the open chunk and touches
/// nothing else, a cut adds a chunk without data, and a purge leaves only one.
/// The open chunk is full once its data is as long as the watermark.
pub proof fn law_operations_by_chunk(r: RingView, bytes: Seq<u8>, i: int)
    requires
        0 <= i < r.chunks.len(),
    ensures
        r.append(bytes).chunks.len() == r.chunks.len(),
        r.append(bytes).chunks[i].prologue == r.chunks[i].prologue,
        r.append(bytes).chunks[i].data == if i == r.chunks.len() - 1 {
            r.chunks[i].data + bytes
        } else {
            r.chunks[i].data
        },
        r.cut(bytes).chunks.len() == r.chunks.len() + 1,
        r.cut(bytes).chunks[i] == r.chunks[i],
        r.cut(bytes).chunks.last().prologue == bytes,
        r.cut(bytes).chunks.last().data.len() == 0,
        r.purge(bytes).chunks.len() == 1,
        r.purge(bytes).chunks[0].prologue == bytes,
        r.purge(bytes).chunks[0].data.len() == 0,
        r.should_cut() <==> r.chunks[r.chunks.len() - 1].data.len() >= r.watermark,
        r.append(bytes).watermark == r.watermark,
        r.cut(bytes).watermark == r.watermark,
        r.purge(bytes).watermark == r.watermark,
{
}

/// A ring starts with one chunk without data.
pub proof fn law_ring_starts_empty(watermark: nat, prologue: Seq<u8>)
    ensures
        RingView::started(watermark, prologue).chunks.len() == 1,
        RingView::started(watermark, prologue).chunks[0].prologue == prologue,
        RingView::started(watermark, prologue).chunks[0].data.len() == 0,
        RingView::started(watermark, prologue).watermark == watermark,
{
}

} // verus!
