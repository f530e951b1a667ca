use vstd::prelude::*;

use crate::digest::{bytes_equal, sha1_digest, sha1_of};

verus! {

/// Bytes in a full block, the unit of one request on the wire.
pub const BLOCK_SIZE: u64 = 16384;

/// Where a block stands in the download.
#[derive(Clone, Copy, Debug, PartialEq, Eq, Structural)]
pub enum BlockState {
    Missing,
    /// Requested by the session with this id and not yet arrived.
    Reserved { session: u64 },
    Present,
}

/// A contiguous run of payload bytes; `offset` is absolute within the torrent.
#[derive(Clone, Copy, Debug, PartialEq, Eq, Structural)]
pub struct Block {
    pub offset: u64,
    pub length: u64,
    pub state: BlockState,
}

/// One hash-checked chunk of the payload.
#[derive(Debug)]
pub struct Piece {
    pub index: usize,
    /// Absolute offset of the first byte of the piece.
    pub offset: u64,
    pub length: u64,
    pub hash: [u8; 20],
    pub blocks: Vec<Block>,
    /// How many peers are known to hold this piece.
    pub rarity: u64,
    pub verified: bool,
}

/// The shared record of every piece, its blocks and the bytes downloaded so far.
#[derive(Debug)]
pub struct Scheduler {
    pub pieces: Vec<Piece>,
    pub downloaded: u64,
    pub total_length: u64,
    pub piece_length: u64,
}

/// Blocks `s` cover `[start, start + len)` in order, each of them full-sized but the last.
pub open spec fn tiles(s: Seq<Block>, start: int, len: int) -> bool {
    &&& s.len() > 0
    &&& s[0].offset == start
    &&& forall|k: int| 0 <= k < s.len() ==> 0 < #[trigger] s[k].length <= BLOCK_SIZE
    &&& forall|k: int| 0 <= k < s.len() - 1 ==> #[trigger] s[k].length == BLOCK_SIZE
    &&& forall|k: int|
        0 <= k < s.len() - 1 ==> s[k + 1].offset == #[trigger] s[k].offset + s[k].length
    &&& s.last().offset + s.last().length == start + len
}

/// Sum of the lengths of the blocks.
pub open spec fn sum_lengths(s: Seq<Block>) -> int
    decreases s.len(),
{
    if s.len() == 0 {
        0
    } else {
        sum_lengths(s.drop_last()) + s.last().length
    }
}

/// The bytes a block contributes to the download counter.
pub open spec fn present_len(b: Block) -> int {
    if b.state == BlockState::Present {
        b.length as int
    } else {
        0
    }
}

/// Sum of the lengths of the blocks that are present.
pub open spec fn present_bytes(s: Seq<Block>) -> int
    decreases s.len(),
{
    if s.len() == 0 {
        0
    } else {
        present_bytes(s.drop_last()) + present_len(s.last())
    }
}

/// Sum over the pieces of their present bytes.
pub open spec fn total_present(ps: Seq<Piece>) -> int
    decreases ps.len(),
{
    if ps.len() == 0 {
        0
    } else {
        total_present(ps.drop_last()) + present_bytes(ps.last().blocks@)
    }
}

/// Sum of the lengths of the pieces.
pub open spec fn total_piece_lengths(ps: Seq<Piece>) -> int
    decreases ps.len(),
{
    if ps.len() == 0 {
        0
    } else {
        total_piece_lengths(ps.drop_last()) + ps.last().length
    }
}

pub open spec fn all_present(s: Seq<Block>) -> bool {
    forall|k: int| 0 <= k < s.len() ==> #[trigger] s[k].state == BlockState::Present
}

pub open spec fn all_missing(s: Seq<Block>) -> bool {
    forall|k: int| 0 <= k < s.len() ==> #[trigger] s[k].state == BlockState::Missing
}

pub open spec fn has_missing(s: Seq<Block>) -> bool {
    exists|k: int| 0 <= k < s.len() && #[trigger] s[k].state == BlockState::Missing
}

/// Number of pieces of at most `piece_length` bytes that `total` bytes make.
pub open spec fn piece_count(total: int, piece_length: int) -> nat
    decreases total,
{
    if total <= 0 || piece_length <= 0 {
        0
    } else if total <= piece_length {
        1
    } else {
        1 + piece_count(total - piece_length, piece_length)
    }
}

/// Piece `p` is the `i`-th of the torrent and its blocks tile it.
pub open spec fn piece_wf(p: Piece, i: int) -> bool {
    &&& p.index == i
    &&& p.length > 0
    &&& tiles(p.blocks@, p.offset as int, p.length as int)
    &&& p.verified ==> all_present(p.blocks@)
}

/// Pieces `ps` cover `[0, total)` in order, each `piece_length` long but the last.
pub open spec fn pieces_tile(ps: Seq<Piece>, total: int, piece_length: int) -> bool {
    &&& ps.len() == 0 ==> total == 0
    &&& ps.len() > 0 ==> ps[0].offset == 0 && ps.last().offset + ps.last().length == total
    &&& forall|i: int| 0 <= i < ps.len() ==> #[trigger] ps[i].length <= piece_length
    &&& forall|i: int|
        0 <= i < ps.len() - 1 ==> ps[i + 1].offset == #[trigger] ps[i].offset + ps[i].length
    &&& forall|i: int| 0 <= i < ps.len() - 1 ==> #[trigger] ps[i].length == piece_length
}

/// A piece whose bytes have all arrived and which awaits its hash check.
pub open spec fn awaits_check(p: Piece) -> bool {
    all_present(p.blocks@) && !p.verified
}

impl Scheduler {
    /// The scheduler's invariant.
    pub open spec fn wf(&self) -> bool {
        &&& self.piece_length > 0
        &&& pieces_tile(self.pieces@, self.total_length as int, self.piece_length as int)
        &&& forall|i: int| 0 <= i < self.pieces@.len() ==> piece_wf(#[trigger] self.pieces@[i], i)
        &&& self.downloaded == total_present(self.pieces@)
    }
}

/// Blocks with contiguous offsets sum to the span from the first to the end of the last.
pub proof fn lemma_sum_lengths_span(s: Seq<Block>, start: int, len: int)
    requires
        tiles(s, start, len),
    ensures
        sum_lengths(s) == len,
    decreases s.len(),
{
    if s.len() == 1 {
        assert(sum_lengths(s.drop_last()) == 0);
    } else {
        let t = s.drop_last();
        let n = s.len() - 1;
        assert(s[n - 1].offset + s[n - 1].length == s[n].offset);
        assert(t.last() == s[n - 1]);
        assert(t[0] == s[0]);
        assert forall|k: int| 0 <= k < t.len() implies 0 < #[trigger] t[k].length <= BLOCK_SIZE by {
            assert(t[k] == s[k]);
        }
        assert forall|k: int| 0 <= k < t.len() - 1 implies #[trigger] t[k].length == BLOCK_SIZE by {
            assert(t[k] == s[k]);
        }
        assert forall|k: int| 0 <= k < t.len() - 1 implies t[k + 1].offset == #[trigger] t[k].offset
            + t[k].length by {
            assert(t[k] == s[k]);
            assert(t[k + 1] == s[k + 1]);
        }
        lemma_sum_lengths_span(t, start, len - s.last().length);
    }
}

/// Present bytes never exceed the block lengths, and equal them exactly when all are present.
pub proof fn lemma_present_bounded(s: Seq<Block>)
    requires
        forall|k: int| 0 <= k < s.len() ==> 0 < #[trigger] s[k].length,
    ensures
        0 <= present_bytes(s) <= sum_lengths(s),
        present_bytes(s) == sum_lengths(s) <==> all_present(s),
    decreases s.len(),
{
    if s.len() > 0 {
        let t = s.drop_last();
        assert forall|k: int| 0 <= k < t.len() implies 0 < #[trigger] t[k].length by {
            assert(t[k] == s[k]);
        }
        lemma_present_bounded(t);
        if all_present(s) {
            assert forall|k: int| 0 <= k < t.len() implies #[trigger] t[k].state
                == BlockState::Present by {
                assert(t[k] == s[k]);
            }
        }
        if all_present(t) && s.last().state == BlockState::Present {
            assert forall|k: int| 0 <= k < s.len() implies #[trigger] s[k].state
                == BlockState::Present by {
                if k < s.len() - 1 {
                    assert(t[k] == s[k]);
                }
            }
        }
        assert(s[s.len() - 1].length > 0);
    }
}

/// Changing one block changes the present bytes by the difference of its contributions.
pub proof fn lemma_present_update(s: Seq<Block>, k: int, b: Block)
    requires
        0 <= k < s.len(),
    ensures
        present_bytes(s.update(k, b)) == present_bytes(s) - present_len(s[k]) + present_len(b),
    decreases s.len(),
{
    let u = s.update(k, b);
    if k == s.len() - 1 {
        assert(u.drop_last() =~= s.drop_last());
    } else {
        assert(u.drop_last() =~= s.drop_last().update(k, b));
        lemma_present_update(s.drop_last(), k, b);
    }
}

/// Changing one piece changes the total by the difference of its present bytes.
pub proof fn lemma_total_update(ps: Seq<Piece>, i: int, p: Piece)
    requires
        0 <= i < ps.len(),
    ensures
        total_present(ps.update(i, p)) == total_present(ps) - present_bytes(ps[i].blocks@)
            + present_bytes(p.blocks@),
    decreases ps.len(),
{
    let u = ps.update(i, p);
    if i == ps.len() - 1 {
        assert(u.drop_last() =~= ps.drop_last());
    } else {
        assert(u.drop_last() =~= ps.drop_last().update(i, p));
        lemma_total_update(ps.drop_last(), i, p);
    }
}

/// The present bytes of well-formed pieces are bounded by their lengths.
pub proof fn lemma_total_bounded(ps: Seq<Piece>, base: int)
    requires
        forall|i: int| 0 <= i < ps.len() ==> piece_wf(#[trigger] ps[i], base + i),
    ensures
        0 <= total_present(ps) <= total_piece_lengths(ps),
        total_present(ps) == total_piece_lengths(ps) ==> forall|i: int|
            0 <= i < ps.len() ==> all_present(#[trigger] ps[i].blocks@),
    decreases ps.len(),
{
    if ps.len() > 0 {
        let t = ps.drop_last();
        assert forall|i: int| 0 <= i < t.len() implies piece_wf(#[trigger] t[i], base + i) by {
            assert(t[i] == ps[i]);
        }
        lemma_total_bounded(t, base);
        let p = ps.last();
        assert(piece_wf(ps[ps.len() - 1], base + ps.len() - 1));
        lemma_present_bounded(p.blocks@);
        lemma_sum_lengths_span(p.blocks@, p.offset as int, p.length as int);
        if total_present(ps) == total_piece_lengths(ps) {
            assert forall|i: int| 0 <= i < ps.len() implies all_present(#[trigger] ps[i].blocks@) by {
                if i < ps.len() - 1 {
                    assert(t[i] == ps[i]);
                }
            }
        }
    }
}

/// Contiguous pieces from offset zero sum to the end of the last one.
pub proof fn lemma_piece_lengths_span(ps: Seq<Piece>, total: int, piece_length: int)
    requires
        pieces_tile(ps, total, piece_length),
    ensures
        total_piece_lengths(ps) == total,
    decreases ps.len(),
{
    if ps.len() == 1 {
        assert(total_piece_lengths(ps.drop_last()) == 0);
    } else if ps.len() > 1 {
        let t = ps.drop_last();
        let n = ps.len() - 1;
        assert(ps[n - 1].offset + ps[n - 1].length == ps[n].offset);
        assert(t.last() == ps[n - 1]);
        assert(t[0] == ps[0]);
        assert forall|i: int| 0 <= i < t.len() implies #[trigger] t[i].length <= piece_length by {
            assert(t[i] == ps[i]);
        }
        assert forall|i: int| 0 <= i < t.len() - 1 implies #[trigger] t[i].length
            == piece_length by {
            assert(t[i] == ps[i]);
        }
        assert forall|i: int| 0 <= i < t.len() - 1 implies t[i + 1].offset == #[trigger] t[i].offset
            + t[i].length by {
            assert(t[i] == ps[i]);
            assert(t[i + 1] == ps[i + 1]);
        }
        lemma_piece_lengths_span(t, total - ps.last().length, piece_length);
    }
}

/// In a well-formed scheduler the counter is at most the payload length.
pub proof fn lemma_downloaded_bounded(s: &Scheduler)
    requires
        s.wf(),
    ensures
        s.downloaded <= s.total_length,
        s.downloaded == s.total_length ==> forall|i: int|
            0 <= i < s.pieces@.len() ==> all_present(#[trigger] s.pieces@[i].blocks@),
{
    lemma_total_bounded(s.pieces@, 0);
    lemma_piece_lengths_span(s.pieces@, s.total_length as int, s.piece_length as int);
}

/// The blocks, all missing, that tile `[start, start + len)`.
fn make_blocks(start: u64, len: u64) -> (r: Vec<Block>)
    requires
        len > 0,
        start + len <= u64::MAX,
    ensures
        tiles(r@, start as int, len as int),
        all_missing(r@),
{
    let mut r: Vec<Block> = Vec::new();
    let mut off: u64 = start;
    let mut rem: u64 = len;
    while rem > 0
        invariant
            off + rem == start + len,
            start + len <= u64::MAX,
            r@.len() == 0 ==> off == start && rem == len,
            r@.len() > 0 ==> r@[0].offset == start && r@.last().offset + r@.last().length == off,
            forall|k: int| 0 <= k < r@.len() ==> 0 < #[trigger] r@[k].length <= BLOCK_SIZE,
            forall|k: int| 0 <= k < r@.len() - 1 ==> #[trigger] r@[k].length == BLOCK_SIZE,
            forall|k: int|
                0 <= k < r@.len() - 1 ==> r@[k + 1].offset == #[trigger] r@[k].offset
                    + r@[k].length,
            r@.len() > 0 && rem > 0 ==> r@.last().length == BLOCK_SIZE,
            forall|k: int| 0 <= k < r@.len() ==> #[trigger] r@[k].state == BlockState::Missing,
        decreases rem,
    {
        let n: u64 = if rem < BLOCK_SIZE {
            rem
        } else {
            BLOCK_SIZE
        };
        let ghost before = r@;
        r.push(Block { offset: off, length: n, state: BlockState::Missing });
        assert(forall|k: int| 0 <= k < before.len() ==> r@[k] == before[k]);
        off = off + n;
        rem = rem - n;
    }
    r
}

impl Scheduler {
    /// Lays out the pieces of a payload of `total_length` bytes cut into pieces of
    /// `piece_length`, with the expected digest of each; every block starts missing.
    /// Gives `None` unless `piece_length` is positive and there is one digest per piece.
    pub fn new(total_length: u64, piece_length: u64, hashes: &Vec<[u8; 20]>) -> (r: Option<
        Scheduler,
    >)
        ensures
            r is Some <==> piece_length > 0 && hashes@.len() == piece_count(
                total_length as int,
                piece_length as int,
            ),
            r matches Some(s) ==> {
                &&& s.wf()
                &&& s.total_length == total_length
                &&& s.piece_length == piece_length
                &&& s.downloaded == 0
                &&& s.pieces@.len() == hashes@.len()
                &&& forall|i: int|
                    0 <= i < s.pieces@.len() ==> {
                        &&& (#[trigger] s.pieces@[i]).hash == hashes@[i]
                        &&& s.pieces@[i].rarity == 0
                        &&& !s.pieces@[i].verified
                        &&& all_missing(s.pieces@[i].blocks@)
                    }
            },
    {
        if piece_length == 0 {
            return None;
        }
        let mut pieces: Vec<Piece> = Vec::new();
        let mut off: u64 = 0;
        let mut rem: u64 = total_length;
        while rem > 0
            invariant
                piece_length > 0,
                off + rem == total_length,
                piece_count(total_length as int, piece_length as int) == pieces@.len()
                    + piece_count(rem as int, piece_length as int),
                pieces@.len() == 0 ==> off == 0,
                pieces@.len() > 0 ==> pieces@[0].offset == 0 && pieces@.last().offset
                    + pieces@.last().length == off,
                pieces@.len() > 0 && rem > 0 ==> pieces@.last().length == piece_length,
                pieces@.len() <= hashes@.len(),
                forall|i: int| 0 <= i < pieces@.len() ==> #[trigger] pieces@[i].length <= piece_length,
                forall|i: int|
                    0 <= i < pieces@.len() - 1 ==> pieces@[i + 1].offset == #[trigger] pieces@[i].offset
                        + pieces@[i].length,
                forall|i: int| 0 <= i < pieces@.len() - 1 ==> #[trigger] pieces@[i].length == piece_length,
                forall|i: int| 0 <= i < pieces@.len() ==> piece_wf(#[trigger] pieces@[i], i),
                forall|i: int|
                    0 <= i < pieces@.len() ==> {
                        &&& (#[trigger] pieces@[i]).hash == hashes@[i]
                        &&& pieces@[i].rarity == 0
                        &&& !pieces@[i].verified
                        &&& all_missing(pieces@[i].blocks@)
                    },
            decreases rem,
        {
            let i = pieces.len();
            if i >= hashes.len() {
                return None;
            }
            let n: u64 = if rem < piece_length {
                rem
            } else {
                piece_length
            };
            let blocks = make_blocks(off, n);
            let ghost before = pieces@;
            pieces.push(
                Piece {
                    index: i,
                    offset: off,
                    length: n,
                    hash: hashes[i],
                    blocks,
                    rarity: 0,
                    verified: false,
                },
            );
            assert(forall|j: int| 0 <= j < before.len() ==> pieces@[j] == before[j]);
            off = off + n;
            rem = rem - n;
        }
        if pieces.len() != hashes.len() {
            return None;
        }
        let ghost ps = pieces@;
        proof {
            lemma_zero_total(ps);
        }
        Some(Scheduler { pieces, downloaded: 0, total_length, piece_length })
    }
}

/// Block `b` with its state replaced.
pub open spec fn with_state(b: Block, st: BlockState) -> Block {
    Block { offset: b.offset, length: b.length, state: st }
}

/// The blocks with every missing one reserved for `session`.
pub open spec fn reserve_all(s: Seq<Block>, session: u64) -> Seq<Block> {
    Seq::new(
        s.len(),
        |k: int|
            if s[k].state == BlockState::Missing {
                with_state(s[k], BlockState::Reserved { session })
            } else {
                s[k]
            },
    )
}

/// The blocks with every one reserved for `session` missing again.
pub open spec fn release_all(s: Seq<Block>, session: u64) -> Seq<Block> {
    Seq::new(
        s.len(),
        |k: int|
            if s[k].state == (BlockState::Reserved { session }) {
                with_state(s[k], BlockState::Missing)
            } else {
                s[k]
            },
    )
}

/// The blocks, all set to `st`.
pub open spec fn set_all(s: Seq<Block>, st: BlockState) -> Seq<Block> {
    Seq::new(s.len(), |k: int| with_state(s[k], st))
}

/// Indices of the missing blocks, in increasing order.
pub open spec fn missing_indices(s: Seq<Block>) -> Seq<usize>
    decreases s.len(),
{
    if s.len() == 0 {
        Seq::empty()
    } else if s.last().state == BlockState::Missing {
        missing_indices(s.drop_last()).push((s.len() - 1) as usize)
    } else {
        missing_indices(s.drop_last())
    }
}

/// Piece `i` can be fetched from a peer with bitfield `bf`.
pub open spec fn eligible(ps: Seq<Piece>, bf: Seq<bool>, i: int) -> bool {
    0 <= i < ps.len() && bf[i] && has_missing(ps[i].blocks@)
}

/// Piece `i` is the rarest eligible piece, the lowest index among equally rare ones.
pub open spec fn is_rarest(ps: Seq<Piece>, bf: Seq<bool>, i: int) -> bool {
    &&& eligible(ps, bf, i)
    &&& forall|j: int|
        #![trigger eligible(ps, bf, j)]
        eligible(ps, bf, j) ==> ps[i].rarity < ps[j].rarity || (ps[i].rarity == ps[j].rarity
            && i <= j)
}

/// Same payload layout, digests, rarities and verification flags; only block states may differ.
pub open spec fn same_layout(a: Scheduler, b: Scheduler) -> bool {
    &&& a.total_length == b.total_length
    &&& a.piece_length == b.piece_length
    &&& a.pieces@.len() == b.pieces@.len()
    &&& forall|i: int|
        #![trigger a.pieces@[i], b.pieces@[i]]
        0 <= i < a.pieces@.len() ==> {
            &&& a.pieces@[i].index == b.pieces@[i].index
            &&& a.pieces@[i].offset == b.pieces@[i].offset
            &&& a.pieces@[i].length == b.pieces@[i].length
            &&& a.pieces@[i].hash == b.pieces@[i].hash
            &&& a.pieces@[i].blocks@.len() == b.pieces@[i].blocks@.len()
        }
}

/// Pieces other than `i` are untouched, and so are the rarity and flag of `i`.
pub open spec fn others_unchanged(a: Scheduler, b: Scheduler, i: int) -> bool {
    &&& same_layout(a, b)
    &&& forall|j: int|
        #![trigger b.pieces@[j]]
        0 <= j < a.pieces@.len() && j != i ==> b.pieces@[j] == a.pieces@[j]
    &&& b.pieces@[i].rarity == a.pieces@[i].rarity
}


/// Two blocks that differ in state only contribute by their states alone.
proof fn lemma_same_present_map(s: Seq<Block>, t: Seq<Block>)
    requires
        s.len() == t.len(),
        forall|k: int| 0 <= k < s.len() ==> present_len(#[trigger] s[k]) == present_len(t[k]),
    ensures
        present_bytes(s) == present_bytes(t),
    decreases s.len(),
{
    if s.len() > 0 {
        let a = s.drop_last();
        let b = t.drop_last();
        assert forall|k: int| 0 <= k < a.len() implies present_len(#[trigger] a[k]) == present_len(
            b[k],
        ) by {
            assert(a[k] == s[k]);
            assert(b[k] == t[k]);
        }
        lemma_same_present_map(a, b);
        assert(present_len(s[s.len() - 1]) == present_len(t[t.len() - 1]));
    }
}

/// Re-tiling holds when only states change.
proof fn lemma_tiles_states(s: Seq<Block>, t: Seq<Block>, start: int, len: int)
    requires
        tiles(s, start, len),
        s.len() == t.len(),
        forall|k: int|
            0 <= k < s.len() ==> (#[trigger] t[k]).offset == s[k].offset && t[k].length
                == s[k].length,
    ensures
        tiles(t, start, len),
{
    assert(t[0] == t[0] && t[0].offset == s[0].offset);
    assert(t.last().offset == s.last().offset && t.last().length == s.last().length);
    assert forall|k: int| 0 <= k < t.len() implies 0 < #[trigger] t[k].length <= BLOCK_SIZE by {
        assert(s[k].length == t[k].length);
    }
    assert forall|k: int| 0 <= k < t.len() - 1 implies #[trigger] t[k].length == BLOCK_SIZE by {
        assert(s[k].length == t[k].length);
    }
    assert forall|k: int| 0 <= k < t.len() - 1 implies t[k + 1].offset == #[trigger] t[k].offset
        + t[k].length by {
        assert(s[k].length == t[k].length);
        assert(t[k + 1].offset == s[k + 1].offset);
    }
}

/// The indices of the missing blocks are in range and name missing blocks.
pub proof fn lemma_missing_indices_bounded(s: Seq<Block>)
    requires
        s.len() <= usize::MAX,
    ensures
        forall|m: int|
            0 <= m < missing_indices(s).len() ==> #[trigger] missing_indices(s)[m] < s.len()
                && s[missing_indices(s)[m] as int].state == BlockState::Missing,
    decreases s.len(),
{
    if s.len() > 0 {
        let t = s.drop_last();
        lemma_missing_indices_bounded(t);
        assert forall|m: int| 0 <= m < missing_indices(s).len() implies #[trigger] missing_indices(
            s,
        )[m] < s.len() && s[missing_indices(s)[m] as int].state == BlockState::Missing by {
            if m < missing_indices(t).len() {
                assert(missing_indices(s)[m] == missing_indices(t)[m]);
                assert(missing_indices(t)[m] < t.len());
                assert(t[missing_indices(t)[m] as int] == s[missing_indices(t)[m] as int]);
            } else {
                assert(missing_indices(s)[m] == (s.len() - 1) as usize);
            }
        }
    }
}

/// Reserves every missing block of `blocks` for `session`, giving the new blocks and the
/// indices that were reserved.
fn reserve_blocks(blocks: &Vec<Block>, session: u64) -> (r: (Vec<Block>, Vec<usize>))
    ensures
        r.0@ == reserve_all(blocks@, session),
        r.1@ == missing_indices(blocks@),
{
    let mut out: Vec<Block> = Vec::new();
    let mut ks: Vec<usize> = Vec::new();
    let mut k: usize = 0;
    while k < blocks.len()
        invariant
            k <= blocks@.len(),
            out@ == reserve_all(blocks@.subrange(0, k as int), session),
            ks@ == missing_indices(blocks@.subrange(0, k as int)),
        decreases blocks@.len() - k,
    {
        let b = blocks[k];
        let ghost pre = blocks@.subrange(0, k as int);
        let ghost next = blocks@.subrange(0, k + 1);
        assert(next.drop_last() =~= pre);
        if b.state == BlockState::Missing {
            out.push(Block { offset: b.offset, length: b.length, state: BlockState::Reserved { session } });
            ks.push(k);
        } else {
            out.push(b);
        }
        k = k + 1;
        assert(out@ =~= reserve_all(next, session));
    }
    assert(blocks@.subrange(0, k as int) =~= blocks@);
    (out, ks)
}

/// The blocks with those reserved for `session` made missing again.
fn release_blocks(blocks: &Vec<Block>, session: u64) -> (r: Vec<Block>)
    ensures
        r@ == release_all(blocks@, session),
{
    let mut out: Vec<Block> = Vec::new();
    let mut k: usize = 0;
    while k < blocks.len()
        invariant
            k <= blocks@.len(),
            out@ == release_all(blocks@.subrange(0, k as int), session),
        decreases blocks@.len() - k,
    {
        let b = blocks[k];
        if b.state == (BlockState::Reserved { session }) {
            out.push(Block { offset: b.offset, length: b.length, state: BlockState::Missing });
        } else {
            out.push(b);
        }
        k = k + 1;
        assert(out@ =~= release_all(blocks@.subrange(0, k as int), session));
    }
    assert(blocks@.subrange(0, k as int) =~= blocks@);
    out
}

/// The blocks, all set to `st`.
fn set_blocks(blocks: &Vec<Block>, st: BlockState) -> (r: Vec<Block>)
    ensures
        r@ == set_all(blocks@, st),
{
    let mut out: Vec<Block> = Vec::new();
    let mut k: usize = 0;
    while k < blocks.len()
        invariant
            k <= blocks@.len(),
            out@ == set_all(blocks@.subrange(0, k as int), st),
        decreases blocks@.len() - k,
    {
        let b = blocks[k];
        out.push(Block { offset: b.offset, length: b.length, state: st });
        k = k + 1;
        assert(out@ =~= set_all(blocks@.subrange(0, k as int), st));
    }
    assert(blocks@.subrange(0, k as int) =~= blocks@);
    out
}

/// Whether every block is present.
fn blocks_all_present(blocks: &Vec<Block>) -> (r: bool)
    ensures
        r == all_present(blocks@),
{
    let mut k: usize = 0;
    while k < blocks.len()
        invariant
            k <= blocks@.len(),
            forall|j: int| 0 <= j < k ==> #[trigger] blocks@[j].state == BlockState::Present,
        decreases blocks@.len() - k,
    {
        if blocks[k].state != BlockState::Present {
            return false;
        }
        k = k + 1;
    }
    true
}

/// Whether some block is missing.
fn blocks_have_missing(blocks: &Vec<Block>) -> (r: bool)
    ensures
        r == has_missing(blocks@),
{
    let mut k: usize = 0;
    while k < blocks.len()
        invariant
            k <= blocks@.len(),
            forall|j: int| 0 <= j < k ==> #[trigger] blocks@[j].state != BlockState::Missing,
        decreases blocks@.len() - k,
    {
        if blocks[k].state == BlockState::Missing {
            return true;
        }
        k = k + 1;
    }
    false
}

impl Scheduler {
    /// Whether every byte of the payload has been counted as downloaded.
    pub fn is_done(&self) -> (r: bool)
        ensures
            r == (self.downloaded == self.total_length),
    {
        self.downloaded == self.total_length
    }

    /// Whether every piece has passed its hash check.
    pub fn is_complete(&self) -> (r: bool)
        ensures
            r == forall|i: int| 0 <= i < self.pieces@.len() ==> (#[trigger] self.pieces@[i]).verified,
    {
        let mut i: usize = 0;
        while i < self.pieces.len()
            invariant
                i <= self.pieces@.len(),
                forall|j: int| 0 <= j < i ==> (#[trigger] self.pieces@[j]).verified,
            decreases self.pieces@.len() - i,
        {
            if !self.pieces[i].verified {
                return false;
            }
            i = i + 1;
        }
        true
    }

    /// Number of pieces.
    pub fn piece_total(&self) -> (r: usize)
        ensures
            r == self.pieces@.len(),
    {
        self.pieces.len()
    }

    /// Records that one more peer holds piece `i`; the count stops at `u64::MAX`.
    pub fn increment_rarity(&mut self, i: usize)
        requires
            old(self).wf(),
            i < old(self).pieces@.len(),
        ensures
            final(self).wf(),
            final(self).downloaded == old(self).downloaded,
            same_layout(*old(self), *final(self)),
            forall|j: int|
                #![trigger final(self).pieces@[j]]
                0 <= j < old(self).pieces@.len() && j != i ==> final(self).pieces@[j] == old(
                    self,
                ).pieces@[j],
            final(self).pieces@[i as int].blocks@ == old(self).pieces@[i as int].blocks@,
            final(self).pieces@[i as int].verified == old(self).pieces@[i as int].verified,
            final(self).pieces@[i as int].rarity == if old(self).pieces@[i as int].rarity < u64::MAX {
                old(self).pieces@[i as int].rarity + 1
            } else {
                old(self).pieces@[i as int].rarity as int
            },
    {
        let ghost ps = self.pieces@;
        let r = self.pieces[i].rarity;
        if r < u64::MAX {
            self.pieces[i].rarity = r + 1;
        }
        proof {
            lemma_total_update(ps, i as int, self.pieces@[i as int]);
            assert(ps.update(i as int, self.pieces@[i as int]) =~= self.pieces@);
        }
    }

    /// Picks the rarest piece that the peer with `bitfield` holds and that still has a
    /// missing block, the lowest index among equally rare ones, and reserves every missing
    /// block of it for `session`. Gives the piece and the reserved block indices, or `None`
    /// when the peer has nothing left to offer.
    pub fn reserve_rarest_for(&mut self, session: u64, bitfield: &Vec<bool>) -> (r: Option<
        (usize, Vec<usize>),
    >)
        requires
            old(self).wf(),
            bitfield@.len() == old(self).pieces@.len(),
        ensures
            final(self).wf(),
            final(self).downloaded == old(self).downloaded,
            r is None <==> forall|j: int| !eligible(old(self).pieces@, bitfield@, j),
            r is None ==> final(self).pieces@ == old(self).pieces@,
            r matches Some((i, ks)) ==> {
                &&& is_rarest(old(self).pieces@, bitfield@, i as int)
                &&& others_unchanged(*old(self), *final(self), i as int)
                &&& final(self).pieces@[i as int].verified == old(self).pieces@[i as int].verified
                &&& final(self).pieces@[i as int].blocks@ == reserve_all(
                    old(self).pieces@[i as int].blocks@,
                    session,
                )
                &&& ks@ == missing_indices(old(self).pieces@[i as int].blocks@)
            },
    {
        let ghost ps = self.pieces@;
        let mut best: Option<usize> = None;
        let mut j: usize = 0;
        while j < self.pieces.len()
            invariant
                self.pieces@ == ps,
                bitfield@.len() == ps.len(),
                j <= ps.len(),
                best is None ==> forall|m: int| 0 <= m < j ==> !eligible(ps, bitfield@, m),
                best matches Some(b) ==> {
                    &&& b < j
                    &&& eligible(ps, bitfield@, b as int)
                    &&& forall|m: int|
                        #![trigger eligible(ps, bitfield@, m)]
                        0 <= m < j && eligible(ps, bitfield@, m) ==> ps[b as int].rarity
                            < ps[m].rarity || (ps[b as int].rarity == ps[m].rarity && b <= m)
                },
            decreases ps.len() - j,
        {
            if bitfield[j] {
                let better = match best {
                    None => true,
                    Some(b) => self.pieces[j].rarity < self.pieces[b].rarity,
                };
                if better && blocks_have_missing(&self.pieces[j].blocks) {
                    best = Some(j);
                }
            }
            j = j + 1;
        }
        match best {
            None => None,
            Some(i) => {
                let (nb, ks) = reserve_blocks(&self.pieces[i].blocks, session);
                let ghost old_blocks = ps[i as int].blocks@;
                self.pieces[i].blocks = nb;
                proof {
                    let p = self.pieces@[i as int];
                    assert(ps.update(i as int, p) =~= self.pieces@);
                    assert(piece_wf(ps[i as int], i as int));
                    lemma_tiles_states(old_blocks, p.blocks@, p.offset as int, p.length as int);
                    lemma_same_present_map(old_blocks, p.blocks@);
                    lemma_total_update(ps, i as int, p);
                    if p.verified {
                        assert forall|k: int| 0 <= k < p.blocks@.len() implies #[trigger] p.blocks@[k].state
                            == BlockState::Present by {
                            assert(old_blocks[k].state == BlockState::Present);
                        }
                    }
                    assert(piece_wf(p, i as int));
                    assert forall|m: int| 0 <= m < self.pieces@.len() implies piece_wf(
                        #[trigger] self.pieces@[m],
                        m,
                    ) by {
                        if m != i {
                            assert(self.pieces@[m] == ps[m]);
                        }
                    }
                }
                Some((i, ks))
            },
        }
    }

    /// Marks block `k` of piece `i` present when `session` holds it, and counts its bytes.
    /// Gives whether the block was accepted.
    pub fn complete_block(&mut self, session: u64, i: usize, k: usize) -> (r: bool)
        requires
            old(self).wf(),
            i < old(self).pieces@.len(),
            k < old(self).pieces@[i as int].blocks@.len(),
        ensures
            final(self).wf(),
            r == (old(self).pieces@[i as int].blocks@[k as int].state == (BlockState::Reserved {
                session,
            })),
            !r ==> final(self).pieces@ == old(self).pieces@ && final(self).downloaded == old(
                self,
            ).downloaded,
            r ==> {
                &&& others_unchanged(*old(self), *final(self), i as int)
                &&& final(self).pieces@[i as int].verified == old(self).pieces@[i as int].verified
                &&& final(self).pieces@[i as int].blocks@ == old(self).pieces@[i as int].blocks@.update(
                    k as int,
                    with_state(old(self).pieces@[i as int].blocks@[k as int], BlockState::Present),
                )
                &&& final(self).downloaded == old(self).downloaded + old(self).pieces@[i as int].blocks@[k as int].length
            },
    {
        let ghost ps = self.pieces@;
        let b = self.pieces[i].blocks[k];
        if b.state != (BlockState::Reserved { session }) {
            return false;
        }
        proof {
            assert(piece_wf(ps[i as int], i as int));
            lemma_downloaded_bounded(self);
            lemma_present_bounded(ps[i as int].blocks@);
            lemma_sum_lengths_span(ps[i as int].blocks@, ps[i as int].offset as int, ps[i as int].length as int);
            lemma_present_update(ps[i as int].blocks@, k as int, with_state(b, BlockState::Present));
            assert(!ps[i as int].verified);
        }
        self.pieces[i].blocks[k].state = BlockState::Present;
        proof {
            let p = self.pieces@[i as int];
            assert(p.blocks@ =~= ps[i as int].blocks@.update(k as int, with_state(b, BlockState::Present)));
            lemma_total_update(ps, i as int, p);
            assert forall|m: int| 0 <= m < self.pieces@.len() implies piece_wf(
                #[trigger] self.pieces@[m], 0 + m) by {
                if m != i {
                    assert(self.pieces@[m] == ps[m]);
                } else {
                    lemma_tiles_states(ps[i as int].blocks@, p.blocks@, p.offset as int, p.length as int);
                }
            }
            assert(ps.update(i as int, p) =~= self.pieces@);
            assert(pieces_tile(self.pieces@, self.total_length as int, self.piece_length as int)) by {
                assert forall|m: int| 0 <= m < self.pieces@.len() implies #[trigger] self.pieces@[m] == ps[m]
                    || m == i by {}
            }
            lemma_total_bounded(self.pieces@, 0);
            lemma_piece_lengths_span(self.pieces@, self.total_length as int, self.piece_length as int);
        }
        self.downloaded = self.downloaded + b.length;
        proof {
            assert forall|m: int| 0 <= m < self.pieces@.len() implies piece_wf(
                #[trigger] self.pieces@[m], m) by {
                assert(piece_wf(self.pieces@[m], 0 + m));
            }
        }
        true
    }
}

/// What settling piece `i` with `digest` does: a digest equal to the expected one marks it
/// verified; any other makes every block missing again and takes the piece's length off
/// the counter; a piece with a block not yet present is left as it is. `r` tells whether
/// the piece is verified afterwards.
pub open spec fn finalise_post(sa: Scheduler, sb: Scheduler, i: int, digest: Seq<u8>, r: bool) -> bool {
    let p = sa.pieces@[i];
    &&& others_unchanged(sa, sb, i)
    &&& r == (all_present(p.blocks@) && (p.verified || digest == p.hash@))
    &&& r ==> sb.pieces@[i].verified && sb.pieces@[i].blocks@ == p.blocks@ && sb.downloaded
        == sa.downloaded
    &&& !r && !all_present(p.blocks@) ==> sb.pieces@ == sa.pieces@ && sb.downloaded
        == sa.downloaded
    &&& !r && all_present(p.blocks@) ==> {
        &&& !sb.pieces@[i].verified
        &&& sb.pieces@[i].blocks@ == set_all(p.blocks@, BlockState::Missing)
        &&& sb.downloaded == sa.downloaded - p.length
    }
}

impl Scheduler {
    /// Makes every block of piece `i` that `session` holds missing again.
    pub fn release_reservation(&mut self, session: u64, i: usize)
        requires
            old(self).wf(),
            i < old(self).pieces@.len(),
        ensures
            final(self).wf(),
            final(self).downloaded == old(self).downloaded,
            others_unchanged(*old(self), *final(self), i as int),
            final(self).pieces@[i as int].verified == old(self).pieces@[i as int].verified,
            final(self).pieces@[i as int].blocks@ == release_all(
                old(self).pieces@[i as int].blocks@,
                session,
            ),
    {
        let ghost ps = self.pieces@;
        let nb = release_blocks(&self.pieces[i].blocks, session);
        let ghost old_blocks = ps[i as int].blocks@;
        self.pieces[i].blocks = nb;
        proof {
            let p = self.pieces@[i as int];
            assert(ps.update(i as int, p) =~= self.pieces@);
            assert(piece_wf(ps[i as int], i as int));
            lemma_tiles_states(old_blocks, p.blocks@, p.offset as int, p.length as int);
            lemma_same_present_map(old_blocks, p.blocks@);
            lemma_total_update(ps, i as int, p);
            if p.verified {
                assert forall|k: int| 0 <= k < p.blocks@.len() implies #[trigger] p.blocks@[k].state
                    == BlockState::Present by {
                    assert(old_blocks[k].state == BlockState::Present);
                }
            }
            assert forall|m: int| 0 <= m < self.pieces@.len() implies piece_wf(
                #[trigger] self.pieces@[m],
                m,
            ) by {
                if m != i {
                    assert(self.pieces@[m] == ps[m]);
                }
            }
        }
    }

    /// Settles piece `i` once all of its blocks are present, given the digest of its bytes:
    /// a digest equal to the expected one marks it verified; any other makes every block
    /// missing again and takes the piece's length off the counter. Gives whether the piece
    /// is verified afterwards; a piece with a block not yet present is left as it is.
    pub fn finalise_with_digest(&mut self, i: usize, digest: &[u8; 20]) -> (r: bool)
        requires
            old(self).wf(),
            i < old(self).pieces@.len(),
        ensures
            final(self).wf(),
            finalise_post(*old(self), *final(self), i as int, digest@, r),
    {
        let ghost ps = self.pieces@;
        proof {
            assert(piece_wf(ps[i as int], i as int));
        }
        if !blocks_all_present(&self.pieces[i].blocks) {
            return false;
        }
        if self.pieces[i].verified {
            return true;
        }
        if bytes_equal(digest, &self.pieces[i].hash) {
            self.pieces[i].verified = true;
            proof {
                let p = self.pieces@[i as int];
                assert(ps.update(i as int, p) =~= self.pieces@);
                lemma_total_update(ps, i as int, p);
                assert forall|m: int| 0 <= m < self.pieces@.len() implies piece_wf(
                    #[trigger] self.pieces@[m],
                    m,
                ) by {
                    if m != i {
                        assert(self.pieces@[m] == ps[m]);
                    }
                }
            }
            return true;
        }
        let nb = set_blocks(&self.pieces[i].blocks, BlockState::Missing);
        let ghost old_blocks = ps[i as int].blocks@;
        proof {
            lemma_present_bounded(old_blocks);
            lemma_sum_lengths_span(old_blocks, ps[i as int].offset as int, ps[i as int].length as int);
            lemma_total_bounded(ps, 0);
            lemma_total_update(ps, i as int, ps[i as int]);
            assert(ps.update(i as int, ps[i as int]) =~= ps);
            assert forall|m: int| 0 <= m < ps.len() implies piece_wf(#[trigger] ps[m], 0 + m) by {
                assert(piece_wf(ps[m], m));
            }
        }
        self.pieces[i].blocks = nb;
        proof {
            let p = self.pieces@[i as int];
            assert(ps.update(i as int, p) =~= self.pieces@);
            lemma_tiles_states(old_blocks, p.blocks@, p.offset as int, p.length as int);
            lemma_zero_present(p.blocks@);
            lemma_total_update(ps, i as int, p);
            lemma_total_nonneg_parts(ps, i as int);
        }
        self.downloaded = self.downloaded - self.pieces[i].length;
        proof {
            assert forall|m: int| 0 <= m < self.pieces@.len() implies piece_wf(
                #[trigger] self.pieces@[m],
                m,
            ) by {
                if m != i {
                    assert(self.pieces@[m] == ps[m]);
                }
            }
        }
        false
    }

    /// Settles piece `i` from its bytes as read back from storage: their SHA-1 digest decides,
    /// as [`Scheduler::finalise_with_digest`] describes.
    pub fn verify_and_finalise(&mut self, i: usize, data: &[u8]) -> (r: bool)
        requires
            old(self).wf(),
            i < old(self).pieces@.len(),
        ensures
            final(self).wf(),
            finalise_post(*old(self), *final(self), i as int, sha1_of(data@), r),
    {
        let digest = sha1_digest(data);
        self.finalise_with_digest(i, &digest)
    }

    /// Takes over piece `i` from bytes already in storage, given their digest: when it
    /// equals the expected one every block becomes present, the piece verified, and the
    /// counter grows by the bytes that were not yet counted. Gives whether it matched.
    pub fn resume_with_digest(&mut self, i: usize, digest: &[u8; 20]) -> (r: bool)
        requires
            old(self).wf(),
            i < old(self).pieces@.len(),
        ensures
            final(self).wf(),
            others_unchanged(*old(self), *final(self), i as int),
            r == (digest@ == old(self).pieces@[i as int].hash@),
            !r ==> final(self).pieces@ == old(self).pieces@ && final(self).downloaded == old(
                self,
            ).downloaded,
            r ==> {
                &&& final(self).pieces@[i as int].verified
                &&& final(self).pieces@[i as int].blocks@ == set_all(
                    old(self).pieces@[i as int].blocks@,
                    BlockState::Present,
                )
                &&& final(self).downloaded == old(self).downloaded + old(self).pieces@[i as int].length
                    - present_bytes(old(self).pieces@[i as int].blocks@)
            },
    {
        let ghost ps = self.pieces@;
        if !bytes_equal(digest, &self.pieces[i].hash) {
            return false;
        }
        let nb = set_blocks(&self.pieces[i].blocks, BlockState::Present);
        let ghost old_blocks = ps[i as int].blocks@;
        proof {
            assert(piece_wf(ps[i as int], i as int));
            lemma_present_bounded(old_blocks);
            lemma_sum_lengths_span(old_blocks, ps[i as int].offset as int, ps[i as int].length as int);
        }
        let delta = self.pieces[i].length - present_bytes_exec(&self.pieces[i].blocks);
        self.pieces[i].blocks = nb;
        self.pieces[i].verified = true;
        proof {
            let p = self.pieces@[i as int];
            assert(ps.update(i as int, p) =~= self.pieces@);
            lemma_tiles_states(old_blocks, p.blocks@, p.offset as int, p.length as int);
            lemma_present_bounded(p.blocks@);
            lemma_sum_lengths_span(p.blocks@, p.offset as int, p.length as int);
            lemma_total_update(ps, i as int, p);
            assert forall|m: int| 0 <= m < self.pieces@.len() implies piece_wf(
                #[trigger] self.pieces@[m],
                0 + m,
            ) by {
                if m != i {
                    assert(self.pieces@[m] == ps[m]);
                }
            }
            lemma_total_bounded(self.pieces@, 0);
            lemma_piece_lengths_span(self.pieces@, self.total_length as int, self.piece_length as int);
        }
        self.downloaded = self.downloaded + delta;
        proof {
            assert forall|m: int| 0 <= m < self.pieces@.len() implies piece_wf(
                #[trigger] self.pieces@[m],
                m,
            ) by {
                assert(piece_wf(self.pieces@[m], 0 + m));
            }
        }
        true
    }

    /// Takes over piece `i` from its bytes as read back from storage, by their SHA-1 digest,
    /// as [`Scheduler::resume_with_digest`] describes.
    pub fn resume_piece(&mut self, i: usize, data: &[u8]) -> (r: bool)
        requires
            old(self).wf(),
            i < old(self).pieces@.len(),
        ensures
            final(self).wf(),
            others_unchanged(*old(self), *final(self), i as int),
            r == (sha1_of(data@) == old(self).pieces@[i as int].hash@),
            !r ==> final(self).pieces@ == old(self).pieces@ && final(self).downloaded == old(
                self,
            ).downloaded,
            r ==> {
                &&& final(self).pieces@[i as int].verified
                &&& final(self).pieces@[i as int].blocks@ == set_all(
                    old(self).pieces@[i as int].blocks@,
                    BlockState::Present,
                )
                &&& final(self).downloaded == old(self).downloaded + old(self).pieces@[i as int].length
                    - present_bytes(old(self).pieces@[i as int].blocks@)
            },
    {
        let digest = sha1_digest(data);
        self.resume_with_digest(i, &digest)
    }
}

/// The present bytes of the blocks.
fn present_bytes_exec(blocks: &Vec<Block>) -> (r: u64)
    requires
        forall|k: int| 0 <= k < blocks@.len() ==> 0 < #[trigger] blocks@[k].length,
        sum_lengths(blocks@) <= u64::MAX,
    ensures
        r == present_bytes(blocks@),
{
    let mut acc: u64 = 0;
    let mut k: usize = 0;
    while k < blocks.len()
        invariant
            k <= blocks@.len(),
            forall|j: int| 0 <= j < blocks@.len() ==> 0 < #[trigger] blocks@[j].length,
            sum_lengths(blocks@) <= u64::MAX,
            acc == present_bytes(blocks@.subrange(0, k as int)),
        decreases blocks@.len() - k,
    {
        let ghost pre = blocks@.subrange(0, k as int);
        let ghost next = blocks@.subrange(0, k + 1);
        assert(next.drop_last() =~= pre);
        proof {
            lemma_present_bounded(next);
            lemma_sum_prefix(blocks@, k + 1);
        }
        if blocks[k].state == BlockState::Present {
            acc = acc + blocks[k].length;
        }
        k = k + 1;
    }
    assert(blocks@.subrange(0, k as int) =~= blocks@);
    acc
}

/// A prefix's lengths sum to no more than the whole.
proof fn lemma_sum_prefix(s: Seq<Block>, n: int)
    requires
        0 <= n <= s.len(),
        forall|k: int| 0 <= k < s.len() ==> 0 < #[trigger] s[k].length,
    ensures
        sum_lengths(s.subrange(0, n)) <= sum_lengths(s),
    decreases s.len(),
{
    if n < s.len() {
        let t = s.drop_last();
        assert forall|k: int| 0 <= k < t.len() implies 0 < #[trigger] t[k].length by {
            assert(t[k] == s[k]);
        }
        lemma_sum_prefix(t, n);
        assert(t.subrange(0, n) =~= s.subrange(0, n));
        assert(s[s.len() - 1].length > 0);
    } else {
        assert(s.subrange(0, n) =~= s);
    }
}

/// Piece `i`'s present bytes are part of the total.
proof fn lemma_total_nonneg_parts(ps: Seq<Piece>, i: int)
    requires
        0 <= i < ps.len(),
        forall|m: int| 0 <= m < ps.len() ==> piece_wf(#[trigger] ps[m], m),
    ensures
        present_bytes(ps[i].blocks@) <= total_present(ps),
    decreases ps.len(),
{
    let t = ps.drop_last();
    assert forall|m: int| 0 <= m < t.len() implies piece_wf(#[trigger] t[m], 0 + m) by {
        assert(t[m] == ps[m]);
    }
    lemma_total_bounded(t, 0);
    let last = ps[ps.len() - 1];
    assert(piece_wf(last, ps.len() - 1));
    lemma_present_bounded(last.blocks@);
    if i < ps.len() - 1 {
        assert forall|m: int| 0 <= m < t.len() implies piece_wf(#[trigger] t[m], m) by {
            assert(t[m] == ps[m]);
        }
        lemma_total_nonneg_parts(t, i);
        assert(t[i] == ps[i]);
    }
}

/// Every piece's blocks tile its byte range exactly: their lengths sum to the piece's
/// length and each block starts where the one before it ends.
pub proof fn lemma_piece_tiling(s: &Scheduler, i: int)
    requires
        s.wf(),
        0 <= i < s.pieces@.len(),
    ensures
        sum_lengths(s.pieces@[i].blocks@) == s.pieces@[i].length,
        s.pieces@[i].blocks@[0].offset == s.pieces@[i].offset,
        forall|k: int|
            0 <= k < s.pieces@[i].blocks@.len() - 1 ==> (#[trigger] s.pieces@[i].blocks@[k + 1]).offset
                == s.pieces@[i].blocks@[k].offset + s.pieces@[i].blocks@[k].length,
{
    let p = s.pieces@[i];
    assert(piece_wf(p, i));
    lemma_sum_lengths_span(p.blocks@, p.offset as int, p.length as int);
    assert forall|k: int| 0 <= k < p.blocks@.len() - 1 implies (#[trigger] p.blocks@[k + 1]).offset
        == p.blocks@[k].offset + p.blocks@[k].length by {
        assert(p.blocks@[k].offset + p.blocks@[k].length == p.blocks@[k + 1].offset);
    }
}

/// A reservation never takes a block from another session: reserving for `session` leaves
/// every block that is not missing (held by another session, or present) as it was, and
/// gives `session` exactly the missing ones.
pub proof fn lemma_reserve_exclusive(s: Seq<Block>, session: u64, k: int)
    requires
        0 <= k < s.len(),
    ensures
        s[k].state != BlockState::Missing ==> reserve_all(s, session)[k] == s[k],
        s[k].state == BlockState::Missing ==> reserve_all(s, session)[k].state
            == (BlockState::Reserved { session }),
        reserve_all(s, session)[k].offset == s[k].offset,
        reserve_all(s, session)[k].length == s[k].length,
{
}

/// Releasing for `session` gives back only its own blocks: every block held by another
/// session, missing or present stays as it was.
pub proof fn lemma_release_own_only(s: Seq<Block>, session: u64, k: int)
    requires
        0 <= k < s.len(),
    ensures
        s[k].state != (BlockState::Reserved { session }) ==> release_all(s, session)[k] == s[k],
        s[k].state == (BlockState::Reserved { session }) ==> release_all(s, session)[k].state
            == BlockState::Missing,
{
}

/// Settling a piece never lowers the counter, except on a failed check of a piece whose
/// blocks were all present, and then by exactly that piece's length, with all its blocks
/// missing again.
pub proof fn lemma_counter_drops_only_on_failed_check(
    sa: Scheduler,
    sb: Scheduler,
    i: int,
    digest: Seq<u8>,
    r: bool,
)
    requires
        sa.wf(),
        0 <= i < sa.pieces@.len(),
        finalise_post(sa, sb, i, digest, r),
    ensures
        sb.downloaded == sa.downloaded || {
            &&& all_present(sa.pieces@[i].blocks@)
            &&& !sa.pieces@[i].verified
            &&& digest != sa.pieces@[i].hash@
            &&& sb.downloaded == sa.downloaded - sa.pieces@[i].length
            &&& all_missing(sb.pieces@[i].blocks@)
            &&& !sb.pieces@[i].verified
        },
{
}

/// A piece of which nothing was counted, whose blocks then all arrive, and which then fails
/// its hash check, leaves the counter where it was before the first block arrived: the
/// blocks were credited the piece's length in all, and the failed check took exactly that
/// back. Its blocks are all missing again and it is not verified.
pub proof fn lemma_failed_piece_restores_counter(
    s0: Scheduler,
    s1: Scheduler,
    s2: Scheduler,
    i: int,
    digest: Seq<u8>,
    r: bool,
)
    requires
        s0.wf(),
        s1.wf(),
        0 <= i < s0.pieces@.len(),
        present_bytes(s0.pieces@[i].blocks@) == 0,
        others_unchanged(s0, s1, i),
        all_present(s1.pieces@[i].blocks@),
        !s1.pieces@[i].verified,
        digest != s1.pieces@[i].hash@,
        finalise_post(s1, s2, i, digest, r),
    ensures
        s1.downloaded == s0.downloaded + s0.pieces@[i].length,
        s2.downloaded == s0.downloaded,
        all_missing(s2.pieces@[i].blocks@),
        !s2.pieces@[i].verified,
{
    let p1 = s1.pieces@[i];
    assert(s1.pieces@ =~= s0.pieces@.update(i, p1)) by {
        assert forall|j: int| 0 <= j < s1.pieces@.len() implies s1.pieces@[j] == s0.pieces@.update(
            i,
            p1,
        )[j] by {
            if j != i {
                assert(s1.pieces@[j] == s0.pieces@[j]);
            }
        }
    }
    lemma_total_update(s0.pieces@, i, p1);
    assert(piece_wf(p1, i));
    lemma_present_bounded(p1.blocks@);
    lemma_sum_lengths_span(p1.blocks@, p1.offset as int, p1.length as int);
    assert forall|k: int| 0 <= k < s2.pieces@[i].blocks@.len() implies #[trigger] s2.pieces@[i].blocks@[k].state
        == BlockState::Missing by {
        assert(s2.pieces@[i].blocks@ == set_all(p1.blocks@, BlockState::Missing));
    }
}

/// Once the counter reaches the payload length and no piece awaits its hash check, every
/// piece is verified.
pub proof fn lemma_completion(s: &Scheduler)
    requires
        s.wf(),
        s.downloaded == s.total_length,
        forall|i: int| 0 <= i < s.pieces@.len() ==> !awaits_check(#[trigger] s.pieces@[i]),
    ensures
        forall|i: int| 0 <= i < s.pieces@.len() ==> (#[trigger] s.pieces@[i]).verified,
{
    lemma_downloaded_bounded(s);
    assert forall|i: int| 0 <= i < s.pieces@.len() implies (#[trigger] s.pieces@[i]).verified by {
        assert(all_present(s.pieces@[i].blocks@));
        assert(!awaits_check(s.pieces@[i]));
    }
}

/// Pieces whose blocks are all missing have no present bytes.
proof fn lemma_zero_total(ps: Seq<Piece>)
    requires
        forall|i: int| 0 <= i < ps.len() ==> all_missing(#[trigger] ps[i].blocks@),
    ensures
        total_present(ps) == 0,
    decreases ps.len(),
{
    if ps.len() > 0 {
        let t = ps.drop_last();
        assert forall|i: int| 0 <= i < t.len() implies all_missing(#[trigger] t[i].blocks@) by {
            assert(t[i] == ps[i]);
        }
        lemma_zero_total(t);
        lemma_zero_present(ps.last().blocks@);
    }
}

/// Blocks that are all missing have no present bytes.
proof fn lemma_zero_present(s: Seq<Block>)
    requires
        all_missing(s),
    ensures
        present_bytes(s) == 0,
    decreases s.len(),
{
    if s.len() > 0 {
        let t = s.drop_last();
        assert forall|k: int| 0 <= k < t.len() implies #[trigger] t[k].state
            == BlockState::Missing by {
            assert(t[k] == s[k]);
        }
        lemma_zero_present(t);
    }
}

} // verus!
