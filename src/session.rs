use vstd::prelude::*;

use crate::digest::sha1_of;
use crate::message::{bit_set, decode_bitfield, fits_bits, Message};
use crate::scheduler::{
    all_present, eligible, finalise_post, is_rarest, lemma_missing_indices_bounded, missing_indices, others_unchanged, reserve_all, same_layout,
    BlockState, Scheduler,
};

verus! {

/// What the connection must do next on behalf of a session.
#[derive(Debug)]
pub enum Action {
    /// Ask the peer for `length` bytes at `begin` within piece `index`.
    Request { index: u32, begin: u32, length: u32 },
    /// Store `data` at absolute payload offset `offset`.
    Write { offset: u64, data: Vec<u8> },
    /// Read piece `piece` back from storage and hand its bytes to `Session::finish_piece`.
    Verify { piece: usize },
    /// End the session; `Session::close` gives back what it holds.
    Close,
}

/// The state of one peer connection after its handshake.
#[derive(Debug)]
pub struct Session {
    pub id: u64,
    pub peer_bitfield: Vec<bool>,
    pub am_choked: bool,
    pub reserved_piece: Option<usize>,
}

/// A count raised by one, stopping at `u64::MAX`.
pub open spec fn bumped(r: u64) -> int {
    if r < u64::MAX {
        r + 1
    } else {
        r as int
    }
}

/// Only rarities may differ between the two schedulers.
pub open spec fn blocks_unchanged(a: Scheduler, b: Scheduler) -> bool {
    &&& same_layout(a, b)
    &&& a.downloaded == b.downloaded
    &&& forall|j: int|
        #![trigger b.pieces@[j]]
        0 <= j < a.pieces@.len() ==> b.pieces@[j].blocks@ == a.pieces@[j].blocks@
            && b.pieces@[j].verified == a.pieces@[j].verified
}

/// The requests for blocks `ks` of piece `i`, in order.
pub open spec fn requests_for(s: Scheduler, i: int, ks: Seq<usize>, acts: Seq<Action>) -> bool {
    &&& acts.len() == ks.len()
    &&& forall|m: int|
        #![trigger acts[m]]
        0 <= m < ks.len() ==> {
            let b = s.pieces@[i].blocks@[ks[m] as int];
            acts[m] == Action::Request {
                index: i as u32,
                begin: (b.offset - s.pieces@[i].offset) as u32,
                length: b.length as u32,
            }
        }
}

/// Block `k` of piece `i` can be asked for on the wire: its offset within the piece and its
/// length fit in 32 bits.
pub open spec fn request_fits(s: Scheduler, i: int, k: int) -> bool {
    let b = s.pieces@[i].blocks@[k];
    &&& b.offset >= s.pieces@[i].offset
    &&& b.offset - s.pieces@[i].offset <= u32::MAX
    &&& b.length <= u32::MAX
}

/// Piece `i` and every one of blocks `ks` can be asked for on the wire.
pub open spec fn wire_fits(s: Scheduler, i: int, ks: Seq<usize>) -> bool {
    &&& i <= u32::MAX
    &&& forall|m: int| 0 <= m < ks.len() ==> request_fits(s, i, #[trigger] ks[m] as int)
}

/// What [`Session::on_have`] does.
pub open spec fn have_post(a: Session, sa: Scheduler, b: Session, sb: Scheduler, index: u32, r: bool) -> bool {
    &&& b.id == a.id
    &&& b.am_choked == a.am_choked
    &&& b.reserved_piece == a.reserved_piece
    &&& blocks_unchanged(sa, sb)
    &&& r == (index < sa.pieces@.len())
    &&& (b.peer_bitfield@ == if r {
        a.peer_bitfield@.update(index as int, true)
    } else {
        a.peer_bitfield@
    })
    &&& (forall|j: int|
        #![trigger sb.pieces@[j]]
        0 <= j < sa.pieces@.len() ==> sb.pieces@[j].rarity == if j == index
            && !a.peer_bitfield@[j] {
            bumped(sa.pieces@[j].rarity)
        } else {
            sa.pieces@[j].rarity as int
        })
}

/// What [`Session::on_bitfield`] does.
pub open spec fn bitfield_post(a: Session, sa: Scheduler, b: Session, sb: Scheduler, payload: Seq<u8>, r: bool) -> bool {
    &&& b.id == a.id
    &&& b.am_choked == a.am_choked
    &&& b.reserved_piece == a.reserved_piece
    &&& blocks_unchanged(sa, sb)
    &&& r == fits_bits(payload.len() as int, sa.pieces@.len() as int)
    &&& !r ==> b.peer_bitfield@ == a.peer_bitfield@ && sb.pieces@ == sa.pieces@
    &&& r ==> forall|j: int|
        #![trigger b.peer_bitfield@[j]]
        0 <= j < sa.pieces@.len() ==> b.peer_bitfield@[j] == (a.peer_bitfield@[j] || bit_set(
            payload,
            j,
        ))
    &&& r ==> forall|j: int|
        #![trigger sb.pieces@[j]]
        0 <= j < sa.pieces@.len() ==> sb.pieces@[j].rarity == if bit_set(payload, j)
            && !a.peer_bitfield@[j] {
            bumped(sa.pieces@[j].rarity)
        } else {
            sa.pieces@[j].rarity as int
        }
}

/// What [`Session::reserve_next`] does.
pub open spec fn reserve_post(a: Session, sa: Scheduler, b: Session, sb: Scheduler, r: Seq<Action>) -> bool {
    &&& b.id == a.id
    &&& b.am_choked == a.am_choked
    &&& b.peer_bitfield@ == a.peer_bitfield@
    &&& sb.downloaded == sa.downloaded
    &&& a.am_choked || a.reserved_piece is Some ==> r.len() == 0 && b.reserved_piece
        == a.reserved_piece && sb.pieces@ == sa.pieces@
    &&& !a.am_choked && a.reserved_piece is None ==> {
        ||| {
            &&& forall|j: int| !eligible(sa.pieces@, a.peer_bitfield@, j)
            &&& r == seq![Action::Close]
            &&& b.reserved_piece is None
            &&& sb.pieces@ == sa.pieces@
        }
        ||| exists|i: usize|
            {
                &&& b.reserved_piece == Some(i)
                &&& is_rarest(sa.pieces@, a.peer_bitfield@, i as int)
                &&& others_unchanged(sa, sb, i as int)
                &&& sb.pieces@[i as int].blocks@ == reserve_all(sa.pieces@[i as int].blocks@, a.id)
                &&& if wire_fits(sa, i as int, missing_indices(sa.pieces@[i as int].blocks@)) {
                    requests_for(sa, i as int, missing_indices(sa.pieces@[i as int].blocks@), r)
                } else {
                    r == seq![Action::Close]
                }
            }
    }
}

/// What [`Session::on_piece`] does.
pub open spec fn piece_post(
    a: Session,
    sa: Scheduler,
    b: Session,
    sb: Scheduler,
    index: u32,
    begin: u32,
    block: Seq<u8>,
    r: Seq<Action>,
) -> bool {
    &&& b.id == a.id
    &&& b.am_choked == a.am_choked
    &&& b.reserved_piece == a.reserved_piece
    &&& b.peer_bitfield@ == a.peer_bitfield@
    &&& sb.downloaded >= sa.downloaded
    &&& r.len() == 0 ==> sb.pieces@ == sa.pieces@ && sb.downloaded == sa.downloaded
    &&& r.len() == 0 <==> !(a.reserved_piece == Some(index as usize) && exists|k: int|
        matches_block(sa, index as int, k, begin, block.len() as int, a.id))
    &&& r.len() > 0 ==> exists|k: int|
        {
            &&& matches_block(sa, index as int, k, begin, block.len() as int, a.id)
            &&& others_unchanged(sa, sb, index as int)
            &&& sb.pieces@[index as int].verified == sa.pieces@[index as int].verified
            &&& sb.pieces@[index as int].blocks@ == sa.pieces@[index as int].blocks@.update(
                k,
                crate::scheduler::with_state(
                    sa.pieces@[index as int].blocks@[k],
                    BlockState::Present,
                ),
            )
            &&& sb.downloaded == sa.downloaded + block.len()
            &&& r[0] matches Action::Write { offset, data } && offset
                == sa.pieces@[index as int].blocks@[k].offset && data@ == block
            &&& r.len() == 2 <==> all_present(sb.pieces@[index as int].blocks@)
            &&& r.len() == 2 ==> (r[1] matches Action::Verify { piece } && piece == index)
            &&& r.len() <= 2
        }
}

/// What [`Session::close`] does.
pub open spec fn close_post(a: Session, sa: Scheduler, b: Session, sb: Scheduler) -> bool {
    &&& b.id == a.id
    &&& b.am_choked == a.am_choked
    &&& b.peer_bitfield@ == a.peer_bitfield@
    &&& b.reserved_piece is None
    &&& sb.downloaded == sa.downloaded
    &&& a.reserved_piece is None ==> sb.pieces@ == sa.pieces@
    &&& (a.reserved_piece matches Some(i) ==> {
        &&& others_unchanged(sa, sb, i as int)
        &&& sb.pieces@[i as int].verified == sa.pieces@[i as int].verified
        &&& sb.pieces@[i as int].blocks@ == crate::scheduler::release_all(
            sa.pieces@[i as int].blocks@,
            a.id,
        )
    })
}

impl Session {
    /// The session and the scheduler agree on the number of pieces.
    pub open spec fn wf(&self, s: &Scheduler) -> bool {
        &&& s.wf()
        &&& self.peer_bitfield@.len() == s.pieces@.len()
        &&& self.reserved_piece matches Some(i) ==> i < s.pieces@.len()
    }

    /// A fresh session: choked, holding nothing, and knowing of no piece of the peer.
    pub fn new(id: u64, piece_count: usize) -> (r: Session)
        ensures
            r.id == id,
            r.am_choked,
            r.reserved_piece is None,
            r.peer_bitfield@ == Seq::new(piece_count as nat, |i: int| false),
    {
        let mut peer_bitfield: Vec<bool> = Vec::new();
        let mut i: usize = 0;
        while i < piece_count
            invariant
                i <= piece_count,
                peer_bitfield@ == Seq::new(i as nat, |k: int| false),
            decreases piece_count - i,
        {
            peer_bitfield.push(false);
            i = i + 1;
            assert(peer_bitfield@ =~= Seq::new(i as nat, |k: int| false));
        }
        Session { id, peer_bitfield, am_choked: true, reserved_piece: None }
    }

    /// The peer announced piece `index`: the first time, it is recorded and the piece's
    /// rarity grows. Gives `false` for an index past the last piece.
    pub fn on_have(&mut self, s: &mut Scheduler, index: u32) -> (r: bool)
        requires
            old(self).wf(old(s)),
        ensures
            final(self).wf(final(s)),
            have_post(*old(self), *old(s), *final(self), *final(s), index, r),
    {
        let i = index as usize;
        if i >= self.peer_bitfield.len() {
            return false;
        }
        if !self.peer_bitfield[i] {
            self.peer_bitfield.set(i, true);
            s.increment_rarity(i);
        } else {
            assert(self.peer_bitfield@ =~= old(self).peer_bitfield@.update(index as int, true));
        }
        true
    }

    /// The peer sent its bitfield: every piece it marks that was not yet known is recorded
    /// and its rarity grows. Gives `false` when the payload is not exactly as long as the
    /// number of pieces needs.
    pub fn on_bitfield(&mut self, s: &mut Scheduler, payload: &[u8]) -> (r: bool)
        requires
            old(self).wf(old(s)),
        ensures
            final(self).wf(final(s)),
            bitfield_post(*old(self), *old(s), *final(self), *final(s), payload@, r),
    {
        let n = self.peer_bitfield.len();
        let bits = match decode_bitfield(payload, n) {
            None => {
                return false;
            },
            Some(b) => b,
        };
        let ghost s0 = *s;
        let ghost bf0 = self.peer_bitfield@;
        let mut i: usize = 0;
        while i < n
            invariant
                i <= n,
                n == bf0.len(),
                self.peer_bitfield@.len() == n,
                s.pieces@.len() == n,
                self.wf(s),
                self.id == old(self).id,
                self.am_choked == old(self).am_choked,
                self.reserved_piece == old(self).reserved_piece,
                bits@.len() == n,
                forall|k: int| 0 <= k < n ==> #[trigger] bits@[k] == bit_set(payload@, k),
                blocks_unchanged(s0, *s),
                forall|j: int|
                    #![trigger self.peer_bitfield@[j]]
                    0 <= j < n ==> self.peer_bitfield@[j] == if j < i {
                        bf0[j] || bits@[j]
                    } else {
                        bf0[j]
                    },
                forall|j: int|
                    #![trigger s.pieces@[j]]
                    0 <= j < n ==> s.pieces@[j].rarity == if j < i && bits@[j] && !bf0[j] {
                        bumped(s0.pieces@[j].rarity)
                    } else {
                        s0.pieces@[j].rarity as int
                    },
            decreases n - i,
        {
            if bits[i] && !self.peer_bitfield[i] {
                self.peer_bitfield.set(i, true);
                s.increment_rarity(i);
            }
            i = i + 1;
        }
        true
    }

    /// Asks for work when the session may: unchoked and holding no piece. The rarest piece
    /// the peer offers is reserved and every one of its reserved blocks requested; with
    /// nothing to offer the session closes. Otherwise nothing happens. There is no endgame
    /// mode: a block in flight with one session is never requested from another, so the
    /// last blocks arrive as fast as the sessions holding them deliver.
    pub fn reserve_next(&mut self, s: &mut Scheduler) -> (r: Vec<Action>)
        requires
            old(self).wf(old(s)),
        ensures
            final(self).wf(final(s)),
            reserve_post(*old(self), *old(s), *final(self), *final(s), r@),
    {
        if self.am_choked || self.reserved_piece.is_some() {
            return Vec::new();
        }
        let ghost s0 = *s;
        match s.reserve_rarest_for(self.id, &self.peer_bitfield) {
            None => {
                let mut acts: Vec<Action> = Vec::new();
                acts.push(Action::Close);
                assert(acts@ =~= seq![Action::Close]);
                acts
            },
            Some((i, ks)) => {
                self.reserved_piece = Some(i);
                proof {
                    assert(s.pieces@[i as int].blocks@.len() == s0.pieces@[i as int].blocks@.len());
                    assert(s0.pieces@[i as int].blocks@.len() == s0.pieces@[i as int].blocks.len());
                    lemma_missing_indices_bounded(s0.pieces@[i as int].blocks@);
                }
                request_actions(s, i, &ks, Ghost(s0))
            },
        }
    }
}

/// Block `k` of piece `i` is the one at `begin` within the piece, `len` bytes long, and is
/// held by session `id`.
pub open spec fn matches_block(s: Scheduler, i: int, k: int, begin: u32, len: int, id: u64) -> bool {
    let b = s.pieces@[i].blocks@[k];
    &&& 0 <= k < s.pieces@[i].blocks@.len()
    &&& b.offset >= s.pieces@[i].offset
    &&& b.offset - s.pieces@[i].offset == begin
    &&& b.length == len
    &&& b.state == (BlockState::Reserved { session: id })
}

/// The block of piece `i` that a delivery of `len` bytes at `begin` answers, if any.
fn find_block(s: &Scheduler, i: usize, begin: u32, len: usize, id: u64) -> (r: Option<usize>)
    requires
        i < s.pieces@.len(),
    ensures
        r matches Some(k) ==> matches_block(*s, i as int, k as int, begin, len as int, id),
        r is None ==> forall|k: int| !matches_block(*s, i as int, k, begin, len as int, id),
{
    let start = s.pieces[i].offset;
    let mut k: usize = 0;
    while k < s.pieces[i].blocks.len()
        invariant
            i < s.pieces@.len(),
            start == s.pieces@[i as int].offset,
            k <= s.pieces@[i as int].blocks@.len(),
            forall|j: int| 0 <= j < k ==> !matches_block(*s, i as int, j, begin, len as int, id),
        decreases s.pieces@[i as int].blocks@.len() - k,
    {
        let b = s.pieces[i].blocks[k];
        if b.offset >= start && b.offset - start == begin as u64 && b.length == len as u64
            && b.state == (BlockState::Reserved { session: id }) {
            return Some(k);
        }
        k = k + 1;
    }
    None
}

impl Session {
    /// The peer delivered `block` at `begin` within piece `index`. When it answers a block
    /// this session holds, the block is counted as present and must be written at its
    /// offset; once every block of the piece is present the piece must be checked.
    /// Anything else is ignored.
    pub fn on_piece(&mut self, s: &mut Scheduler, index: u32, begin: u32, block: Vec<u8>) -> (r: Vec<Action>)
        requires
            old(self).wf(old(s)),
        ensures
            final(self).wf(final(s)),
            piece_post(*old(self), *old(s), *final(self), *final(s), index, begin, block@, r@),
    {
        let mut acts: Vec<Action> = Vec::new();
        let i = match self.reserved_piece {
            Some(i) => i,
            None => {
                return acts;
            },
        };
        if i != index as usize {
            return acts;
        }
        let k = match find_block(s, i, begin, block.len(), self.id) {
            Some(k) => k,
            None => {
                return acts;
            },
        };
        let offset = s.pieces[i].blocks[k].offset;
        let ghost s0 = *s;
        let accepted = s.complete_block(self.id, i, k);
        acts.push(Action::Write { offset, data: block });
        if blocks_all_present_of(s, i) {
            acts.push(Action::Verify { piece: i });
        }
        proof {
            assert(matches_block(s0, index as int, k as int, begin, block@.len() as int, self.id));
        }
        acts
    }

    /// Settles the piece this session holds, from its bytes as read back from storage, and
    /// lets go of it; then asks for more work as [`Session::reserve_next`] does. A failed
    /// check makes the piece's blocks missing again and takes its length off the counter.
    pub fn finish_piece(&mut self, s: &mut Scheduler, data: &[u8]) -> (r: Vec<Action>)
        requires
            old(self).wf(old(s)),
            old(self).reserved_piece is Some,
        ensures
            final(self).wf(final(s)),
            exists|ms: Scheduler, ok: bool|
                #![trigger finalise_post(*old(s), ms, old(self).reserved_piece->0 as int, sha1_of(data@), ok)]
                finalise_post(*old(s), ms, old(self).reserved_piece->0 as int, sha1_of(data@), ok)
                    && reserve_post(released(*old(self)), ms, *final(self), *final(s), r@),
            ({
                let p = old(s).pieces@[old(self).reserved_piece->0 as int];
                ||| final(s).downloaded == old(s).downloaded
                ||| all_present(p.blocks@) && !p.verified && sha1_of(data@) != p.hash@
                    && final(s).downloaded == old(s).downloaded - p.length
            }),
    {
        let i = match self.reserved_piece {
            Some(i) => i,
            None => {
                return Vec::new();
            },
        };
        let ghost sa = *s;
        let ok = s.verify_and_finalise(i, data);
        self.reserved_piece = None;
        let ghost ms = *s;
        assert(*self == released(*old(self)));
        let r = self.reserve_next(s);
        assert(finalise_post(sa, ms, i as int, sha1_of(data@), ok));
        r
    }

    /// Ends the session: every block it still holds becomes missing again.
    pub fn close(&mut self, s: &mut Scheduler)
        requires
            old(self).wf(old(s)),
        ensures
            final(self).wf(final(s)),
            close_post(*old(self), *old(s), *final(self), *final(s)),
    {
        if let Some(i) = self.reserved_piece {
            s.release_reservation(self.id, i);
        }
        self.reserved_piece = None;
    }

    /// Applies one message from the peer and gives what the connection must do next, as
    /// [`handle_post`] states: choke gives back the held piece; unchoke, have and bitfield
    /// may lead to new requests; a delivered block is counted and must be stored; a bad
    /// have or bitfield closes the session. The counter never goes down here.
    pub fn handle(&mut self, s: &mut Scheduler, msg: Message) -> (r: Vec<Action>)
        requires
            old(self).wf(old(s)),
        ensures
            final(self).wf(final(s)),
            final(s).downloaded >= old(s).downloaded,
            handle_post(*old(self), *old(s), msg, *final(self), *final(s), r@),
    {
        let ghost a = *self;
        let ghost sa = *s;
        match msg {
            Message::Choke { .. } => {
                self.am_choked = true;
                assert(*self == with_choked(a, true));
                self.close(s);
                Vec::new()
            },
            Message::Unchoke { .. } => {
                self.am_choked = false;
                assert(*self == with_choked(a, false));
                self.reserve_next(s)
            },
            Message::Have { piece_index, .. } => {
                if !self.on_have(s, piece_index) {
                    return close_only();
                }
                let ghost m = *self;
                let ghost ms = *s;
                let r = self.reserve_next(s);
                assert(have_post(a, sa, m, ms, piece_index, true) && reserve_post(m, ms, *self, *s, r@));
                r
            },
            Message::BitField { bitfield, .. } => {
                if !self.on_bitfield(s, bitfield.as_slice()) {
                    return close_only();
                }
                let ghost m = *self;
                let ghost ms = *s;
                let r = self.reserve_next(s);
                assert(bitfield_post(a, sa, m, ms, bitfield@, true) && reserve_post(m, ms, *self, *s, r@));
                r
            },
            Message::Piece { index, begin, block, .. } => {
                let ghost bv = block@;
                let mut acts = self.on_piece(s, index, begin, block);
                let ghost m = *self;
                let ghost ms = *s;
                let ghost r1 = acts@;
                let mut more = self.reserve_next(s);
                let ghost r2 = more@;
                acts.append(&mut more);
                assert(piece_post(a, sa, m, ms, index, begin, bv, r1) && reserve_post(m, ms, *self, *s, r2));
                assert(acts@ == r1 + r2);
                acts
            },
            _ => self.reserve_next(s),
        }
    }
}

/// The session holding no piece.
pub open spec fn released(a: Session) -> Session {
    Session { id: a.id, peer_bitfield: a.peer_bitfield, am_choked: a.am_choked, reserved_piece: None }
}

/// The session with its choke flag set to `c`.
pub open spec fn with_choked(a: Session, c: bool) -> Session {
    Session { id: a.id, peer_bitfield: a.peer_bitfield, am_choked: c, reserved_piece: a.reserved_piece }
}

/// What [`Session::handle`] does with message `msg`, going from session `a` and scheduler
/// `sa` to `b` and `sb` and giving actions `r`.
pub open spec fn handle_post(a: Session, sa: Scheduler, msg: Message, b: Session, sb: Scheduler, r: Seq<Action>) -> bool {
    match msg {
        Message::Choke { .. } => r.len() == 0 && close_post(with_choked(a, true), sa, b, sb),
        Message::Unchoke { .. } => reserve_post(with_choked(a, false), sa, b, sb, r),
        Message::Have { piece_index, .. } => if piece_index >= sa.pieces@.len() {
            r == seq![Action::Close] && have_post(a, sa, b, sb, piece_index, false)
        } else {
            exists|m: Session, ms: Scheduler|
                #[trigger] have_post(a, sa, m, ms, piece_index, true) && reserve_post(m, ms, b, sb, r)
        },
        Message::BitField { bitfield, .. } => if !fits_bits(bitfield@.len() as int, sa.pieces@.len() as int) {
            r == seq![Action::Close] && bitfield_post(a, sa, b, sb, bitfield@, false)
        } else {
            exists|m: Session, ms: Scheduler|
                #[trigger] bitfield_post(a, sa, m, ms, bitfield@, true) && reserve_post(m, ms, b, sb, r)
        },
        Message::Piece { index, begin, block, .. } => exists|
            m: Session,
            ms: Scheduler,
            r1: Seq<Action>,
            r2: Seq<Action>,
        |
            #![trigger piece_post(a, sa, m, ms, index, begin, block@, r1), reserve_post(m, ms, b, sb, r2)]
            piece_post(a, sa, m, ms, index, begin, block@, r1) && reserve_post(m, ms, b, sb, r2) && r
                == r1 + r2,
        _ => reserve_post(a, sa, b, sb, r),
    }
}

/// The single action that ends a session.
fn close_only() -> (r: Vec<Action>)
    ensures
        r@ == seq![Action::Close],
{
    let mut acts: Vec<Action> = Vec::new();
    acts.push(Action::Close);
    assert(acts@ =~= seq![Action::Close]);
    acts
}

/// Whether every block of piece `i` is present.
fn blocks_all_present_of(s: &Scheduler, i: usize) -> (r: bool)
    requires
        i < s.pieces@.len(),
    ensures
        r == all_present(s.pieces@[i as int].blocks@),
{
    let mut k: usize = 0;
    while k < s.pieces[i].blocks.len()
        invariant
            i < s.pieces@.len(),
            k <= s.pieces@[i as int].blocks@.len(),
            forall|j: int| 0 <= j < k ==> #[trigger] s.pieces@[i as int].blocks@[j].state == BlockState::Present,
        decreases s.pieces@[i as int].blocks@.len() - k,
    {
        if s.pieces[i].blocks[k].state != BlockState::Present {
            return false;
        }
        k = k + 1;
    }
    true
}

/// The requests for blocks `ks` of piece `i`, read from `s`, whose offsets and lengths are
/// those of `s0`; a request that the wire cannot express closes the session instead.
fn request_actions(s: &Scheduler, i: usize, ks: &Vec<usize>, s0: Ghost<Scheduler>) -> (r: Vec<Action>)
    requires
        s.wf(),
        i < s.pieces@.len(),
        same_layout(s0@, *s),
        forall|k: int|
            #![trigger s.pieces@[i as int].blocks@[k]]
            0 <= k < s.pieces@[i as int].blocks@.len() ==> s.pieces@[i as int].blocks@[k].offset
                == s0@.pieces@[i as int].blocks@[k].offset && s.pieces@[i as int].blocks@[k].length
                == s0@.pieces@[i as int].blocks@[k].length,
        forall|m: int| 0 <= m < ks@.len() ==> #[trigger] ks@[m] < s.pieces@[i as int].blocks@.len(),
    ensures
        if wire_fits(s0@, i as int, ks@) {
            requests_for(s0@, i as int, ks@, r@)
        } else {
            r@ == seq![Action::Close]
        },
{
    let mut acts: Vec<Action> = Vec::new();
    let mut m: usize = 0;
    let start = s.pieces[i].offset;
    if i > u32::MAX as usize {
        acts.push(Action::Close);
        assert(acts@ =~= seq![Action::Close]);
        return acts;
    }
    while m < ks.len()
        invariant
            m <= ks@.len(),
            i < s.pieces@.len(),
            i <= u32::MAX,
            start == s.pieces@[i as int].offset,
            same_layout(s0@, *s),
            forall|k: int|
                #![trigger s.pieces@[i as int].blocks@[k]]
                0 <= k < s.pieces@[i as int].blocks@.len() ==> s.pieces@[i as int].blocks@[k].offset
                    == s0@.pieces@[i as int].blocks@[k].offset && s.pieces@[i as int].blocks@[k].length
                    == s0@.pieces@[i as int].blocks@[k].length,
            forall|q: int| 0 <= q < ks@.len() ==> #[trigger] ks@[q] < s.pieces@[i as int].blocks@.len(),
            acts@.len() == m,
            start == s0@.pieces@[i as int].offset,
            forall|q: int| 0 <= q < m ==> request_fits(s0@, i as int, #[trigger] ks@[q] as int),
            forall|q: int|
                #![trigger acts@[q]]
                0 <= q < m ==> {
                    let b = s0@.pieces@[i as int].blocks@[ks@[q] as int];
                    acts@[q] == Action::Request {
                        index: i as u32,
                        begin: (b.offset - s0@.pieces@[i as int].offset) as u32,
                        length: b.length as u32,
                    }
                },
        decreases ks@.len() - m,
    {
        let k = ks[m];
        let b = s.pieces[i].blocks[k];
        if b.offset < start || b.offset - start > u32::MAX as u64 || b.length > u32::MAX as u64 {
            let mut closing: Vec<Action> = Vec::new();
            closing.push(Action::Close);
            assert(closing@ =~= seq![Action::Close]);
            assert(!request_fits(s0@, i as int, ks@[m as int] as int));
            return closing;
        }
        acts.push(Action::Request { index: i as u32, begin: (b.offset - start) as u32, length: b.length as u32 });
        m = m + 1;
    }
    acts
}

} // verus!
