//! The decisions of one peer session: what each frame from the peer does to
//! the session and to the shared plan, and what the session does next.

use vstd::prelude::*;
use crate::byte_order::{from_be32, read_u32};
use crate::download::{
    advertised, counted, follows, free_blocks, given_back, granted, has_free, is_rarest,
    lemma_follows_chain, lemma_plan_steps, piece_shaped, plan_ok, selectable, settled,
    verdict, with_pieces, PiecePlan, PlanView,
};
use crate::helpers::{bits_of, BLOCK_SIZE};
use crate::message::{bare_frame, request_frame, Message};
use crate::torrent_parser::{Block, PieceView};

verus! {

/// What the session asks of the code that owns the connection and the
/// files.
#[derive(Debug)]
pub enum Action {
    /// Nothing: read the next frame.
    Wait,
    /// Send these bytes to the peer.
    Send(Vec<u8>),
    /// Write the block that the frame carries, its bytes from the tenth on,
    /// at `offset` in the payload. Where `check` holds an offset and a
    /// length, that was the last block awaited of its piece: read the piece
    /// back from that span of the payload and hand it to `piece_read`.
    Store { offset: u64, length: u64, check: Option<(u64, u64)> },
    /// End the session. Its outstanding blocks have been given back.
    Close,
}

/// An action as a value.
pub enum Reaction {
    Wait,
    Send(Seq<u8>),
    Store { offset: u64, length: u64, check: Option<(u64, u64)> },
    Close,
}

impl View for Action {
    type V = Reaction;

    open spec fn view(&self) -> Reaction {
        match self {
            Action::Wait => Reaction::Wait,
            Action::Send(bytes) => Reaction::Send(bytes@),
            Action::Store { offset, length, check } => Reaction::Store {
                offset: *offset,
                length: *length,
                check: *check,
            },
            Action::Close => Reaction::Close,
        }
    }
}

/// A session as a value.
#[verifier::ext_equal]
pub struct SessionView {
    /// The pieces that the peer has advertised.
    pub bitfield: Seq<bool>,
    /// Whether the peer chokes us.
    pub choke: bool,
    /// Indices of the blocks asked of the peer and not yet received.
    pub requested: Seq<u32>,
    /// The piece that those blocks belong to.
    pub piece_req: Option<usize>,
}

/// The state of one connection to a peer.
pub struct Session {
    bitfield: Vec<bool>,
    choke: bool,
    requested: Vec<u32>,
    piece_req: Option<usize>,
}

impl View for Session {
    type V = SessionView;

    closed spec fn view(&self) -> SessionView {
        SessionView {
            bitfield: self.bitfield@,
            choke: self.choke,
            requested: self.requested@,
            piece_req: self.piece_req,
        }
    }
}

/// Whether bit `i` of a bitfield is set, bit 0 being the most significant
/// bit of the first byte. Bits past the last byte are not set.
pub open spec fn bit_set(bits: Seq<u8>, i: int) -> bool {
    0 <= i && i / 8 < bits.len() && bits_of(bits[i / 8])[i % 8]
}

/// The peer's pieces after it has sent the bitfield `bits`: those known
/// before and those whose bit is set.
pub open spec fn merged(bitfield: Seq<bool>, bits: Seq<u8>) -> Seq<bool> {
    Seq::new(bitfield.len(), |i: int| bitfield[i] || bit_set(bits, i))
}

/// The plan after a peer has advertised each of the pieces below `n` whose
/// bit is set in `bits`.
pub open spec fn advertised_bits(pieces: Seq<PieceView>, bits: Seq<u8>, n: int) -> Seq<PieceView>
    decreases n,
{
    if n <= 0 {
        pieces
    } else if bit_set(bits, n - 1) {
        advertised(advertised_bits(pieces, bits, n - 1), n - 1)
    } else {
        advertised_bits(pieces, bits, n - 1)
    }
}

/// Index of the first occurrence of `x` in `list`, or the length of `list`
/// if there is none.
pub open spec fn position(list: Seq<u32>, x: u32) -> int
    decreases list.len(),
{
    if list.len() == 0 {
        0
    } else if list[0] == x {
        0
    } else {
        1 + position(list.skip(1), x)
    }
}

/// The list without the first occurrence of `x`.
pub open spec fn without(list: Seq<u32>, x: u32) -> Seq<u32> {
    if position(list, x) < list.len() {
        list.remove(position(list, x))
    } else {
        list
    }
}

/// The `request` frames for the blocks `list` of piece `p`, one after the
/// other in the order of the list.
pub open spec fn request_frames(p: u32, blocks: Seq<Block>, list: Seq<u32>) -> Seq<u8>
    decreases list.len(),
{
    if list.len() == 0 {
        Seq::empty()
    } else {
        request_frames(p, blocks, list.drop_last()) + request_frame(
            p,
            (list.last() * BLOCK_SIZE) as u32,
            blocks[list.last() as int].length as u32,
        )
    }
}

/// The end of a session. The blocks that it still awaits go back to the
/// plan, exactly those and not the rest of the piece; a piece whose blocks
/// have all arrived and that has not been checked yet is freed as a whole.
pub open spec fn closed(s: SessionView, plan: PlanView) -> (SessionView, PlanView, Reaction) {
    (
        SessionView { requested: Seq::empty(), piece_req: None, ..s },
        match s.piece_req {
            Some(p) => PlanView {
                pieces: if s.requested.len() == 0 {
                    settled(plan.pieces, p as int, false)
                } else {
                    given_back(plan.pieces, p as int, s.requested)
                },
                ..plan
            },
            None => plan,
        },
        Reaction::Close,
    )
}

/// A `have` frame: the peer has one more piece. A frame too short for an
/// index, or an index past the last piece, ends the session. A piece
/// already known of this peer is not counted again.
pub open spec fn on_have(s: SessionView, plan: PlanView, msg: Seq<u8>) -> (
    SessionView,
    PlanView,
    Reaction,
) {
    let index = from_be32(msg.subrange(1, 5)) as int;
    if msg.len() < 5 || index >= s.bitfield.len() {
        closed(s, plan)
    } else if s.bitfield[index] {
        (s, plan, Reaction::Wait)
    } else {
        (
            SessionView { bitfield: s.bitfield.update(index, true), ..s },
            PlanView { pieces: advertised(plan.pieces, index), ..plan },
            Reaction::Wait,
        )
    }
}

/// A `bitfield` frame: each piece whose bit is set is known of this peer
/// and counted once more. Bits past the last piece are ignored.
pub open spec fn on_bitfield(s: SessionView, plan: PlanView, msg: Seq<u8>) -> (
    SessionView,
    PlanView,
    Reaction,
) {
    let bits = msg.skip(1);
    (
        SessionView { bitfield: merged(s.bitfield, bits), ..s },
        PlanView {
            pieces: advertised_bits(plan.pieces, bits, s.bitfield.len() as int),
            ..plan
        },
        Reaction::Wait,
    )
}

/// A `piece` frame: a block arrives. A frame too short for an index and an
/// offset ends the session. A block that this session does not await is
/// ignored. A block that the plan does not hold, or whose length is not the
/// planned one, ends the session. Otherwise the block is no longer
/// awaited, its length is added to the downloaded counter, and it is to be
/// stored at its place in the payload; if it was the last one awaited, the
/// piece is to be checked.
pub open spec fn on_piece(s: SessionView, plan: PlanView, msg: Seq<u8>) -> (
    SessionView,
    PlanView,
    Reaction,
) {
    let index = from_be32(msg.subrange(1, 5)) as int;
    let j = from_be32(msg.subrange(5, 9)) / BLOCK_SIZE;
    if msg.len() < 9 {
        closed(s, plan)
    } else if s.piece_req != Some(index as usize) || !s.requested.contains(j) {
        (s, plan, Reaction::Wait)
    } else if index >= plan.pieces.len() || j >= plan.pieces[index].blocks.len() {
        closed(s, plan)
    } else if msg.len() - 9 != plan.pieces[index].blocks[j as int].length {
        closed(s, plan)
    } else {
        let block = plan.pieces[index].blocks[j as int];
        let rest = without(s.requested, j);
        (
            SessionView { requested: rest, ..s },
            PlanView { downloaded: counted(plan.downloaded, block.length), ..plan },
            Reaction::Store {
                offset: block.offset,
                length: block.length,
                check: if rest.len() == 0 {
                    Some((plan.pieces[index].blocks[0].offset, plan.pieces[index].length))
                } else {
                    None
                },
            },
        )
    }
}

/// What a frame from the peer, without its length prefix, does to the
/// session and the plan, and what is to be done next. An empty frame is a
/// keep-alive. `choke` and `unchoke` set and clear the choke flag.
/// `interested` is answered with `unchoke`. `not interested`, `request`,
/// `cancel` and `port` are ignored. Any other id ends the session.
pub open spec fn on_message(s: SessionView, plan: PlanView, msg: Seq<u8>) -> (
    SessionView,
    PlanView,
    Reaction,
) {
    if msg.len() == 0 {
        (s, plan, Reaction::Wait)
    } else if msg[0] == 0 {
        (SessionView { choke: true, ..s }, plan, Reaction::Wait)
    } else if msg[0] == 1 {
        (SessionView { choke: false, ..s }, plan, Reaction::Wait)
    } else if msg[0] == 2 {
        (s, plan, Reaction::Send(bare_frame(1)))
    } else if msg[0] == 3 || msg[0] == 6 || msg[0] == 8 || msg[0] == 9 {
        (s, plan, Reaction::Wait)
    } else if msg[0] == 4 {
        on_have(s, plan, msg)
    } else if msg[0] == 5 {
        on_bitfield(s, plan, msg)
    } else if msg[0] == 7 {
        on_piece(s, plan, msg)
    } else {
        closed(s, plan)
    }
}

proof fn lemma_bits_past_end(pieces: Seq<PieceView>, bits: Seq<u8>, i: int, n: int)
    requires
        0 <= i <= n,
        i / 8 >= bits.len(),
    ensures
        advertised_bits(pieces, bits, n) == advertised_bits(pieces, bits, i),
    decreases n - i,
{
    if i < n {
        lemma_bits_past_end(pieces, bits, i, n - 1);
        assert((n - 1) / 8 >= i / 8);
    }
}

proof fn lemma_position(list: Seq<u32>, x: u32, i: int)
    requires
        0 <= i <= list.len(),
        forall|k: int| 0 <= k < i ==> list[k] != x,
        i < list.len() ==> list[i] == x,
    ensures
        position(list, x) == i,
        i == list.len() ==> !list.contains(x),
        i < list.len() ==> list.contains(x),
    decreases i,
{
    if i > 0 {
        let rest = list.skip(1);
        assert forall|k: int| 0 <= k < i - 1 implies rest[k] != x by {
            assert(rest[k] == list[k + 1]);
        }
        lemma_position(rest, x, i - 1);
    } else if list.len() > 0 {
    }
}

proof fn lemma_free_blocks_members(blocks: Seq<Block>, k: int)
    requires
        blocks.len() <= u32::MAX,
        0 <= k < free_blocks(blocks).len(),
    ensures
        free_blocks(blocks)[k] < blocks.len(),
    decreases blocks.len(),
{
    if blocks.len() > 0 {
        let rest = free_blocks(blocks.drop_last());
        if k < rest.len() {
            lemma_free_blocks_members(blocks.drop_last(), k);
        }
    }
}

fn bit_of(byte: u8, j: usize) -> (b: bool)
    requires
        j < 8,
    ensures
        b == bits_of(byte)[j as int],
{
    if j == 0 {
        byte / 128 % 2 == 1
    } else if j == 1 {
        byte / 64 % 2 == 1
    } else if j == 2 {
        byte / 32 % 2 == 1
    } else if j == 3 {
        byte / 16 % 2 == 1
    } else if j == 4 {
        byte / 8 % 2 == 1
    } else if j == 5 {
        byte / 4 % 2 == 1
    } else if j == 6 {
        byte / 2 % 2 == 1
    } else {
        byte % 2 == 1
    }
}

/// Index of the first occurrence of `x` in `list`.
fn find(list: &Vec<u32>, x: u32) -> (at: Option<usize>)
    ensures
        match at {
            Some(i) => i < list@.len() && position(list@, x) == i && list@.contains(x),
            None => position(list@, x) == list@.len() && !list@.contains(x),
        },
{
    let mut i: usize = 0;
    while i < list.len()
        invariant
            i <= list@.len(),
            forall|k: int| 0 <= k < i ==> list@[k] != x,
        decreases list@.len() - i,
    {
        if list[i] == x {
            proof {
                lemma_position(list@, x, i as int);
            }
            return Some(i);
        }
        i += 1;
    }
    proof {
        lemma_position(list@, x, i as int);
    }
    None
}

impl Session {
    /// A session with a peer of which nothing is known yet, for a payload
    /// of `piece_no` pieces: choked, with nothing requested.
    pub fn new(piece_no: usize) -> (s: Session)
        ensures
            s@ == (SessionView {
                bitfield: Seq::new(piece_no as nat, |i: int| false),
                choke: true,
                requested: Seq::empty(),
                piece_req: None,
            }),
    {
        let mut bitfield: Vec<bool> = Vec::new();
        let mut i: usize = 0;
        while i < piece_no
            invariant
                i <= piece_no,
                bitfield@.len() == i,
                forall|k: int| 0 <= k < i ==> !bitfield@[k],
            decreases piece_no - i,
        {
            bitfield.push(false);
            i += 1;
        }
        proof {
            assert(bitfield@ =~= Seq::new(piece_no as nat, |i: int| false));
        }
        Session { bitfield, choke: true, requested: Vec::new(), piece_req: None }
    }

    /// Whether the peer chokes us.
    pub fn is_choked(&self) -> (c: bool)
        ensures
            c == self@.choke,
    {
        self.choke
    }

    /// The pieces that the peer has advertised.
    pub fn bitfield(&self) -> (b: &Vec<bool>)
        ensures
            b@ == self@.bitfield,
    {
        &self.bitfield
    }

    /// Indices of the blocks asked of the peer and not yet received.
    pub fn requested(&self) -> (r: &Vec<u32>)
        ensures
            r@ == self@.requested,
    {
        &self.requested
    }

    /// The piece that the requested blocks belong to.
    pub fn piece_req(&self) -> (p: Option<usize>)
        ensures
            p == self@.piece_req,
    {
        self.piece_req
    }

    /// Ends the session and gives what it holds back to the plan.
    pub fn close(&mut self, plan: &mut PiecePlan) -> (action: Action)
        ensures
            final(self)@ == closed(old(self)@, old(plan)@).0,
            final(plan)@ == closed(old(self)@, old(plan)@).1,
            action@ == Reaction::Close,
            follows(old(plan)@, final(plan)@),
            session_move(old(self)@, old(plan)@, final(self)@, final(plan)@),
    {
        match self.piece_req {
            Some(p) => {
                if self.requested.len() == 0 {
                    plan.reset(p);
                } else {
                    plan.release(p, &self.requested);
                }
            },
            None => {
                proof {
                    lemma_follows_refl(plan@);
                }
            },
        }
        self.requested.clear();
        self.piece_req = None;
        Action::Close
    }

    fn merge_bits(&mut self, plan: &mut PiecePlan, bits: &[u8])
        ensures
            final(self)@ == (SessionView {
                bitfield: merged(old(self)@.bitfield, bits@),
                ..old(self)@
            }),
            final(plan)@ == (PlanView {
                pieces: advertised_bits(old(plan)@.pieces, bits@, old(self)@.bitfield.len() as int),
                ..old(plan)@
            }),
            follows(old(plan)@, final(plan)@),
    {
        let n: usize = self.bitfield.len();
        let mut i: usize = 0;
        proof {
            lemma_follows_refl(plan@);
        }
        while i < n && i / 8 < bits.len()
            invariant
                i <= n,
                n == self.bitfield@.len(),
                n == old(self).bitfield@.len(),
                self.choke == old(self).choke,
                self.requested == old(self).requested,
                self.piece_req == old(self).piece_req,
                forall|k: int|
                    0 <= k < n ==> #[trigger] self.bitfield@[k] == (old(self).bitfield@[k] || (k
                        < i && bit_set(bits@, k))),
                plan@ == (PlanView {
                    pieces: advertised_bits(old(plan)@.pieces, bits@, i as int),
                    ..old(plan)@
                }),
                follows(old(plan)@, plan@),
            decreases n - i,
        {
            let ghost mid = plan@;
            let ghost known = self.bitfield@;
            let set: bool = bit_of(bits[i / 8], i % 8);
            assert(set == bit_set(bits@, i as int));
            if set {
                self.bitfield[i] = true;
                plan.advertise(i);
                proof {
                    lemma_follows_chain(old(plan)@, mid, plan@);
                }
            }
            assert forall|k: int| 0 <= k < n implies self.bitfield@[k] == (old(self).bitfield@[k]
                || (k < i + 1 && bit_set(bits@, k))) by {
                if k != i {
                    assert(self.bitfield@[k] == known[k]);
                }
            }
            i += 1;
        }
        proof {
            if i < n {
                lemma_bits_past_end(old(plan)@.pieces, bits@, i as int, n as int);
            }
            assert(self.bitfield@ =~= merged(old(self)@.bitfield, bits@)) by {
                assert forall|k: int| 0 <= k < n implies self.bitfield@[k] == (old(
                    self,
                ).bitfield@[k] || bit_set(bits@, k)) by {
                    if k >= i {
                        assert(k / 8 >= i / 8);
                    }
                }
            }
        }
    }

    fn have(&mut self, plan: &mut PiecePlan, msg: &[u8]) -> (action: Action)
        requires
            msg@.len() > 0,
        ensures
            final(self)@ == on_have(old(self)@, old(plan)@, msg@).0,
            final(plan)@ == on_have(old(self)@, old(plan)@, msg@).1,
            action@ == on_have(old(self)@, old(plan)@, msg@).2,
            follows(old(plan)@, final(plan)@),
    {
        if msg.len() < 5 {
            return self.close(plan);
        }
        let index: usize = read_u32(vstd::slice::slice_subrange(msg, 1, 5)) as usize;
        if index >= self.bitfield.len() {
            return self.close(plan);
        }
        if !self.bitfield[index] {
            plan.advertise(index);
            self.bitfield[index] = true;
        } else {
            proof {
                lemma_follows_refl(plan@);
            }
        }
        Action::Wait
    }

    fn piece(&mut self, plan: &mut PiecePlan, msg: &[u8]) -> (action: Action)
        requires
            msg@.len() > 0,
        ensures
            final(self)@ == on_piece(old(self)@, old(plan)@, msg@).0,
            final(plan)@ == on_piece(old(self)@, old(plan)@, msg@).1,
            action@ == on_piece(old(self)@, old(plan)@, msg@).2,
            follows(old(plan)@, final(plan)@),
    {
        if msg.len() < 9 {
            return self.close(plan);
        }
        let index: usize = read_u32(vstd::slice::slice_subrange(msg, 1, 5)) as usize;
        let begin: u32 = read_u32(vstd::slice::slice_subrange(msg, 5, 9));
        let j: u32 = begin / BLOCK_SIZE;
        let awaited: bool = match self.piece_req {
            Some(p) => p == index,
            None => false,
        };
        if !awaited {
            proof {
                lemma_follows_refl(plan@);
            }
            return Action::Wait;
        }
        let at: usize = match find(&self.requested, j) {
            Some(at) => at,
            None => {
                proof {
                    lemma_follows_refl(plan@);
                }
                return Action::Wait;
            },
        };
        let block: Block = match plan.block(index, j as usize) {
            Some(block) => block,
            None => {
                return self.close(plan);
            },
        };
        if (msg.len() - 9) as u64 != block.length {
            return self.close(plan);
        }
        self.requested.remove(at);
        plan.add_downloaded(block.length);
        let check: Option<(u64, u64)> = if self.requested.len() == 0 {
            plan.piece_span(index)
        } else {
            None
        };
        Action::Store { offset: block.offset, length: block.length, check }
    }

    /// Takes a frame from the peer, without its length prefix, and says
    /// what is to be done next.
    pub fn handle_message(&mut self, plan: &mut PiecePlan, msg: &[u8]) -> (action: Action)
        ensures
            final(self)@ == on_message(old(self)@, old(plan)@, msg@).0,
            final(plan)@ == on_message(old(self)@, old(plan)@, msg@).1,
            action@ == on_message(old(self)@, old(plan)@, msg@).2,
            follows(old(plan)@, final(plan)@),
            session_move(old(self)@, old(plan)@, final(self)@, final(plan)@),
    {
        proof {
            lemma_follows_refl(plan@);
        }
        if msg.len() == 0 {
            return Action::Wait;
        }
        let id: u8 = msg[0];
        if id == 0 {
            self.choke = true;
            Action::Wait
        } else if id == 1 {
            self.choke = false;
            Action::Wait
        } else if id == 2 {
            Action::Send(Message::build_unchoke())
        } else if id == 3 || id == 6 || id == 8 || id == 9 {
            Action::Wait
        } else if id == 4 {
            self.have(plan, msg)
        } else if id == 5 {
            self.merge_bits(plan, vstd::slice::slice_subrange(msg, 1, msg.len()));
            Action::Wait
        } else if id == 7 {
            self.piece(plan, msg)
        } else {
            self.close(plan)
        }
    }

    /// Builds the `request` frames for the blocks `list` of piece `p`.
    fn frames(plan: &PiecePlan, p: usize, list: &Vec<u32>) -> (out: Vec<u8>)
        requires
            p < plan@.pieces.len(),
            plan_ok(plan@),
            forall|k: int| 0 <= k < list@.len() ==> list@[k] < plan@.pieces[p as int].blocks.len(),
        ensures
            out@ == request_frames(p as u32, plan@.pieces[p as int].blocks, list@),
    {
        let pieces = plan.pieces();
        let ghost blocks = plan@.pieces[p as int].blocks;
        assert(plan@.pieces[p as int] == pieces@[p as int]@);
        assert(piece_shaped(plan@.pieces[p as int]));
        let mut out: Vec<u8> = Vec::new();
        let mut i: usize = 0;
        while i < list.len()
            invariant
                i <= list@.len(),
                p < pieces@.len(),
                p <= u32::MAX,
                blocks == pieces@[p as int].blocks@,
                piece_shaped(pieces@[p as int]@),
                forall|k: int| 0 <= k < list@.len() ==> list@[k] < blocks.len(),
                out@ == request_frames(p as u32, blocks, list@.take(i as int)),
            decreases list@.len() - i,
        {
            let j: u32 = list[i];
            let length: u64 = pieces[p].blocks[j as usize].length;
            proof {
                assert(list@.take(i + 1).drop_last() == list@.take(i as int));
                assert(list@.take(i + 1).last() == j);
                assert(blocks[j as int].length == crate::torrent_parser::block_len(
                    j as int,
                    pieces@[p as int].length as int,
                ));
            }
            let mut frame = Message::build_request(p as u32, j * BLOCK_SIZE, length as u32);
            out.append(&mut frame);
            i += 1;
        }
        proof {
            assert(list@.take(list@.len() as int) == list@);
        }
        out
    }

    /// Decides, after a frame has been handled, whether to ask the peer for
    /// more. While the peer chokes us, or the session still holds a piece,
    /// nothing is asked. Otherwise the scheduler chooses a piece, rarest
    /// first; the session then awaits all blocks of that piece that were
    /// free, and their `request` frames are to be sent in ascending order
    /// of block index, one after the other. If the peer has no piece that
    /// can be asked of it, the session ends.
    pub fn next_requests(&mut self, plan: &mut PiecePlan) -> (action: Action)
        ensures
            follows(old(plan)@, final(plan)@),
            session_move(old(self)@, old(plan)@, final(self)@, final(plan)@),
            old(self)@.choke || old(self)@.piece_req is Some ==> {
                &&& action@ == Reaction::Wait
                &&& final(self)@ == old(self)@
                &&& final(plan)@ == old(plan)@
            },
            !old(self)@.choke && old(self)@.piece_req is None ==> {
                let pieces = old(plan)@.pieces;
                let bitfield = old(self)@.bitfield;
                if forall|k: int| !#[trigger] selectable(pieces, bitfield, k) {
                    &&& action@ == Reaction::Close
                    &&& final(self)@ == closed(old(self)@, old(plan)@).0
                    &&& final(plan)@ == old(plan)@
                } else {
                    &&& final(self)@.piece_req matches Some(p)
                    &&& is_rarest(pieces, bitfield, p as int)
                    &&& final(self)@ == (SessionView {
                        requested: free_blocks(pieces[p as int].blocks),
                        piece_req: Some(p),
                        ..old(self)@
                    })
                    &&& final(plan)@ == (PlanView {
                        pieces: granted(pieces, p as int),
                        ..old(plan)@
                    })
                    &&& action@ == Reaction::Send(
                        request_frames(
                            p as u32,
                            pieces[p as int].blocks,
                            free_blocks(pieces[p as int].blocks),
                        ),
                    )
                }
            },
    {
        if self.choke || self.piece_req.is_some() {
            proof {
                lemma_follows_refl(plan@);
            }
            return Action::Wait;
        }
        let ghost before = plan@;
        let (list, piece) = plan.make_request(&self.bitfield);
        match piece {
            None => {
                self.requested.clear();
                Action::Close
            },
            Some(p) => {
                proof {
                    assert(piece_shaped(before.pieces[p as int]));
                    assert forall|k: int| 0 <= k < list@.len() implies list@[k]
                        < plan@.pieces[p as int].blocks.len() by {
                        lemma_free_blocks_members(before.pieces[p as int].blocks, k);
                    }
                    assert forall|k: int|
                        0 <= k < list@.len() implies plan@.pieces[p as int].blocks[list@[k] as int].length
                        == before.pieces[p as int].blocks[list@[k] as int].length by {
                        lemma_free_blocks_members(before.pieces[p as int].blocks, k);
                    }
                    lemma_frames_same(
                        p as u32,
                        plan@.pieces[p as int].blocks,
                        before.pieces[p as int].blocks,
                        list@,
                    );
                }
                let out = Session::frames(plan, p, &list);
                self.requested = list;
                self.piece_req = Some(p);
                Action::Send(out)
            },
        }
    }

    /// Takes the bytes of the held piece as they were read back from the
    /// payload, once its last block has been stored, has the scheduler
    /// check them against the piece's hash, and lets go of the piece.
    /// Returns whether the piece is now verified. While blocks are still
    /// awaited, or no piece is held, nothing is checked.
    pub fn piece_read(&mut self, plan: &mut PiecePlan, data: &[u8]) -> (ok: bool)
        ensures
            follows(old(plan)@, final(plan)@),
            session_move(old(self)@, old(plan)@, final(self)@, final(plan)@),
            final(self)@ == checked_with(old(self)@, old(plan)@, data@).0,
            final(plan)@ == checked_with(old(self)@, old(plan)@, data@).1,
            ok == (old(self)@.piece_req matches Some(p) && old(self)@.requested.len() == 0
                && verdict(old(plan)@, p as int, data@)),
    {
        let mut ok: bool = false;
        let checking: Option<usize> = if self.requested.len() == 0 {
            self.piece_req
        } else {
            None
        };
        match checking {
            Some(p) => {
                self.piece_req = None;
                ok = plan.verify(p, data);
            },
            None => {
                proof {
                    lemma_follows_refl(plan@);
                }
            },
        }
        proof {
            let outcome = checked_with(old(self)@, old(plan)@, data@);
            assert(self@ == outcome.0 && plan@ == outcome.1);
        }
        ok
    }
}

/// Every state follows itself.
pub proof fn lemma_follows_refl(a: PlanView)
    ensures
        follows(a, a),
{
}

proof fn lemma_frames_same(p: u32, a: Seq<Block>, b: Seq<Block>, list: Seq<u32>)
    requires
        forall|k: int| 0 <= k < list.len() ==> a[list[k] as int].length == b[list[k] as int].length,
    ensures
        request_frames(p, a, list) == request_frames(p, b, list),
    decreases list.len(),
{
    if list.len() > 0 {
        let front = list.drop_last();
        assert forall|k: int| 0 <= k < front.len() implies a[front[k] as int].length
            == b[front[k] as int].length by {
            assert(front[k] == list[k]);
        }
        lemma_frames_same(p, a, b, front);
        assert(a[list.last() as int].length == b[list.last() as int].length) by {
            assert(list[list.len() - 1] == list.last());
        }
    }
}

/// What `next_requests` may do to a session and the plan.
pub open spec fn asked(
    s: SessionView,
    plan: PlanView,
    s_new: SessionView,
    plan_new: PlanView,
) -> bool {
    if s.choke || s.piece_req is Some {
        s_new == s && plan_new == plan
    } else if forall|k: int| !#[trigger] selectable(plan.pieces, s.bitfield, k) {
        s_new == closed(s, plan).0 && plan_new == plan
    } else {
        exists|p: usize|
            {
                &&& #[trigger] is_rarest(plan.pieces, s.bitfield, p as int)
                &&& s_new == (SessionView {
                    requested: free_blocks(plan.pieces[p as int].blocks),
                    piece_req: Some(p),
                    ..s
                })
                &&& plan_new == (PlanView { pieces: granted(plan.pieces, p as int), ..plan })
            }
    }
}

/// What checking `data`, the bytes of the held piece as they stand in the
/// payload, does to a session and the plan: once all blocks of the piece
/// have arrived, the outcome is recorded and the session lets go of the
/// piece; before that, nothing is checked.
pub open spec fn checked_with(s: SessionView, plan: PlanView, data: Seq<u8>) -> (
    SessionView,
    PlanView,
) {
    match s.piece_req {
        Some(p) if s.requested.len() == 0 => (
            SessionView { piece_req: None, ..s },
            with_pieces(plan, settled(plan.pieces, p as int, verdict(plan, p as int, data))),
        ),
        _ => (s, plan),
    }
}

/// What `piece_read` may do to a session and the plan.
pub open spec fn checked(
    s: SessionView,
    plan: PlanView,
    s_new: SessionView,
    plan_new: PlanView,
) -> bool {
    exists|data: Seq<u8>|
        s_new == (#[trigger] checked_with(s, plan, data)).0 && plan_new == checked_with(
            s,
            plan,
            data,
        ).1
}

/// Whether a session in state `s` can, by one of its operations on the plan
/// in state `plan`, come to state `s_new` and bring the plan to `plan_new`.
pub open spec fn session_move(
    s: SessionView,
    plan: PlanView,
    s_new: SessionView,
    plan_new: PlanView,
) -> bool {
    ||| exists|msg: Seq<u8>|
        s_new == (#[trigger] on_message(s, plan, msg)).0 && plan_new == on_message(s, plan, msg).1
    ||| (s_new == closed(s, plan).0 && plan_new == closed(s, plan).1)
    ||| asked(s, plan, s_new, plan_new)
    ||| checked(s, plan, s_new, plan_new)
}

/// Whether session `s` holds piece `p`: it awaits blocks of it, or has
/// received them all and not yet had the piece checked.
pub open spec fn holds(s: SessionView, p: int) -> bool {
    s.piece_req matches Some(q) && q == p
}

/// Whether the sessions hold the plan's pieces exclusively: no piece is held
/// by two sessions, and no block of a held piece is free to be requested.
pub open spec fn exclusive(pieces: Seq<PieceView>, sessions: Seq<SessionView>) -> bool {
    &&& forall|a: int, p: int|
        0 <= a < sessions.len() && #[trigger] holds(sessions[a], p) ==> 0 <= p < pieces.len()
            && !has_free(pieces[p])
    &&& forall|a: int, b: int, p: int|
        0 <= a < sessions.len() && 0 <= b < sessions.len() && a != b && #[trigger] holds(
            sessions[a],
            p,
        ) ==> !#[trigger] holds(sessions[b], p)
}

proof fn lemma_advertised_bits_blocks(pieces: Seq<PieceView>, bits: Seq<u8>, n: int)
    ensures
        advertised_bits(pieces, bits, n).len() == pieces.len(),
        forall|i: int|
            0 <= i < pieces.len() ==> (#[trigger] advertised_bits(pieces, bits, n)[i]).blocks
                == pieces[i].blocks,
    decreases n,
{
    if n > 0 {
        lemma_advertised_bits_blocks(pieces, bits, n - 1);
    }
}

/// Whether two plans have the same request flags on every block.
spec fn same_flags(a: Seq<PieceView>, b: Seq<PieceView>) -> bool {
    a.len() == b.len() && forall|i: int|
        0 <= i < a.len() ==> (#[trigger] a[i]).blocks == b[i].blocks
}

proof fn lemma_exclusive_same_flags(
    pieces: Seq<PieceView>,
    pieces_new: Seq<PieceView>,
    sessions: Seq<SessionView>,
    k: int,
    s_new: SessionView,
)
    requires
        exclusive(pieces, sessions),
        0 <= k < sessions.len(),
        same_flags(pieces, pieces_new),
        s_new.piece_req == sessions[k].piece_req,
    ensures
        exclusive(pieces_new, sessions.update(k, s_new)),
{
    let after = sessions.update(k, s_new);
    assert forall|a: int, p: int| 0 <= a < after.len() && #[trigger] holds(after[a], p) implies 0
        <= p < pieces_new.len() && !has_free(pieces_new[p]) by {
        assert(holds(sessions[a], p));
        assert(pieces[p].blocks == pieces_new[p].blocks);
    }
    assert forall|a: int, b: int, p: int|
        0 <= a < after.len() && 0 <= b < after.len() && a != b && #[trigger] holds(
            after[a],
            p,
        ) implies !#[trigger] holds(after[b], p) by {
        assert(holds(sessions[a], p));
        if holds(after[b], p) {
            assert(holds(sessions[b], p));
        }
    }
}

proof fn lemma_exclusive_let_go(
    pieces: Seq<PieceView>,
    pieces_new: Seq<PieceView>,
    sessions: Seq<SessionView>,
    k: int,
    s_new: SessionView,
)
    requires
        exclusive(pieces, sessions),
        0 <= k < sessions.len(),
        s_new.piece_req is None,
        pieces_new.len() == pieces.len(),
        forall|i: int|
            0 <= i < pieces.len() && !holds(sessions[k], i) ==> (#[trigger] pieces_new[i]).blocks
                == pieces[i].blocks,
    ensures
        exclusive(pieces_new, sessions.update(k, s_new)),
{
    let after = sessions.update(k, s_new);
    assert forall|a: int, p: int| 0 <= a < after.len() && #[trigger] holds(after[a], p) implies 0
        <= p < pieces_new.len() && !has_free(pieces_new[p]) by {
        assert(a != k);
        assert(holds(sessions[a], p));
        assert(!holds(sessions[k], p));
        assert(pieces_new[p].blocks == pieces[p].blocks);
    }
    assert forall|a: int, b: int, p: int|
        0 <= a < after.len() && 0 <= b < after.len() && a != b && #[trigger] holds(
            after[a],
            p,
        ) implies !#[trigger] holds(after[b], p) by {
        assert(holds(sessions[a], p));
        if holds(after[b], p) {
            assert(holds(sessions[b], p));
        }
    }
}

/// No operation of a session lets two sessions hold the same piece: if the
/// sessions hold the pieces exclusively before session `k` makes a move,
/// they do so after it. A piece is handed out only while it has a free
/// block, all its free blocks go to the one session, and a session gives
/// back only blocks of the piece that it holds; so no block is ever awaited
/// by two sessions.
pub proof fn lemma_requests_stay_exclusive(
    plan: PlanView,
    sessions: Seq<SessionView>,
    k: int,
    s_new: SessionView,
    plan_new: PlanView,
)
    requires
        exclusive(plan.pieces, sessions),
        0 <= k < sessions.len(),
        session_move(sessions[k], plan, s_new, plan_new),
    ensures
        exclusive(plan_new.pieces, sessions.update(k, s_new)),
{
    let s = sessions[k];
    let pieces = plan.pieces;
    let after = sessions.update(k, s_new);
    assert(exclusive(plan_new.pieces, after)) by {
        if s_new == closed(s, plan).0 && plan_new == closed(s, plan).1 {
            lemma_closed_exclusive(plan, sessions, k);
        } else if asked(s, plan, s_new, plan_new) {
            if s.choke || s.piece_req is Some {
                assert(after =~= sessions);
            } else if forall|i: int| !#[trigger] selectable(pieces, s.bitfield, i) {
                lemma_exclusive_same_flags(pieces, pieces, sessions, k, s_new);
            } else {
                let pu = choose|p: usize|
                    {
                        &&& #[trigger] is_rarest(pieces, s.bitfield, p as int)
                        &&& s_new == (SessionView {
                            requested: free_blocks(pieces[p as int].blocks),
                            piece_req: Some(p),
                            ..s
                        })
                        &&& plan_new == (PlanView { pieces: granted(pieces, p as int), ..plan })
                    };
                let p = pu as int;
                let pieces_new = granted(pieces, p);
                assert(has_free(pieces[p]));
                assert(holds(s_new, p));
                assert(!has_free(pieces_new[p])) by {
                    if has_free(pieces_new[p]) {
                        let j = choose|j: int|
                            0 <= j < pieces_new[p].blocks.len() && !(
                            #[trigger] pieces_new[p].blocks[j]).is_req;
                        assert(pieces_new[p].blocks[j].is_req);
                    }
                }
                assert forall|a: int, q: int|
                    0 <= a < after.len() && #[trigger] holds(after[a], q) implies 0 <= q
                    < pieces_new.len() && !has_free(pieces_new[q]) by {
                    if a != k {
                        assert(holds(sessions[a], q));
                        assert(q != p);
                        assert(pieces_new[q] == pieces[q]);
                    } else {
                        assert(q == p);
                    }
                }
                assert forall|a: int, b: int, q: int|
                    0 <= a < after.len() && 0 <= b < after.len() && a != b && #[trigger] holds(
                        after[a],
                        q,
                    ) implies !#[trigger] holds(after[b], q) by {
                    if holds(after[b], q) {
                        if a == k {
                            assert(q == p);
                            assert(holds(sessions[b], q));
                        } else if b == k {
                            assert(q == p);
                            assert(holds(sessions[a], q));
                        } else {
                            assert(holds(sessions[a], q));
                            assert(holds(sessions[b], q));
                        }
                    }
                }
            }
        } else if checked(s, plan, s_new, plan_new) {
            let data = choose|data: Seq<u8>|
                s_new == (#[trigger] checked_with(s, plan, data)).0 && plan_new == checked_with(
                    s,
                    plan,
                    data,
                ).1;
            match s.piece_req {
                Some(p) if s.requested.len() == 0 => {
                    lemma_exclusive_let_go(pieces, plan_new.pieces, sessions, k, s_new);
                },
                _ => {
                    assert(after =~= sessions);
                },
            }
        } else {
            let msg = choose|msg: Seq<u8>|
                s_new == (#[trigger] on_message(s, plan, msg)).0 && plan_new == on_message(
                    s,
                    plan,
                    msg,
                ).1;
            lemma_message_exclusive(plan, sessions, k, msg);
        }
    }
}

/// Sessions that hold nothing hold the pieces exclusively, and where the
/// pieces are held exclusively no block is awaited by two sessions.
pub proof fn lemma_exclusive_blocks(
    pieces: Seq<PieceView>,
    sessions: Seq<SessionView>,
    a: int,
    b: int,
    j: u32,
)
    requires
        0 <= a < sessions.len(),
        0 <= b < sessions.len(),
        a != b,
    ensures
        (forall|i: int| 0 <= i < sessions.len() ==> (#[trigger] sessions[i]).piece_req is None)
            ==> exclusive(pieces, sessions),
        exclusive(pieces, sessions) && sessions[a].piece_req is Some && sessions[a].piece_req
            == sessions[b].piece_req ==> !(sessions[a].requested.contains(j)
            && sessions[b].requested.contains(j)),
{
    if exclusive(pieces, sessions) && sessions[a].piece_req is Some && sessions[a].piece_req
        == sessions[b].piece_req {
        let p = sessions[a].piece_req->0 as int;
        assert(holds(sessions[a], p));
        assert(holds(sessions[b], p));
    }
}

proof fn lemma_closed_exclusive(plan: PlanView, sessions: Seq<SessionView>, k: int)
    requires
        exclusive(plan.pieces, sessions),
        0 <= k < sessions.len(),
    ensures
        exclusive(
            closed(sessions[k], plan).1.pieces,
            sessions.update(k, closed(sessions[k], plan).0),
        ),
{
    lemma_exclusive_let_go(
        plan.pieces,
        closed(sessions[k], plan).1.pieces,
        sessions,
        k,
        closed(sessions[k], plan).0,
    );
}

proof fn lemma_message_exclusive(plan: PlanView, sessions: Seq<SessionView>, k: int, msg: Seq<u8>)
    requires
        exclusive(plan.pieces, sessions),
        0 <= k < sessions.len(),
    ensures
        exclusive(
            on_message(sessions[k], plan, msg).1.pieces,
            sessions.update(k, on_message(sessions[k], plan, msg).0),
        ),
{
    let s = sessions[k];
    let s_new = on_message(s, plan, msg).0;
    let plan_new = on_message(s, plan, msg).1;
    if s_new == closed(s, plan).0 && plan_new == closed(s, plan).1 {
        lemma_closed_exclusive(plan, sessions, k);
    } else {
        if msg.len() > 0 && msg[0] == 5 {
            lemma_advertised_bits_blocks(plan.pieces, msg.skip(1), s.bitfield.len() as int);
        }
        assert(same_flags(plan.pieces, plan_new.pieces));
        lemma_exclusive_same_flags(plan.pieces, plan_new.pieces, sessions, k, s_new);
    }
}

proof fn lemma_bits_follow(v: PlanView, bits: Seq<u8>, n: int)
    requires
        plan_ok(v),
    ensures
        plan_ok(with_pieces(v, advertised_bits(v.pieces, bits, n))),
        follows(v, with_pieces(v, advertised_bits(v.pieces, bits, n))),
        with_pieces(v, advertised_bits(v.pieces, bits, n)) == (PlanView {
            pieces: advertised_bits(v.pieces, bits, n),
            ..v
        }),
        forall|i: int|
            0 <= i < v.pieces.len() ==> (#[trigger] advertised_bits(v.pieces, bits, n)[i]).completed
                == v.pieces[i].completed,
    decreases n,
{
    if n <= 0 {
        lemma_follows_refl(v);
    } else {
        lemma_bits_follow(v, bits, n - 1);
        let mid = with_pieces(v, advertised_bits(v.pieces, bits, n - 1));
        if bit_set(bits, n - 1) {
            lemma_plan_steps(mid, n - 1, Seq::empty(), false);
            lemma_follows_chain(v, mid, with_pieces(mid, advertised(mid.pieces, n - 1)));
        }
    }
}

/// Whatever a session does, the plan stays consistent and goes forward
/// only: no fewer pieces are completed than before, none more are left,
/// nothing less is downloaded, and a completed piece keeps its flags.
pub proof fn lemma_moves_go_forward(
    s: SessionView,
    plan: PlanView,
    s_new: SessionView,
    plan_new: PlanView,
)
    requires
        plan_ok(plan),
        session_move(s, plan, s_new, plan_new),
    ensures
        plan_ok(plan_new),
        follows(plan, plan_new),
        plan_new.left <= plan.left,
        forall|i: int|
            0 <= i < plan.pieces.len() && (#[trigger] plan.pieces[i]).completed
                ==> plan_new.pieces[i].completed,
{
    lemma_move_outcomes(s, plan, s_new, plan_new, 0);
}

/// A piece is completed exactly by a check of its bytes that matches its
/// hash: after a session's move a piece is completed if and only if it was
/// completed before, or the move was the check of that piece, all of whose
/// blocks had arrived, against bytes of the piece's length whose SHA-1
/// digest is the piece's hash.
pub proof fn lemma_completed_iff_verified(
    s: SessionView,
    plan: PlanView,
    s_new: SessionView,
    plan_new: PlanView,
    i: int,
)
    requires
        plan_ok(plan),
        session_move(s, plan, s_new, plan_new),
        0 <= i < plan.pieces.len(),
    ensures
        plan_new.pieces[i].completed <==> plan.pieces[i].completed || (s.piece_req == Some(
            i as usize,
        ) && s.requested.len() == 0 && exists|data: Seq<u8>|
            plan_new == (#[trigger] checked_with(s, plan, data)).1 && verdict(plan, i, data)),
{
    lemma_move_outcomes(s, plan, s_new, plan_new, i);
    if s.piece_req == Some(i as usize) && s.requested.len() == 0 && exists|data: Seq<u8>|
        plan_new == (#[trigger] checked_with(s, plan, data)).1 && verdict(plan, i, data) {
        let data = choose|data: Seq<u8>|
            plan_new == (#[trigger] checked_with(s, plan, data)).1 && verdict(plan, i, data);
        lemma_plan_steps(plan, i, Seq::empty(), true);
    }
}

proof fn lemma_move_outcomes(
    s: SessionView,
    plan: PlanView,
    s_new: SessionView,
    plan_new: PlanView,
    i: int,
)
    requires
        plan_ok(plan),
        session_move(s, plan, s_new, plan_new),
    ensures
        plan_ok(plan_new),
        follows(plan, plan_new),
        0 <= i < plan.pieces.len() && plan_new.pieces[i].completed && !plan.pieces[i].completed
            ==> s.piece_req == Some(i as usize) && s.requested.len() == 0 && exists|data: Seq<u8>|
            plan_new == (#[trigger] checked_with(s, plan, data)).1 && verdict(plan, i, data),
{
    if s_new == closed(s, plan).0 && plan_new == closed(s, plan).1 {
        lemma_closed_outcome(s, plan);
    } else if asked(s, plan, s_new, plan_new) {
        if s.choke || s.piece_req is Some {
            lemma_follows_refl(plan);
        } else if forall|k: int| !#[trigger] selectable(plan.pieces, s.bitfield, k) {
            lemma_follows_refl(plan);
        } else {
            let p = choose|p: usize|
                {
                    &&& #[trigger] is_rarest(plan.pieces, s.bitfield, p as int)
                    &&& s_new == (SessionView {
                        requested: free_blocks(plan.pieces[p as int].blocks),
                        piece_req: Some(p),
                        ..s
                    })
                    &&& plan_new == (PlanView { pieces: granted(plan.pieces, p as int), ..plan })
                };
            lemma_plan_steps(plan, p as int, Seq::empty(), false);
            assert(plan_new == with_pieces(plan, granted(plan.pieces, p as int)));
        }
    } else if checked(s, plan, s_new, plan_new) {
        let data = choose|data: Seq<u8>|
            s_new == (#[trigger] checked_with(s, plan, data)).0 && plan_new == checked_with(
                s,
                plan,
                data,
            ).1;
        match s.piece_req {
            Some(p) if s.requested.len() == 0 => {
                lemma_plan_steps(plan, p as int, Seq::empty(), verdict(plan, p as int, data));
            },
            _ => {
                lemma_follows_refl(plan);
            },
        }
    } else {
        let msg = choose|msg: Seq<u8>|
            s_new == (#[trigger] on_message(s, plan, msg)).0 && plan_new == on_message(
                s,
                plan,
                msg,
            ).1;
        if s_new == closed(s, plan).0 && plan_new == closed(s, plan).1 {
            lemma_closed_outcome(s, plan);
        } else if msg.len() > 0 && msg[0] == 4 {
            let index = from_be32(msg.subrange(1, 5)) as int;
            lemma_plan_steps(plan, index, Seq::empty(), false);
            lemma_follows_refl(plan);
            if plan_new != plan {
                assert(plan_new == with_pieces(plan, advertised(plan.pieces, index)));
            }
        } else if msg.len() > 0 && msg[0] == 5 {
            lemma_bits_follow(plan, msg.skip(1), s.bitfield.len() as int);
        } else {
            lemma_follows_refl(plan);
            assert(plan_new.pieces == plan.pieces);
        }
    }
}

proof fn lemma_closed_outcome(s: SessionView, plan: PlanView)
    requires
        plan_ok(plan),
    ensures
        plan_ok(closed(s, plan).1),
        follows(plan, closed(s, plan).1),
        forall|i: int|
            0 <= i < plan.pieces.len() ==> (#[trigger] closed(s, plan).1.pieces[i]).completed
                == plan.pieces[i].completed,
{
    match s.piece_req {
        Some(p) => {
            lemma_plan_steps(plan, p as int, s.requested, false);
            if s.requested.len() == 0 {
                assert(closed(s, plan).1 == with_pieces(
                    plan,
                    settled(plan.pieces, p as int, false),
                ));
            } else {
                assert(closed(s, plan).1 == with_pieces(
                    plan,
                    given_back(plan.pieces, p as int, s.requested),
                ));
            }
        },
        None => {
            lemma_follows_refl(plan);
        },
    }
}

} // verus!
