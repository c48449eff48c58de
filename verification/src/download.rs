//! The piece and block scheduler that all sessions share, and the decisions
//! of one peer session.

use vstd::prelude::*;
use crate::digest::{sha1, sha1_digest};
use crate::helpers::{same_bytes, BLOCK_SIZE, CONN_LIMIT};
use crate::peers::{PeerPool, SpawnStep};
use crate::torrent_parser::{
    block_count, block_len, is_initial_plan, lemma_piece_start, plan_view, sizes_agree, Block,
    Piece, PieceView,
};

verus! {

/// Whether a piece is laid out as the plan lays pieces out: at most
/// `u32::MAX` bytes, which a request can address; cut into blocks of
/// `BLOCK_SIZE` bytes with a last block that holds the rest; each block
/// `BLOCK_SIZE` bytes after the one before.
pub open spec fn piece_shaped(p: PieceView) -> bool {
    &&& 0 < p.length <= u32::MAX
    &&& p.blocks.len() == block_count(p.length as int)
    &&& p.blocks[0].offset + p.length <= u64::MAX
    &&& forall|j: int|
        0 <= j < p.blocks.len() ==> {
            &&& (#[trigger] p.blocks[j]).length == block_len(j, p.length as int)
            &&& p.blocks[j].offset == p.blocks[0].offset + j * BLOCK_SIZE
        }
}

/// Whether every piece is laid out as the plan lays pieces out, and a
/// request can address each piece.
pub open spec fn plan_shaped(pieces: Seq<PieceView>) -> bool {
    &&& pieces.len() <= u32::MAX
    &&& forall|i: int| 0 <= i < pieces.len() ==> piece_shaped(#[trigger] pieces[i])
}

/// Number of pieces that are not completed.
pub open spec fn open_count(pieces: Seq<PieceView>) -> nat
    decreases pieces.len(),
{
    if pieces.len() == 0 {
        0
    } else {
        open_count(pieces.drop_last()) + (if pieces.last().completed {
            0nat
        } else {
            1nat
        })
    }
}

/// Whether some block of the piece has not been requested.
pub open spec fn has_free(p: PieceView) -> bool {
    exists|j: int| 0 <= j < p.blocks.len() && !(#[trigger] p.blocks[j]).is_req
}

/// Whether a peer with `bitfield` can be asked for piece `i`: the peer has
/// it, it is not completed, and one of its blocks has not been requested.
pub open spec fn selectable(pieces: Seq<PieceView>, bitfield: Seq<bool>, i: int) -> bool {
    &&& 0 <= i < pieces.len()
    &&& i < bitfield.len()
    &&& bitfield[i]
    &&& !pieces[i].completed
    &&& has_free(pieces[i])
}

/// Whether piece `a` is chosen before piece `b`: fewer peers advertise it,
/// or as many and its index is not higher.
pub open spec fn chosen_before(pieces: Seq<PieceView>, a: int, b: int) -> bool {
    pieces[a].ref_no < pieces[b].ref_no || (pieces[a].ref_no == pieces[b].ref_no && a <= b)
}

/// Whether `p` is the piece to ask a peer with `bitfield` for: the rarest
/// piece that can be asked of it, the lowest index among equally rare ones.
pub open spec fn is_rarest(pieces: Seq<PieceView>, bitfield: Seq<bool>, p: int) -> bool {
    &&& selectable(pieces, bitfield, p)
    &&& forall|k: int| #[trigger] selectable(pieces, bitfield, k) ==> chosen_before(pieces, p, k)
}

/// Indices of the blocks that have not been requested, in ascending order.
pub open spec fn free_blocks(blocks: Seq<Block>) -> Seq<u32>
    decreases blocks.len(),
{
    if blocks.len() == 0 {
        Seq::empty()
    } else if blocks.last().is_req {
        free_blocks(blocks.drop_last())
    } else {
        free_blocks(blocks.drop_last()).push((blocks.len() - 1) as u32)
    }
}

/// The block with its request flag set to `is_req`.
pub open spec fn flagged(b: Block, is_req: bool) -> Block {
    Block { is_req, length: b.length, offset: b.offset }
}

/// The blocks with every request flag set to `is_req`.
pub open spec fn all_flagged(blocks: Seq<Block>, is_req: bool) -> Seq<Block> {
    Seq::new(blocks.len(), |j: int| flagged(blocks[j], is_req))
}

/// The blocks with the request flag cleared on those whose index is in
/// `list`.
pub open spec fn some_released(blocks: Seq<Block>, list: Seq<u32>) -> Seq<Block> {
    Seq::new(
        blocks.len(),
        |j: int|
            if list.contains(j as u32) {
                flagged(blocks[j], false)
            } else {
                blocks[j]
            },
    )
}

/// The piece with other blocks.
pub open spec fn with_blocks(p: PieceView, blocks: Seq<Block>) -> PieceView {
    PieceView { ref_no: p.ref_no, length: p.length, blocks, completed: p.completed }
}

/// The plan after all blocks of piece `p` have been handed to a session.
pub open spec fn granted(pieces: Seq<PieceView>, p: int) -> Seq<PieceView> {
    pieces.update(p, with_blocks(pieces[p], all_flagged(pieces[p].blocks, true)))
}

/// The plan after a session has given back the blocks `list` of piece `p`.
/// A completed piece keeps its flags.
pub open spec fn given_back(pieces: Seq<PieceView>, p: int, list: Seq<u32>) -> Seq<PieceView> {
    if 0 <= p < pieces.len() && !pieces[p].completed {
        pieces.update(p, with_blocks(pieces[p], some_released(pieces[p].blocks, list)))
    } else {
        pieces
    }
}

/// The plan after the bytes of piece `p` have been checked against its
/// hash. A match completes the piece; a mismatch frees all its blocks for
/// another try. A piece that was completed before stays as it is.
pub open spec fn settled(pieces: Seq<PieceView>, p: int, matches: bool) -> Seq<PieceView> {
    if !(0 <= p < pieces.len()) || pieces[p].completed {
        pieces
    } else if matches {
        pieces.update(
            p,
            PieceView {
                ref_no: pieces[p].ref_no,
                length: pieces[p].length,
                blocks: pieces[p].blocks,
                completed: true,
            },
        )
    } else {
        pieces.update(p, with_blocks(pieces[p], all_flagged(pieces[p].blocks, false)))
    }
}

/// The count of advertising peers after one more, which stops at the
/// largest number the counter holds.
pub open spec fn one_more(ref_no: u16) -> u16 {
    if ref_no < u16::MAX {
        (ref_no + 1) as u16
    } else {
        ref_no
    }
}

/// The plan after a peer has advertised piece `i`.
pub open spec fn advertised(pieces: Seq<PieceView>, i: int) -> Seq<PieceView> {
    if 0 <= i < pieces.len() {
        pieces.update(
            i,
            PieceView {
                ref_no: one_more(pieces[i].ref_no),
                length: pieces[i].length,
                blocks: pieces[i].blocks,
                completed: pieces[i].completed,
            },
        )
    } else {
        pieces
    }
}

/// Whether two plans lay the same pieces and blocks out in the same places.
pub open spec fn same_layout(a: Seq<PieceView>, b: Seq<PieceView>) -> bool {
    &&& a.len() == b.len()
    &&& forall|i: int|
        0 <= i < a.len() ==> {
            &&& (#[trigger] a[i]).length == b[i].length
            &&& a[i].blocks.len() == b[i].blocks.len()
        }
    &&& forall|i: int, j: int|
        0 <= i < a.len() && 0 <= j < a[i].blocks.len() ==> {
            &&& (#[trigger] a[i].blocks[j]).length == b[i].blocks[j].length
            &&& a[i].blocks[j].offset == b[i].blocks[j].offset
        }
}

proof fn lemma_same_layout_shaped(a: Seq<PieceView>, b: Seq<PieceView>)
    requires
        plan_shaped(a),
        same_layout(a, b),
    ensures
        plan_shaped(b),
{
    assert forall|i: int| 0 <= i < b.len() implies piece_shaped(#[trigger] b[i]) by {
        assert(piece_shaped(a[i]));
        assert(a[i].blocks.len() > 0);
        assert(a[i].blocks[0].offset == b[i].blocks[0].offset);
        assert forall|j: int| 0 <= j < b[i].blocks.len() implies {
            &&& (#[trigger] b[i].blocks[j]).length == block_len(j, b[i].length as int)
            &&& b[i].blocks[j].offset == b[i].blocks[0].offset + j * BLOCK_SIZE
        } by {
            assert(a[i].blocks[j].length == b[i].blocks[j].length);
        }
    }
}

/// The initial plan of a payload whose pieces and whose piece count a
/// request can address is laid out as a plan must be.
pub proof fn lemma_initial_plan_shaped(
    plan: Seq<Piece>,
    piece_no: int,
    piece_length: int,
    length: int,
)
    requires
        sizes_agree(piece_no, piece_length, length),
        is_initial_plan(plan, piece_no, piece_length, length),
        piece_length <= u32::MAX,
        piece_no <= u32::MAX,
        length <= u64::MAX,
    ensures
        plan_shaped(plan_view(plan)),
{
    let pieces = plan_view(plan);
    assert forall|i: int| 0 <= i < pieces.len() implies piece_shaped(#[trigger] pieces[i]) by {
        lemma_piece_start(i, piece_no, piece_length, length);
        assert(pieces[i] == plan[i]@);
        let p = pieces[i];
        assert(p.blocks.len() > 0);
        assert(p.blocks[0].offset == i * piece_length + 0 * BLOCK_SIZE);
    }
}

proof fn lemma_open_count_update(pieces: Seq<PieceView>, p: int, v: PieceView)
    requires
        0 <= p < pieces.len(),
    ensures
        open_count(pieces.update(p, v)) == open_count(pieces) + (if v.completed {
            0int
        } else {
            1int
        }) - (if pieces[p].completed {
            0int
        } else {
            1int
        }),
    decreases pieces.len(),
{
    let after = pieces.update(p, v);
    if p == pieces.len() - 1 {
        assert(after.drop_last() == pieces.drop_last());
    } else {
        lemma_open_count_update(pieces.drop_last(), p, v);
        assert(after.drop_last() == pieces.drop_last().update(p, v));
    }
}

proof fn lemma_open_count_bound(pieces: Seq<PieceView>)
    ensures
        open_count(pieces) <= pieces.len(),
    decreases pieces.len(),
{
    if pieces.len() > 0 {
        lemma_open_count_bound(pieces.drop_last());
    }
}

fn piece_is_shaped(piece: &Piece) -> (ok: bool)
    ensures
        ok == piece_shaped(piece@),
{
    if piece.length == 0 || piece.length > u32::MAX as u64 {
        return false;
    }
    let count: u64 = (piece.length + (BLOCK_SIZE as u64 - 1)) / (BLOCK_SIZE as u64);
    if piece.blocks.len() as u64 != count {
        return false;
    }
    let first: u64 = piece.blocks[0].offset;
    if first > u64::MAX - piece.length {
        return false;
    }
    let mut j: usize = 0;
    while j < piece.blocks.len()
        invariant
            j <= piece.blocks@.len(),
            0 < piece.length <= u32::MAX,
            count == block_count(piece.length as int),
            piece.blocks@.len() == count,
            first == piece.blocks@[0].offset,
            first + piece.length <= u64::MAX,
            forall|k: int|
                0 <= k < j ==> {
                    &&& (#[trigger] piece.blocks@[k]).length == block_len(k, piece.length as int)
                    &&& piece.blocks@[k].offset == first + k * BLOCK_SIZE
                },
        decreases piece.blocks@.len() - j,
    {
        let want: u64 = if (j as u64) + 1 < count {
            BLOCK_SIZE as u64
        } else {
            piece.length - (count - 1) * (BLOCK_SIZE as u64)
        };
        if piece.blocks[j].length != want || piece.blocks[j].offset != first + (j as u64) * (
        BLOCK_SIZE as u64) {
            return false;
        }
        j += 1;
    }
    true
}

fn has_free_block(piece: &Piece) -> (free: bool)
    ensures
        free == has_free(piece@),
{
    let mut j: usize = 0;
    while j < piece.blocks.len()
        invariant
            j <= piece.blocks@.len(),
            forall|k: int| 0 <= k < j ==> (#[trigger] piece.blocks@[k]).is_req,
        decreases piece.blocks@.len() - j,
    {
        if !piece.blocks[j].is_req {
            assert(!piece@.blocks[j as int].is_req);
            return true;
        }
        j += 1;
    }
    false
}

/// The piece to ask a peer with `bitfield` for, if there is one.
fn select_piece(pieces: &Vec<Piece>, bitfield: &Vec<bool>) -> (choice: Option<usize>)
    ensures
        match choice {
            Some(p) => is_rarest(plan_view(pieces@), bitfield@, p as int),
            None => forall|k: int| !#[trigger] selectable(plan_view(pieces@), bitfield@, k),
        },
{
    let ghost plan = plan_view(pieces@);
    let mut best: Option<usize> = None;
    let mut i: usize = 0;
    while i < pieces.len() && i < bitfield.len()
        invariant
            i <= pieces@.len(),
            i <= bitfield@.len(),
            plan == plan_view(pieces@),
            match best {
                Some(p) => {
                    &&& p < i
                    &&& selectable(plan, bitfield@, p as int)
                    &&& forall|k: int|
                        0 <= k < i && #[trigger] selectable(plan, bitfield@, k) ==> chosen_before(
                            plan,
                            p as int,
                            k,
                        )
                },
                None => forall|k: int| 0 <= k < i ==> !#[trigger] selectable(plan, bitfield@, k),
            },
        decreases pieces@.len() - i,
    {
        assert(plan[i as int] == pieces@[i as int]@);
        if bitfield[i] && !pieces[i].completed && has_free_block(&pieces[i]) {
            assert(selectable(plan, bitfield@, i as int));
            match best {
                Some(p) => {
                    assert(plan[p as int] == pieces@[p as int]@);
                    if pieces[i].ref_no < pieces[p].ref_no {
                        best = Some(i);
                    }
                },
                None => {
                    best = Some(i);
                },
            }
        }
        else {
            assert(!selectable(plan, bitfield@, i as int));
        }
        i += 1;
    }
    best
}

proof fn lemma_block_count_bound(len: int)
    requires
        0 < len <= u32::MAX,
    ensures
        0 < block_count(len) <= 0x4_0000,
        (block_count(len) - 1) * BLOCK_SIZE < len,
{
}

/// Indices of the blocks of the piece that have not been requested.
fn free_list(piece: &Piece) -> (list: Vec<u32>)
    requires
        piece_shaped(piece@),
    ensures
        list@ == free_blocks(piece@.blocks),
{
    proof {
        lemma_block_count_bound(piece.length as int);
    }
    let mut list: Vec<u32> = Vec::new();
    let mut j: usize = 0;
    while j < piece.blocks.len()
        invariant
            j <= piece.blocks@.len(),
            piece.blocks@.len() <= 0x4_0000,
            list@ == free_blocks(piece.blocks@.take(j as int)),
        decreases piece.blocks@.len() - j,
    {
        proof {
            assert(piece.blocks@.take(j + 1).drop_last() == piece.blocks@.take(j as int));
        }
        if !piece.blocks[j].is_req {
            list.push(j as u32);
        }
        j += 1;
    }
    proof {
        assert(piece.blocks@.take(j as int) == piece.blocks@);
    }
    list
}

/// Sets the request flag of every block of the piece to `is_req`.
fn flag_all(piece: &mut Piece, is_req: bool)
    ensures
        final(piece)@ == with_blocks(old(piece)@, all_flagged(old(piece)@.blocks, is_req)),
    no_unwind
{
    let mut j: usize = 0;
    while j < piece.blocks.len()
        invariant
            j <= piece.blocks@.len(),
            piece.blocks@.len() == old(piece).blocks@.len(),
            piece.ref_no == old(piece).ref_no,
            piece.length == old(piece).length,
            piece.completed == old(piece).completed,
            forall|k: int|
                0 <= k < j ==> #[trigger] piece.blocks@[k] == flagged(
                    old(piece).blocks@[k],
                    is_req,
                ),
            forall|k: int|
                j <= k < piece.blocks@.len() ==> #[trigger] piece.blocks@[k] == old(
                    piece,
                ).blocks@[k],
        decreases piece.blocks@.len() - j,
    {
        piece.blocks[j].is_req = is_req;
        j += 1;
    }
    proof {
        assert(piece.blocks@ =~= all_flagged(old(piece)@.blocks, is_req));
    }
}

/// Clears the request flag of the blocks whose index is in `list`.
fn release_some(piece: &mut Piece, list: &Vec<u32>)
    requires
        old(piece).blocks@.len() <= u32::MAX,
    ensures
        final(piece)@ == with_blocks(old(piece)@, some_released(old(piece)@.blocks, list@)),
    no_unwind
{
    let mut i: usize = 0;
    while i < list.len()
        invariant
            i <= list@.len(),
            piece.ref_no == old(piece).ref_no,
            piece.length == old(piece).length,
            piece.completed == old(piece).completed,
            piece.blocks@.len() <= u32::MAX,
            piece.blocks@ == some_released(old(piece).blocks@, list@.take(i as int)),
        decreases list@.len() - i,
    {
        let j: usize = list[i] as usize;
        proof {
            let before = list@.take(i as int);
            let after = list@.take(i + 1);
            assert(after == before.push(list@[i as int]));
            assert forall|x: u32|
                after.contains(x) <==> (before.contains(x) || x == list@[i as int]) by {
                if after.contains(x) {
                    let k = choose|k: int| 0 <= k < after.len() && after[k] == x;
                    if k < i {
                        assert(before[k] == x);
                    }
                }
                if before.contains(x) {
                    let k = choose|k: int| 0 <= k < before.len() && before[k] == x;
                    assert(after[k] == x);
                }
                if x == list@[i as int] {
                    assert(after[i as int] == x);
                }
            }
        }
        if j < piece.blocks.len() {
            piece.blocks[j].is_req = false;
        }
        proof {
            assert(piece.blocks@ =~= some_released(old(piece).blocks@, list@.take(i + 1)));
        }
        i += 1;
    }
    proof {
        assert(list@.take(list@.len() as int) == list@);
    }
}

proof fn lemma_update_view(before: Seq<Piece>, after: Seq<Piece>, p: int)
    requires
        0 <= p < before.len(),
        after.len() == before.len(),
        forall|i: int| 0 <= i < before.len() && i != p ==> after[i] == before[i],
    ensures
        plan_view(after) == plan_view(before).update(p, after[p]@),
{
    assert(plan_view(after) =~= plan_view(before).update(p, after[p]@));
}

proof fn lemma_flags_keep_layout(pieces: Seq<PieceView>, p: int, blocks: Seq<Block>)
    requires
        0 <= p < pieces.len(),
        blocks.len() == pieces[p].blocks.len(),
        forall|j: int|
            0 <= j < blocks.len() ==> (#[trigger] blocks[j]).length == pieces[p].blocks[j].length
                && blocks[j].offset == pieces[p].blocks[j].offset,
    ensures
        same_layout(pieces, pieces.update(p, with_blocks(pieces[p], blocks))),
        open_count(pieces.update(p, with_blocks(pieces[p], blocks))) == open_count(pieces),
{
    lemma_open_count_update(pieces, p, with_blocks(pieces[p], blocks));
}

/// Hands piece `p` to a session: marks all its blocks requested.
fn grant(pieces: &mut Vec<Piece>, p: usize)
    requires
        p < old(pieces)@.len(),
        plan_shaped(plan_view(old(pieces)@)),
    ensures
        plan_view(final(pieces)@) == granted(plan_view(old(pieces)@), p as int),
        plan_shaped(plan_view(final(pieces)@)),
        open_count(plan_view(final(pieces)@)) == open_count(plan_view(old(pieces)@)),
    no_unwind
{
    let ghost before = plan_view(pieces@);
    flag_all(&mut pieces[p], true);
    proof {
        lemma_update_view(old(pieces)@, pieces@, p as int);
        lemma_flags_keep_layout(before, p as int, all_flagged(before[p as int].blocks, true));
        lemma_same_layout_shaped(before, plan_view(pieces@));
    }
}

/// Takes back the blocks `list` of piece `p`, unless the piece is completed.
fn give_back(pieces: &mut Vec<Piece>, p: usize, list: &Vec<u32>)
    requires
        plan_shaped(plan_view(old(pieces)@)),
    ensures
        plan_view(final(pieces)@) == given_back(plan_view(old(pieces)@), p as int, list@),
        plan_shaped(plan_view(final(pieces)@)),
        open_count(plan_view(final(pieces)@)) == open_count(plan_view(old(pieces)@)),
    no_unwind
{
    let ghost before = plan_view(pieces@);
    if p < pieces.len() {
        assert(before[p as int] == pieces@[p as int]@);
        if !pieces[p].completed {
            proof {
                assert(piece_shaped(before[p as int]));
                lemma_block_count_bound(before[p as int].length as int);
            }
            release_some(&mut pieces[p], list);
            proof {
                lemma_update_view(old(pieces)@, pieces@, p as int);
                lemma_flags_keep_layout(
                    before,
                    p as int,
                    some_released(before[p as int].blocks, list@),
                );
                lemma_same_layout_shaped(before, plan_view(pieces@));
            }
        }
    }
}

/// Records the outcome of checking piece `p` against its hash.
fn settle(pieces: &mut Vec<Piece>, left: &mut usize, p: usize, matches: bool)
    requires
        plan_shaped(plan_view(old(pieces)@)),
        *old(left) == open_count(plan_view(old(pieces)@)),
    ensures
        plan_view(final(pieces)@) == settled(plan_view(old(pieces)@), p as int, matches),
        plan_shaped(plan_view(final(pieces)@)),
        *final(left) == open_count(plan_view(final(pieces)@)),
        *final(left) <= *old(left),
    no_unwind
{
    let ghost before = plan_view(pieces@);
    if p < pieces.len() {
        assert(before[p as int] == pieces@[p as int]@);
        if !pieces[p].completed {
            if matches {
                pieces[p].completed = true;
                proof {
                    lemma_update_view(old(pieces)@, pieces@, p as int);
                    lemma_open_count_update(before, p as int, pieces@[p as int]@);
                    assert(same_layout(before, plan_view(pieces@)));
                    lemma_same_layout_shaped(before, plan_view(pieces@));
                }
                *left = *left - 1;
            } else {
                flag_all(&mut pieces[p], false);
                proof {
                    lemma_update_view(old(pieces)@, pieces@, p as int);
                    lemma_flags_keep_layout(
                        before,
                        p as int,
                        all_flagged(before[p as int].blocks, false),
                    );
                    lemma_same_layout_shaped(before, plan_view(pieces@));
                }
            }
        }
    }
}

/// Counts one more peer that advertises piece `i`.
fn count_peer(pieces: &mut Vec<Piece>, i: usize)
    requires
        plan_shaped(plan_view(old(pieces)@)),
    ensures
        plan_view(final(pieces)@) == advertised(plan_view(old(pieces)@), i as int),
        plan_shaped(plan_view(final(pieces)@)),
        open_count(plan_view(final(pieces)@)) == open_count(plan_view(old(pieces)@)),
    no_unwind
{
    let ghost before = plan_view(pieces@);
    if i < pieces.len() {
        assert(before[i as int] == pieces@[i as int]@);
        if pieces[i].ref_no < u16::MAX {
            pieces[i].ref_no = pieces[i].ref_no + 1;
        }
        proof {
            lemma_update_view(old(pieces)@, pieces@, i as int);
            lemma_open_count_update(before, i as int, pieces@[i as int]@);
            assert(same_layout(before, plan_view(pieces@)));
            lemma_same_layout_shaped(before, plan_view(pieces@));
        }
    }
}

/// The hashes of a plan as values.
pub open spec fn hashes_view(hashes: Seq<Vec<u8>>) -> Seq<Seq<u8>> {
    hashes.map_values(|h: Vec<u8>| h@)
}

/// The scheduler's state as a value.
#[verifier::ext_equal]
pub struct PlanView {
    /// The pieces, in payload order.
    pub pieces: Seq<PieceView>,
    /// The expected SHA-1 digest of each piece.
    pub hashes: Seq<Seq<u8>>,
    /// Number of pieces still to complete.
    pub left: nat,
    /// Bytes received in blocks so far.
    pub downloaded: u64,
}

/// Whether a scheduler state is consistent: the pieces are laid out as a
/// plan lays them out, each piece has a hash, and the counter of pieces
/// left is the number of pieces that are not completed.
pub open spec fn plan_ok(v: PlanView) -> bool {
    &&& plan_shaped(v.pieces)
    &&& v.hashes.len() == v.pieces.len()
    &&& v.left == open_count(v.pieces)
}

/// Whether state `b` can come after state `a`: the layout and the hashes
/// are the same, no counter went back, and a piece that was completed is
/// still completed, with its blocks as they were.
pub open spec fn follows(a: PlanView, b: PlanView) -> bool {
    &&& same_layout(a.pieces, b.pieces)
    &&& a.hashes == b.hashes
    &&& b.left <= a.left
    &&& b.downloaded >= a.downloaded
    &&& forall|i: int|
        0 <= i < a.pieces.len() && (#[trigger] a.pieces[i]).completed ==> b.pieces[i].completed
            && b.pieces[i].blocks == a.pieces[i].blocks
}

/// The downloaded counter after `n` more bytes, which stops at the largest
/// number it holds.
pub open spec fn counted(downloaded: u64, n: u64) -> u64 {
    if downloaded + n <= u64::MAX {
        (downloaded + n) as u64
    } else {
        u64::MAX
    }
}

/// Later states follow earlier ones through any state in between.
pub proof fn lemma_follows_chain(a: PlanView, b: PlanView, c: PlanView)
    requires
        follows(a, b),
        follows(b, c),
    ensures
        follows(a, c),
{
    assert forall|i: int|
        0 <= i < a.pieces.len() && (#[trigger] a.pieces[i]).completed implies c.pieces[i].completed
        && c.pieces[i].blocks == a.pieces[i].blocks by {
        assert(b.pieces[i].completed);
    }
    assert forall|i: int, j: int|
        0 <= i < a.pieces.len() && 0 <= j < a.pieces[i].blocks.len() implies {
        &&& (#[trigger] a.pieces[i].blocks[j]).length == c.pieces[i].blocks[j].length
        &&& a.pieces[i].blocks[j].offset == c.pieces[i].blocks[j].offset
    } by {
        assert(a.pieces[i].blocks.len() == b.pieces[i].blocks.len());
        assert(a.pieces[i].blocks[j].length == b.pieces[i].blocks[j].length);
        assert(b.pieces[i].blocks[j].length == c.pieces[i].blocks[j].length);
    }
    assert forall|i: int| 0 <= i < a.pieces.len() implies {
        &&& (#[trigger] a.pieces[i]).length == c.pieces[i].length
        &&& a.pieces[i].blocks.len() == c.pieces[i].blocks.len()
    } by {
        assert(a.pieces[i].length == b.pieces[i].length);
        assert(b.pieces[i].length == c.pieces[i].length);
    }
}

/// Whether `data` is the content of a piece of `length` bytes with digest
/// `hash`.
pub open spec fn piece_matches(data: Seq<u8>, length: u64, hash: Seq<u8>) -> bool {
    data.len() == length && sha1(data) == hash
}

/// Whether the SHA-1 digest of `data` is `hash`.
pub fn verify_piece(data: &[u8], hash: &[u8]) -> (ok: bool)
    ensures
        ok == (sha1(data@) == hash@),
{
    let digest = sha1_digest(data);
    same_bytes(digest.as_slice(), hash)
}

fn count_open(pieces: &Vec<Piece>) -> (n: usize)
    ensures
        n == open_count(plan_view(pieces@)),
{
    let ghost plan = plan_view(pieces@);
    let mut n: usize = 0;
    let mut i: usize = 0;
    while i < pieces.len()
        invariant
            i <= pieces@.len(),
            plan == plan_view(pieces@),
            n == open_count(plan.take(i as int)),
            n <= i,
        decreases pieces@.len() - i,
    {
        proof {
            assert(plan.take(i + 1).drop_last() == plan.take(i as int));
            assert(plan.take(i + 1).last() == pieces@[i as int]@);
        }
        if !pieces[i].completed {
            n += 1;
        }
        i += 1;
    }
    proof {
        assert(plan.take(pieces@.len() as int) == plan);
    }
    n
}

fn plan_is_shaped(pieces: &Vec<Piece>) -> (ok: bool)
    ensures
        ok == plan_shaped(plan_view(pieces@)),
{
    if pieces.len() > u32::MAX as usize {
        return false;
    }
    let ghost plan = plan_view(pieces@);
    let mut i: usize = 0;
    while i < pieces.len()
        invariant
            i <= pieces@.len(),
            plan == plan_view(pieces@),
            forall|k: int| 0 <= k < i ==> piece_shaped(#[trigger] plan[k]),
        decreases pieces@.len() - i,
    {
        assert(plan[i as int] == pieces@[i as int]@);
        if !piece_is_shaped(&pieces[i]) {
            return false;
        }
        i += 1;
    }
    true
}

/// The state that all sessions share: the pieces with their request and
/// completion flags, the hash of each piece, and the two counters.
pub struct PiecePlan {
    pieces: Vec<Piece>,
    hashes: Vec<Vec<u8>>,
    left: usize,
    downloaded: u64,
}

impl View for PiecePlan {
    type V = PlanView;

    closed spec fn view(&self) -> PlanView {
        PlanView {
            pieces: plan_view(self.pieces@),
            hashes: hashes_view(self.hashes@),
            left: self.left as nat,
            downloaded: self.downloaded,
        }
    }
}

impl PiecePlan {
    #[verifier::type_invariant]
    spec fn consistent(self) -> bool {
        plan_ok(self@)
    }

    /// A scheduler over `pieces` and their `hashes`, with nothing
    /// downloaded yet; none if the pieces are not laid out as a plan lays
    /// them out or the hashes are not one for each piece.
    pub fn new(pieces: Vec<Piece>, hashes: Vec<Vec<u8>>) -> (plan: Option<PiecePlan>)
        ensures
            plan is Some <==> plan_shaped(plan_view(pieces@)) && hashes@.len() == pieces@.len(),
            plan matches Some(made) ==> made@ == (PlanView {
                pieces: plan_view(pieces@),
                hashes: hashes_view(hashes@),
                left: open_count(plan_view(pieces@)),
                downloaded: 0,
            }),
    {
        if hashes.len() != pieces.len() || !plan_is_shaped(&pieces) {
            return None;
        }
        let left = count_open(&pieces);
        Some(PiecePlan { pieces, hashes, left, downloaded: 0 })
    }

    /// Number of pieces. Every scheduler's state is consistent.
    pub fn len(&self) -> (n: usize)
        ensures
            n == self@.pieces.len(),
            plan_ok(self@),
    {
        proof {
            use_type_invariant(self);
        }
        self.pieces.len()
    }

    /// Number of pieces still to complete.
    pub fn pieces_left(&self) -> (n: usize)
        ensures
            n == self@.left,
            n == open_count(self@.pieces),
    {
        proof {
            use_type_invariant(self);
        }
        self.left
    }

    /// Bytes received in blocks so far.
    pub fn downloaded(&self) -> (n: u64)
        ensures
            n == self@.downloaded,
    {
        self.downloaded
    }

    /// The pieces, to be read.
    pub fn pieces(&self) -> (pieces: &Vec<Piece>)
        ensures
            plan_view(pieces@) == self@.pieces,
    {
        &self.pieces
    }

    /// Where the bytes of piece `p` lie in the payload: the offset of its
    /// first block and its length. None if there is no such piece.
    pub fn piece_span(&self, p: usize) -> (span: Option<(u64, u64)>)
        ensures
            span == (if p < self@.pieces.len() {
                Some((self@.pieces[p as int].blocks[0].offset, self@.pieces[p as int].length))
            } else {
                None
            }),
    {
        proof {
            use_type_invariant(self);
        }
        if p < self.pieces.len() {
            assert(self@.pieces[p as int] == self.pieces@[p as int]@);
            assert(piece_shaped(self@.pieces[p as int]));
            Some((self.pieces[p].blocks[0].offset, self.pieces[p].length))
        } else {
            None
        }
    }

    /// Block `j` of piece `p`, if there is one.
    pub fn block(&self, p: usize, j: usize) -> (found: Option<Block>)
        ensures
            found == (if p < self@.pieces.len() && j < self@.pieces[p as int].blocks.len() {
                Some(self@.pieces[p as int].blocks[j as int])
            } else {
                None
            }),
    {
        if p < self.pieces.len() {
            assert(self@.pieces[p as int] == self.pieces@[p as int]@);
            if j < self.pieces[p].blocks.len() {
                return Some(self.pieces[p].blocks[j]);
            }
        }
        None
    }

    /// Counts one more peer that advertises piece `i`. An index past the
    /// last piece changes nothing.
    pub fn advertise(&mut self, i: usize)
        ensures
            final(self)@ == (PlanView {
                pieces: advertised(old(self)@.pieces, i as int),
                ..old(self)@
            }),
            follows(old(self)@, final(self)@),
            plan_ok(old(self)@),
            plan_ok(final(self)@),
    {
        proof {
            use_type_invariant(&*self);
        }
        count_peer(&mut self.pieces, i);
    }

    /// Adds the length of a received block to the counter of downloaded
    /// bytes, which stops at the largest number it holds.
    pub fn add_downloaded(&mut self, n: u64)
        ensures
            final(self)@ == (PlanView {
                downloaded: counted(old(self)@.downloaded, n),
                ..old(self)@
            }),
            follows(old(self)@, final(self)@),
            plan_ok(old(self)@),
            plan_ok(final(self)@),
    {
        proof {
            use_type_invariant(&*self);
        }
        self.downloaded = self.downloaded.saturating_add(n);
    }

    /// Chooses the piece to ask a peer with `bitfield` for, rarest first
    /// and lowest index among equally rare ones, marks all its blocks
    /// requested, and returns the piece with the indices of the blocks that
    /// were free, in ascending order. Where no piece can be asked of the
    /// peer, returns no piece and changes nothing.
    pub fn make_request(&mut self, bitfield: &Vec<bool>) -> (asked: (Vec<u32>, Option<usize>))
        ensures
            match asked.1 {
                Some(p) => {
                    &&& is_rarest(old(self)@.pieces, bitfield@, p as int)
                    &&& asked.0@ == free_blocks(old(self)@.pieces[p as int].blocks)
                    &&& asked.0@.len() > 0
                    &&& final(self)@ == (PlanView {
                        pieces: granted(old(self)@.pieces, p as int),
                        ..old(self)@
                    })
                },
                None => {
                    &&& forall|k: int| !#[trigger] selectable(old(self)@.pieces, bitfield@, k)
                    &&& asked.0@.len() == 0
                    &&& final(self)@ == old(self)@
                },
            },
            follows(old(self)@, final(self)@),
            plan_ok(old(self)@),
            plan_ok(final(self)@),
    {
        proof {
            use_type_invariant(&*self);
        }
        match select_piece(&self.pieces, bitfield) {
            Some(p) => {
                proof {
                    lemma_free_blocks_nonempty(self@.pieces[p as int].blocks);
                }
                assert(self@.pieces[p as int] == self.pieces@[p as int]@);
                assert(piece_shaped(self@.pieces[p as int]));
                let list = free_list(&self.pieces[p]);
                grant(&mut self.pieces, p);
                (list, Some(p))
            },
            None => (Vec::new(), None),
        }
    }

    /// Gives back the blocks `blocks` of piece `p`, which a session asked
    /// for and did not receive: clears the request flag of exactly those
    /// blocks. A completed piece, or an index past the last piece, changes
    /// nothing.
    pub fn release(&mut self, p: usize, blocks: &Vec<u32>)
        ensures
            final(self)@ == (PlanView {
                pieces: given_back(old(self)@.pieces, p as int, blocks@),
                ..old(self)@
            }),
            follows(old(self)@, final(self)@),
            plan_ok(old(self)@),
            plan_ok(final(self)@),
    {
        proof {
            use_type_invariant(&*self);
        }
        give_back(&mut self.pieces, p, blocks);
    }

    /// Checks what stands in the payload for piece `p` before the download
    /// starts: `data` are the bytes found there. A piece whose bytes match
    /// its hash is completed, and its length counts as downloaded.
    pub fn verify_file(&mut self, p: usize, data: &[u8]) -> (ok: bool)
        ensures
            ok == (p < old(self)@.pieces.len() && piece_matches(
                data@,
                old(self)@.pieces[p as int].length,
                old(self)@.hashes[p as int],
            )),
            final(self)@ == (PlanView {
                pieces: settled(old(self)@.pieces, p as int, ok),
                left: open_count(settled(old(self)@.pieces, p as int, ok)),
                downloaded: if ok {
                    counted(old(self)@.downloaded, old(self)@.pieces[p as int].length)
                } else {
                    old(self)@.downloaded
                },
                ..old(self)@
            }),
            follows(old(self)@, final(self)@),
            plan_ok(old(self)@),
            plan_ok(final(self)@),
    {
        let ghost start = self@;
        let ok = self.verify(p, data);
        if ok {
            let ghost mid = self@;
            let length: u64 = self.pieces[p].length;
            proof {
                assert(self@.pieces[p as int] == self.pieces@[p as int]@);
            }
            self.add_downloaded(length);
            proof {
                lemma_follows_chain(start, mid, self@);
            }
        }
        ok
    }

    /// Frees all blocks of piece `p` to be requested again, as after a
    /// failed check. A completed piece, or an index past the last piece,
    /// changes nothing.
    pub fn reset(&mut self, p: usize)
        ensures
            final(self)@ == (PlanView {
                pieces: settled(old(self)@.pieces, p as int, false),
                ..old(self)@
            }),
            follows(old(self)@, final(self)@),
            plan_ok(old(self)@),
            plan_ok(final(self)@),
    {
        proof {
            use_type_invariant(&*self);
            lemma_settled_false_keeps_count(self@.pieces, p as int);
        }
        settle(&mut self.pieces, &mut self.left, p, false);
    }

    /// Checks `data`, the bytes of piece `p` as they stand in the payload,
    /// against the piece's hash, and records the outcome. On a match the
    /// piece is completed and one piece fewer is left; on a mismatch all
    /// blocks of the piece are free to be requested again. A piece that
    /// was completed before stays completed.
    pub fn verify(&mut self, p: usize, data: &[u8]) -> (ok: bool)
        ensures
            ok == (p < old(self)@.pieces.len() && piece_matches(
                data@,
                old(self)@.pieces[p as int].length,
                old(self)@.hashes[p as int],
            )),
            final(self)@ == (PlanView {
                pieces: settled(old(self)@.pieces, p as int, ok),
                left: open_count(settled(old(self)@.pieces, p as int, ok)),
                ..old(self)@
            }),
            follows(old(self)@, final(self)@),
            plan_ok(old(self)@),
            plan_ok(final(self)@),
    {
        proof {
            use_type_invariant(&*self);
        }
        if p >= self.pieces.len() {
            return false;
        }
        assert(self@.pieces[p as int] == self.pieces@[p as int]@);
        assert(self@.hashes[p as int] == self.hashes@[p as int]@);
        let ok = data.len() as u64 == self.pieces[p].length && verify_piece(
            data,
            self.hashes[p].as_slice(),
        );
        settle(&mut self.pieces, &mut self.left, p, ok);
        ok
    }
}

/// Whether checking `data` against the hash of piece `p` gives a match.
pub open spec fn verdict(v: PlanView, p: int, data: Seq<u8>) -> bool {
    0 <= p < v.pieces.len() && piece_matches(data, v.pieces[p].length, v.hashes[p])
}

/// The state with other pieces and the counter of pieces left that goes
/// with them.
pub open spec fn with_pieces(v: PlanView, pieces: Seq<PieceView>) -> PlanView {
    PlanView { pieces, left: open_count(pieces), ..v }
}

/// Each step that the scheduler takes leaves its state consistent and is
/// a step forward: advertising a piece, handing out a piece that is not
/// completed, taking blocks back, and recording the outcome of a check.
/// None but a check with a match completes a piece, and that one completes
/// no other piece.
pub proof fn lemma_plan_steps(v: PlanView, p: int, list: Seq<u32>, matches: bool)
    requires
        plan_ok(v),
    ensures
        plan_ok(with_pieces(v, advertised(v.pieces, p))),
        follows(v, with_pieces(v, advertised(v.pieces, p))),
        plan_ok(with_pieces(v, given_back(v.pieces, p, list))),
        follows(v, with_pieces(v, given_back(v.pieces, p, list))),
        plan_ok(with_pieces(v, settled(v.pieces, p, matches))),
        follows(v, with_pieces(v, settled(v.pieces, p, matches))),
        0 <= p < v.pieces.len() && !v.pieces[p].completed ==> plan_ok(
            with_pieces(v, granted(v.pieces, p)),
        ) && follows(v, with_pieces(v, granted(v.pieces, p))),
        open_count(advertised(v.pieces, p)) == v.left,
        open_count(given_back(v.pieces, p, list)) == v.left,
        !matches ==> open_count(settled(v.pieces, p, matches)) == v.left,
        0 <= p < v.pieces.len() ==> open_count(granted(v.pieces, p)) == v.left,
        forall|i: int|
            0 <= i < v.pieces.len() ==> {
                &&& (#[trigger] advertised(v.pieces, p)[i]).completed == v.pieces[i].completed
                &&& (#[trigger] given_back(v.pieces, p, list)[i]).completed
                    == v.pieces[i].completed
                &&& 0 <= p < v.pieces.len() ==> (#[trigger] granted(v.pieces, p)[i]).completed
                    == v.pieces[i].completed
                &&& (#[trigger] settled(v.pieces, p, matches)[i]).completed == (
                v.pieces[i].completed || (i == p && matches))
            },
{
    let pieces = v.pieces;
    if 0 <= p < pieces.len() {
        let a = advertised(pieces, p);
        lemma_open_count_update(pieces, p, a[p]);
        assert(same_layout(pieces, a));
        lemma_same_layout_shaped(pieces, a);
        lemma_flags_keep_layout(pieces, p, all_flagged(pieces[p].blocks, true));
        lemma_same_layout_shaped(pieces, granted(pieces, p));
        if !pieces[p].completed {
            lemma_flags_keep_layout(pieces, p, some_released(pieces[p].blocks, list));
            lemma_same_layout_shaped(pieces, given_back(pieces, p, list));
            let s = settled(pieces, p, matches);
            lemma_open_count_update(pieces, p, s[p]);
            lemma_open_count_bound(pieces);
            if matches {
                assert(same_layout(pieces, s));
            } else {
                lemma_flags_keep_layout(pieces, p, all_flagged(pieces[p].blocks, false));
            }
            lemma_same_layout_shaped(pieces, s);
        }
    }
}

proof fn lemma_settled_false_keeps_count(pieces: Seq<PieceView>, p: int)
    ensures
        open_count(settled(pieces, p, false)) == open_count(pieces),
{
    if 0 <= p < pieces.len() && !pieces[p].completed {
        lemma_open_count_update(
            pieces,
            p,
            with_blocks(pieces[p], all_flagged(pieces[p].blocks, false)),
        );
    }
}

proof fn lemma_free_blocks_nonempty(blocks: Seq<Block>)
    requires
        exists|j: int| 0 <= j < blocks.len() && !(#[trigger] blocks[j]).is_req,
    ensures
        free_blocks(blocks).len() > 0,
    decreases blocks.len(),
{
    if blocks.last().is_req {
        let j = choose|j: int| 0 <= j < blocks.len() && !(#[trigger] blocks[j]).is_req;
        assert(blocks.drop_last()[j] == blocks[j]);
        lemma_free_blocks_nonempty(blocks.drop_last());
    }
}

/// Says what the session spawner does next: it ends once no piece is left,
/// waits while as many peers are connected as may be or none is pending,
/// and otherwise takes the peer that has waited longest out of the queue to
/// be connected to.
pub fn download_file(pool: &mut PeerPool, pieces_left: usize) -> (step: SpawnStep)
    ensures
        final(pool)@.connected == old(pool)@.connected,
        step == (if pieces_left == 0 {
            SpawnStep::Stop
        } else if old(pool)@.connected.len() >= CONN_LIMIT || old(pool)@.pending.len() == 0 {
            SpawnStep::Wait
        } else {
            SpawnStep::Connect(old(pool)@.pending[0])
        }),
        final(pool)@.pending == (if step is Connect {
            old(pool)@.pending.skip(1)
        } else {
            old(pool)@.pending
        }),
{
    pool.next_peer(pieces_left)
}

} // verus!
