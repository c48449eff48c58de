//! The metainfo model and the piece and block plan derived from it.

use vstd::prelude::*;
use vstd::string::StringExecFns;
use vstd::utf8::{decode_utf8, valid_utf8};
use crate::bencoded_parser::{
    entry_views, lemma_dict_view, lemma_list_view, views, Element, Value,
};
use crate::bencoded_parser::{info_bytes, parse_value, Bencode};
use crate::digest::sha1;
use crate::download::{lemma_initial_plan_shaped, plan_shaped};
use crate::helpers::{
    decimal_text, gen_random_id, lossy_text, push_char, push_decimal_text, same_bytes, utf8_lossy,
    utf8_text, BLOCK_SIZE,
};

verus! {

/// One request-sized part of a piece.
#[derive(Clone, Copy, Debug)]
pub struct Block {
    /// Whether some session has asked a peer for this block.
    pub is_req: bool,
    /// Length in bytes.
    pub length: u64,
    /// Offset of the block's first byte in the whole payload.
    pub offset: u64,
}

/// One hash-verified part of the payload.
#[derive(Clone, Debug)]
pub struct Piece {
    /// How many peers have advertised this piece.
    pub ref_no: u16,
    /// Length in bytes.
    pub length: u64,
    /// The blocks of the piece, in payload order.
    pub blocks: Vec<Block>,
    /// Whether the piece's bytes have been verified against its hash.
    pub completed: bool,
}

/// A piece as a value: its counters and flags, and its blocks as a sequence.
#[verifier::ext_equal]
pub struct PieceView {
    pub ref_no: u16,
    pub length: u64,
    pub blocks: Seq<Block>,
    pub completed: bool,
}

impl View for Piece {
    type V = PieceView;

    open spec fn view(&self) -> PieceView {
        PieceView {
            ref_no: self.ref_no,
            length: self.length,
            blocks: self.blocks@,
            completed: self.completed,
        }
    }
}

/// The pieces of a plan as values.
pub open spec fn plan_view(pieces: Seq<Piece>) -> Seq<PieceView> {
    pieces.map_values(|p: Piece| p@)
}

/// Whether `piece_no` pieces of declared length `piece_length` can hold a
/// payload of `length` bytes with a last piece that is neither empty nor too
/// long.
pub open spec fn sizes_agree(piece_no: int, piece_length: int, length: int) -> bool {
    &&& piece_length > 0
    &&& piece_no >= 0
    &&& length >= 0
    &&& (piece_no - 1) * piece_length < length <= piece_no * piece_length
}

/// Length of piece `i`: the declared length, but for the last piece what is
/// left of the payload.
pub open spec fn piece_len(i: int, piece_no: int, piece_length: int, length: int) -> int {
    if i + 1 < piece_no {
        piece_length
    } else {
        length - (piece_no - 1) * piece_length
    }
}

/// Number of blocks in a piece of `len` bytes.
pub open spec fn block_count(len: int) -> int {
    (len + BLOCK_SIZE - 1) / (BLOCK_SIZE as int)
}

/// Length of block `j` in a piece of `len` bytes: `BLOCK_SIZE`, but for the
/// last block what is left of the piece.
pub open spec fn block_len(j: int, len: int) -> int {
    if j + 1 < block_count(len) {
        BLOCK_SIZE as int
    } else {
        len - (block_count(len) - 1) * BLOCK_SIZE
    }
}

/// Offset in the payload of block `j` of piece `i`.
pub open spec fn block_offset(i: int, j: int, piece_length: int) -> int {
    i * piece_length + j * BLOCK_SIZE
}

/// Whether `piece` is piece `i` of the initial plan for the given sizes.
pub open spec fn is_initial_piece(
    piece: Piece,
    i: int,
    piece_no: int,
    piece_length: int,
    length: int,
) -> bool {
    let len = piece_len(i, piece_no, piece_length, length);
    &&& piece.ref_no == 0
    &&& !piece.completed
    &&& piece.length == len
    &&& piece.blocks@.len() == block_count(len)
    &&& forall|j: int|
        0 <= j < piece.blocks@.len() ==> {
            &&& !(#[trigger] piece.blocks@[j]).is_req
            &&& piece.blocks@[j].length == block_len(j, len)
            &&& piece.blocks@[j].offset == block_offset(i, j, piece_length)
        }
}

/// Whether `plan` is the initial plan for the given sizes: nothing requested,
/// nothing completed, every block in its place.
pub open spec fn is_initial_plan(
    plan: Seq<Piece>,
    piece_no: int,
    piece_length: int,
    length: int,
) -> bool {
    &&& plan.len() == piece_no
    &&& forall|i: int|
        0 <= i < plan.len() ==> is_initial_piece(
            #[trigger] plan[i],
            i,
            piece_no,
            piece_length,
            length,
        )
}

/// Where the sizes agree, every piece starts within the payload, is not
/// empty and no longer than the piece length, and the last piece ends the
/// payload.
pub proof fn lemma_piece_start(i: int, piece_no: int, piece_length: int, length: int)
    requires
        sizes_agree(piece_no, piece_length, length),
        0 <= i < piece_no,
    ensures
        0 <= i * piece_length < length,
        (i + 1) * piece_length == i * piece_length + piece_length,
        0 < piece_len(i, piece_no, piece_length, length) <= piece_length,
        i * piece_length + piece_len(i, piece_no, piece_length, length) <= length,
        i + 1 == piece_no ==> i * piece_length + piece_len(i, piece_no, piece_length, length)
            == length,
{
    assert((i + 1) * piece_length == i * piece_length + piece_length) by (nonlinear_arith);
    assert(0 <= i * piece_length) by (nonlinear_arith)
        requires
            0 <= i,
            0 < piece_length,
    ;
    assert(i * piece_length <= (piece_no - 1) * piece_length) by (nonlinear_arith)
        requires
            i <= piece_no - 1,
            0 < piece_length,
    ;
    if i + 1 < piece_no {
        assert((i + 1) * piece_length <= (piece_no - 1) * piece_length) by (nonlinear_arith)
            requires
                i + 1 <= piece_no - 1,
                0 < piece_length,
        ;
    } else {
        assert(piece_no * piece_length == (piece_no - 1) * piece_length + piece_length)
            by (nonlinear_arith);
    }
}

/// Sum of the lengths of `blocks`.
pub open spec fn blocks_total(blocks: Seq<Block>) -> int
    decreases blocks.len(),
{
    if blocks.len() == 0 {
        0
    } else {
        blocks_total(blocks.drop_last()) + blocks.last().length
    }
}

/// Sum of the lengths of all blocks of all pieces of `plan`.
pub open spec fn plan_total(plan: Seq<Piece>) -> int
    decreases plan.len(),
{
    if plan.len() == 0 {
        0
    } else {
        plan_total(plan.drop_last()) + blocks_total(plan.last().blocks@)
    }
}

/// Whether block `j1` of piece `i1` comes before block `j2` of piece `i2`.
pub open spec fn block_before(i1: int, j1: int, i2: int, j2: int) -> bool {
    i1 < i2 || (i1 == i2 && j1 < j2)
}

proof fn lemma_blocks_prefix(blocks: Seq<Block>, len: int, k: int)
    requires
        len > 0,
        blocks.len() == block_count(len),
        forall|j: int| 0 <= j < blocks.len() ==> (#[trigger] blocks[j]).length == block_len(j, len),
        0 <= k <= blocks.len(),
    ensures
        blocks_total(blocks.take(k)) == (if k < blocks.len() {
            k * BLOCK_SIZE
        } else {
            len
        }),
    decreases k,
{
    if k > 0 {
        lemma_blocks_prefix(blocks, len, k - 1);
        assert(blocks.take(k).drop_last() == blocks.take(k - 1));
        assert(blocks.take(k).last() == blocks[k - 1]);
    }
}

proof fn lemma_plan_prefix(plan: Seq<Piece>, piece_no: int, piece_length: int, length: int, k: int)
    requires
        sizes_agree(piece_no, piece_length, length),
        is_initial_plan(plan, piece_no, piece_length, length),
        0 <= k <= plan.len(),
    ensures
        plan_total(plan.take(k)) == (if k < plan.len() {
            k * piece_length
        } else {
            length
        }),
    decreases k,
{
    if k > 0 {
        lemma_plan_prefix(plan, piece_no, piece_length, length, k - 1);
        lemma_piece_start(k - 1, piece_no, piece_length, length);
        let piece = plan[k - 1];
        assert(plan.take(k).drop_last() == plan.take(k - 1));
        assert(plan.take(k).last() == piece);
        let len = piece_len(k - 1, piece_no, piece_length, length);
        lemma_blocks_prefix(piece.blocks@, len, piece.blocks@.len() as int);
        assert(piece.blocks@.take(piece.blocks@.len() as int) == piece.blocks@);
        assert(blocks_total(piece.blocks@) == len);
        assert(k * piece_length == (k - 1) * piece_length + piece_length) by (nonlinear_arith);
        assert(plan_total(plan.take(k)) == plan_total(plan.take(k - 1)) + len);
    } else {
        assert(0 * piece_length == 0);
        assert(plan.take(0).len() == 0);
        if plan.len() == 0 {
            assert(piece_no * piece_length == 0) by (nonlinear_arith)
                requires
                    piece_no == 0,
            ;
        }
    }
}

/// The initial plan covers the payload exactly: the blocks of each piece add
/// up to the piece's length, all blocks together add up to the payload's
/// length, no block is empty, the first block starts at offset 0, and the
/// offsets grow strictly from each block to the next, within a piece and
/// from piece to piece.
pub proof fn lemma_plan_covers_payload(
    plan: Seq<Piece>,
    piece_no: int,
    piece_length: int,
    length: int,
)
    requires
        sizes_agree(piece_no, piece_length, length),
        is_initial_plan(plan, piece_no, piece_length, length),
    ensures
        plan_total(plan) == length,
        forall|i: int|
            0 <= i < plan.len() ==> blocks_total(#[trigger] plan[i].blocks@) == plan[i].length,
        forall|i: int, j: int|
            0 <= i < plan.len() && 0 <= j < plan[i].blocks@.len() ==> (
            #[trigger] plan[i].blocks@[j]).length > 0,
        plan.len() > 0 ==> plan[0].blocks@.len() > 0 && plan[0].blocks@[0].offset == 0,
        forall|i1: int, j1: int, i2: int, j2: int|
            0 <= i1 < plan.len() && 0 <= j1 < plan[i1].blocks@.len() && 0 <= i2 < plan.len() && 0
                <= j2 < plan[i2].blocks@.len() && block_before(i1, j1, i2, j2) ==> (
            #[trigger] plan[i1].blocks@[j1]).offset + plan[i1].blocks@[j1].length <= (
            #[trigger] plan[i2].blocks@[j2]).offset,
{
    lemma_plan_prefix(plan, piece_no, piece_length, length, plan.len() as int);
    assert(plan.take(plan.len() as int) == plan);
    assert forall|i: int| 0 <= i < plan.len() implies blocks_total(#[trigger] plan[i].blocks@)
        == plan[i].length by {
        lemma_piece_start(i, piece_no, piece_length, length);
        let len = piece_len(i, piece_no, piece_length, length);
        lemma_blocks_prefix(plan[i].blocks@, len, plan[i].blocks@.len() as int);
        assert(plan[i].blocks@.take(plan[i].blocks@.len() as int) == plan[i].blocks@);
    }
    assert forall|i: int, j: int|
        0 <= i < plan.len() && 0 <= j < plan[i].blocks@.len() implies (
    #[trigger] plan[i].blocks@[j]).length > 0 by {
        lemma_piece_start(i, piece_no, piece_length, length);
    }
    if plan.len() > 0 {
        lemma_piece_start(0, piece_no, piece_length, length);
        assert(0 * piece_length + 0 * BLOCK_SIZE == 0);
    }
    assert forall|i1: int, j1: int, i2: int, j2: int|
        0 <= i1 < plan.len() && 0 <= j1 < plan[i1].blocks@.len() && 0 <= i2 < plan.len() && 0
            <= j2 < plan[i2].blocks@.len() && block_before(i1, j1, i2, j2) implies (
    #[trigger] plan[i1].blocks@[j1]).offset + plan[i1].blocks@[j1].length <= (
    #[trigger] plan[i2].blocks@[j2]).offset by {
        lemma_piece_start(i1, piece_no, piece_length, length);
        lemma_piece_start(i2, piece_no, piece_length, length);
        let len1 = piece_len(i1, piece_no, piece_length, length);
        // the end of block j1 lies within piece i1
        assert(j1 * BLOCK_SIZE + block_len(j1, len1) <= len1);
        if i1 < i2 {
            assert((i1 + 1) * piece_length <= i2 * piece_length) by (nonlinear_arith)
                requires
                    i1 + 1 <= i2,
                    0 < piece_length,
            ;
            assert(0 <= j2 * BLOCK_SIZE);
        }
    }
}

/// The blocks of piece `i`, which is `len` bytes long and starts at `start`.
fn build_blocks(
    len: u64,
    start: u64,
    Ghost(i): Ghost<int>,
    Ghost(piece_length): Ghost<int>,
) -> (blocks: Vec<Block>)
    requires
        len > 0,
        start + len <= u64::MAX,
        start == i * piece_length,
    ensures
        blocks@.len() == block_count(len as int),
        forall|j: int|
            0 <= j < blocks@.len() ==> {
                &&& !(#[trigger] blocks@[j]).is_req
                &&& blocks@[j].length == block_len(j, len as int)
                &&& blocks@[j].offset == block_offset(i, j, piece_length)
            },
{
    let mut blocks: Vec<Block> = Vec::new();
    let mut done: u64 = 0;
    while done < len
        invariant
            done <= len,
            len > 0,
            start + len <= u64::MAX,
            start == i * piece_length,
            done == blocks@.len() * BLOCK_SIZE || done == len,
            done < len ==> blocks@.len() < block_count(len as int),
            done == len ==> blocks@.len() == block_count(len as int),
            blocks@.len() <= block_count(len as int),
            forall|j: int|
                0 <= j < blocks@.len() ==> {
                    &&& !(#[trigger] blocks@[j]).is_req
                    &&& blocks@[j].length == block_len(j, len as int)
                    &&& blocks@[j].offset == block_offset(i, j, piece_length)
                },
        decreases len - done,
    {
        let left: u64 = len - done;
        let size: u64 = if left > BLOCK_SIZE as u64 {
            BLOCK_SIZE as u64
        } else {
            left
        };
        blocks.push(Block { is_req: false, length: size, offset: start + done });
        done += size;
    }
    blocks
}

/// Builds the initial plan: `piece_no` pieces of `piece_length` bytes, the
/// last one holding what is left of `length`; each piece cut into blocks of
/// `BLOCK_SIZE` bytes with a shorter last block where the piece's length is
/// no multiple of it; block offsets counted from the start of the payload.
pub fn build_piece_freq(piece_no: usize, piece_length: u64, length: u64) -> (plan: Vec<Piece>)
    requires
        sizes_agree(piece_no as int, piece_length as int, length as int),
    ensures
        is_initial_plan(plan@, piece_no as int, piece_length as int, length as int),
{
    let mut plan: Vec<Piece> = Vec::new();
    let mut curr: u64 = 0;
    let mut i: usize = 0;
    while i < piece_no
        invariant
            i <= piece_no,
            sizes_agree(piece_no as int, piece_length as int, length as int),
            plan@.len() == i,
            i < piece_no ==> curr == i * piece_length,
            curr <= length,
            forall|k: int|
                0 <= k < plan@.len() ==> is_initial_piece(
                    #[trigger] plan@[k],
                    k,
                    piece_no as int,
                    piece_length as int,
                    length as int,
                ),
        decreases piece_no - i,
    {
        proof {
            lemma_piece_start(i as int, piece_no as int, piece_length as int, length as int);
        }
        let len: u64 = if i + 1 < piece_no {
            piece_length
        } else {
            length - curr
        };
        let blocks = build_blocks(len, curr, Ghost(i as int), Ghost(piece_length as int));
        plan.push(Piece { ref_no: 0, length: len, blocks, completed: false });
        curr += len;
        i += 1;
    }
    plan
}

/// A torrent: what its metainfo says, and the state of its download at
/// the start.
pub struct Torrent {
    pub announce_url: Option<String>,
    pub announce_list: Option<Vec<String>>,
    pub name: String,
    pub length: u64,
    pub info_hash: [u8; 20],
    pub peer_list: Vec<(u32, u16)>,
    pub peer_id: [u8; 20],
    pub piece_freq: Vec<Piece>,
    pub downloaded: u64,
    pub uploaded: u64,
    pub connections: Vec<(u32, u16)>,
    pub file_list: Option<Vec<(String, u64)>>,
    pub piece_hashes: Vec<Vec<u8>>,
    pub piece_left: usize,
}

/// Why a decoded value is no metainfo.
#[derive(Debug, PartialEq, Eq, Structural, Clone, Copy)]
pub struct InvalidTorrentFile {
    /// One of the constants below.
    pub case: i32,
}

impl InvalidTorrentFile {
    /// What went wrong, in words: the number of the case in decimal.
    pub fn message(&self) -> (text: String)
        ensures
            text@ == "Keys missing in torrent file "@ + (if self.case < 0 {
                seq!['-'] + decimal_text((-self.case) as nat)
            } else {
                decimal_text(self.case as nat)
            }),
    {
        let mut text = String::new();
        text.append("Keys missing in torrent file ");
        if self.case < 0 {
            push_char(&mut text, '-');
            push_decimal_text(&mut text, (-(self.case as i64)) as u64);
            proof {
                assert(text@ =~= "Keys missing in torrent file "@ + (seq!['-'] + decimal_text(
                    (-self.case) as nat,
                )));
            }
        } else {
            push_decimal_text(&mut text, self.case as u64);
        }
        text
    }
}

/// `announce` is no byte string that holds UTF-8.
pub const ANNOUNCE_MISTYPED: i32 = 0;

/// Neither `announce-list` nor `announce` is there.
pub const ANNOUNCE_MISSING: i32 = 1;

/// `announce-list` is no list of lists of byte strings that hold UTF-8.
pub const ANNOUNCE_LIST_MISTYPED: i32 = 2;

/// `info` is no mapping.
pub const INFO_MISTYPED: i32 = 3;

/// `info` is not there.
pub const INFO_MISSING: i32 = 4;

/// The value is no mapping.
pub const NOT_A_MAPPING: i32 = 5;

/// `info` lacks `name`, `piece length`, `pieces`, or both `length` and
/// `files`.
pub const INFO_KEY_MISSING: i32 = 6;

/// A key of `info` has a value of the wrong type: `name`, `piece length`,
/// `pieces`, `length`, `files` or what `files` holds.
pub const INFO_KEY_MISTYPED: i32 = 7;

/// `info` has both `length` and `files`.
pub const LENGTH_AND_FILES: i32 = 8;

/// The sizes do not fit: the piece length is not between 1 and `u32::MAX`,
/// the payload is longer than 64 bits count, or the number of piece hashes
/// is not the number of pieces that the payload takes.
pub const SIZES_DISAGREE: i32 = 9;

/// The bytes are no bencoded value.
pub const NOT_BENCODED: i32 = 10;

/// The key `announce`.
pub const KEY_ANNOUNCE: [u8; 8] = [97, 110, 110, 111, 117, 110, 99, 101];

/// The key `announce-list`.
pub const KEY_ANNOUNCE_LIST: [u8; 13] = [
    97, 110, 110, 111, 117, 110, 99, 101, 45, 108, 105, 115, 116,
];

/// The key `info`.
pub const KEY_INFO: [u8; 4] = [105, 110, 102, 111];

/// The key `name`.
pub const KEY_NAME: [u8; 4] = [110, 97, 109, 101];

/// The key `piece length`.
pub const KEY_PIECE_LENGTH: [u8; 12] = [112, 105, 101, 99, 101, 32, 108, 101, 110, 103, 116, 104];

/// The key `pieces`.
pub const KEY_PIECES: [u8; 6] = [112, 105, 101, 99, 101, 115];

/// The key `length`.
pub const KEY_LENGTH: [u8; 6] = [108, 101, 110, 103, 116, 104];

/// The key `files`.
pub const KEY_FILES: [u8; 5] = [102, 105, 108, 101, 115];

/// The key `path`.
pub const KEY_PATH: [u8; 4] = [112, 97, 116, 104];

/// The value of the first of `entries` whose key is `key`.
pub open spec fn lookup(entries: Seq<(Seq<u8>, Value)>, key: Seq<u8>) -> Option<Value>
    decreases entries.len(),
{
    if entries.len() == 0 {
        None
    } else if entries[0].0 == key {
        Some(entries[0].1)
    } else {
        lookup(entries.skip(1), key)
    }
}

/// The text of a byte string that holds UTF-8.
pub open spec fn text_of(v: Value) -> Option<Seq<char>> {
    match v {
        Value::ByteString(b) => if valid_utf8(b) {
            Some(decode_utf8(b))
        } else {
            None
        },
        _ => None,
    }
}

/// The texts of the first `n` of `items`, if each is a byte string that
/// holds UTF-8.
pub open spec fn texts_of(items: Seq<Value>, n: nat) -> Option<Seq<Seq<char>>>
    decreases n,
{
    if n == 0 {
        Some(Seq::empty())
    } else {
        match (texts_of(items, (n - 1) as nat), text_of(items[n - 1])) {
            (Some(front), Some(text)) => Some(front.push(text)),
            _ => None,
        }
    }
}

/// The URLs of the first `n` tiers of an announce list, tier after tier,
/// if each tier is a list of byte strings that hold UTF-8.
pub open spec fn tiers_of(tiers: Seq<Value>, n: nat) -> Option<Seq<Seq<char>>>
    decreases n,
{
    if n == 0 {
        Some(Seq::empty())
    } else {
        match (tiers_of(tiers, (n - 1) as nat), tiers[n - 1]) {
            (Some(front), Value::List(urls)) => match texts_of(urls, urls.len()) {
                Some(more) => Some(front + more),
                None => None,
            },
            _ => None,
        }
    }
}

/// The first `n` of `parts` joined with `/`.
pub open spec fn joined(parts: Seq<Seq<char>>, n: nat) -> Seq<char>
    decreases n,
{
    if n == 0 {
        Seq::empty()
    } else if n == 1 {
        parts[0]
    } else {
        joined(parts, (n - 1) as nat) + seq!['/'] + parts[n - 1]
    }
}

/// One entry of `files`: the path, joined with `/`, and the length.
pub open spec fn file_of(v: Value) -> Option<(Seq<char>, u64)> {
    match v {
        Value::Dict(entries) => match (lookup(entries, KEY_LENGTH@), lookup(entries, KEY_PATH@)) {
            (Some(Value::Integer(l)), Some(Value::List(parts))) => match texts_of(
                parts,
                parts.len(),
            ) {
                Some(texts) => if 0 <= l <= u64::MAX {
                    Some((joined(texts, texts.len()), l as u64))
                } else {
                    None
                },
                None => None,
            },
            _ => None,
        },
        _ => None,
    }
}

/// The first `n` entries of `files`, if each is a mapping with a length
/// that is not negative and a path of byte strings that hold UTF-8.
pub open spec fn files_of(items: Seq<Value>, n: nat) -> Option<Seq<(Seq<char>, u64)>>
    decreases n,
{
    if n == 0 {
        Some(Seq::empty())
    } else {
        match (files_of(items, (n - 1) as nat), file_of(items[n - 1])) {
            (Some(front), Some(file)) => Some(front.push(file)),
            _ => None,
        }
    }
}

/// Sum of the lengths of the first `n` of `files`.
pub open spec fn files_total(files: Seq<(Seq<char>, u64)>, n: nat) -> nat
    decreases n,
{
    if n == 0 {
        0
    } else {
        files_total(files, (n - 1) as nat) + files[n - 1].1 as nat
    }
}

/// The piece hashes that `pieces` holds, 20 bytes each.
pub open spec fn hashes_of(pieces: Seq<u8>) -> Seq<Seq<u8>> {
    Seq::new(pieces.len() / 20, |i: int| pieces.subrange(20 * i, 20 * i + 20))
}

/// What a metainfo says, as a value.
pub struct MetainfoView {
    pub announce_url: Option<Seq<char>>,
    pub announce_list: Option<Seq<Seq<char>>>,
    pub name: Seq<char>,
    pub piece_length: u64,
    pub hashes: Seq<Seq<u8>>,
    pub length: u64,
    pub file_list: Option<Seq<(Seq<char>, u64)>>,
}

/// The announce URL and the announce list of a metainfo. With an announce
/// list, all its URLs are taken in order, and `announce` is taken where it
/// is there and holds UTF-8. Without one, `announce` is required.
pub open spec fn announce_of(top: Seq<(Seq<u8>, Value)>) -> Result<
    (Option<Seq<char>>, Option<Seq<Seq<char>>>),
    InvalidTorrentFile,
> {
    match lookup(top, KEY_ANNOUNCE_LIST@) {
        Some(Value::List(tiers)) => match tiers_of(tiers, tiers.len()) {
            Some(urls) => Ok(
                (
                    match lookup(top, KEY_ANNOUNCE@) {
                        Some(v) => text_of(v),
                        None => None,
                    },
                    Some(urls),
                ),
            ),
            None => Err(InvalidTorrentFile { case: ANNOUNCE_LIST_MISTYPED }),
        },
        Some(_) => Err(InvalidTorrentFile { case: ANNOUNCE_LIST_MISTYPED }),
        None => match lookup(top, KEY_ANNOUNCE@) {
            Some(v) => match text_of(v) {
                Some(url) => Ok((Some(url), None)),
                None => Err(InvalidTorrentFile { case: ANNOUNCE_MISTYPED }),
            },
            None => Err(InvalidTorrentFile { case: ANNOUNCE_MISSING }),
        },
    }
}

/// The payload's length and its files, from `length` or from `files`.
pub open spec fn payload_of(info: Seq<(Seq<u8>, Value)>) -> Result<
    (u64, Option<Seq<(Seq<char>, u64)>>),
    InvalidTorrentFile,
> {
    match (lookup(info, KEY_LENGTH@), lookup(info, KEY_FILES@)) {
        (None, None) => Err(InvalidTorrentFile { case: INFO_KEY_MISSING }),
        (Some(_), Some(_)) => Err(InvalidTorrentFile { case: LENGTH_AND_FILES }),
        (Some(Value::Integer(l)), None) => if 0 <= l <= u64::MAX {
            Ok((l as u64, None))
        } else {
            Err(InvalidTorrentFile { case: INFO_KEY_MISTYPED })
        },
        (Some(_), None) => Err(InvalidTorrentFile { case: INFO_KEY_MISTYPED }),
        (None, Some(Value::List(items))) => match files_of(items, items.len()) {
            Some(files) => if files_total(files, files.len()) <= u64::MAX {
                Ok((files_total(files, files.len()) as u64, Some(files)))
            } else {
                Err(InvalidTorrentFile { case: SIZES_DISAGREE })
            },
            None => Err(InvalidTorrentFile { case: INFO_KEY_MISTYPED }),
        },
        (None, Some(_)) => Err(InvalidTorrentFile { case: INFO_KEY_MISTYPED }),
    }
}

/// What the `info` mapping says.
pub open spec fn info_of(
    info: Seq<(Seq<u8>, Value)>,
    announce: (Option<Seq<char>>, Option<Seq<Seq<char>>>),
) -> Result<MetainfoView, InvalidTorrentFile> {
    match (lookup(info, KEY_NAME@), lookup(info, KEY_PIECE_LENGTH@), lookup(info, KEY_PIECES@)) {
        (Some(name), Some(piece_length), Some(pieces)) => match payload_of(info) {
            Err(e) => Err(e),
            Ok((length, file_list)) => match (name, piece_length, pieces) {
                (Value::ByteString(n), Value::Integer(l), Value::ByteString(p)) => if p.len() % 20
                    != 0 {
                    Err(InvalidTorrentFile { case: INFO_KEY_MISTYPED })
                } else if !(0 < l <= u32::MAX) || p.len() / 20 > u32::MAX || !sizes_agree(
                    p.len() as int / 20,
                    l,
                    length as int,
                ) {
                    Err(InvalidTorrentFile { case: SIZES_DISAGREE })
                } else {
                    Ok(
                        MetainfoView {
                            announce_url: announce.0,
                            announce_list: announce.1,
                            name: lossy_text(n),
                            piece_length: l as u64,
                            hashes: hashes_of(p),
                            length,
                            file_list,
                        },
                    )
                },
                _ => Err(InvalidTorrentFile { case: INFO_KEY_MISTYPED }),
            },
        },
        _ => Err(InvalidTorrentFile { case: INFO_KEY_MISSING }),
    }
}

/// What a decoded metainfo says, or why it is none.
pub open spec fn metainfo_of(v: Value) -> Result<MetainfoView, InvalidTorrentFile> {
    match v {
        Value::Dict(top) => match announce_of(top) {
            Err(e) => Err(e),
            Ok(announce) => match lookup(top, KEY_INFO@) {
                None => Err(InvalidTorrentFile { case: INFO_MISSING }),
                Some(Value::Dict(info)) => info_of(info, announce),
                Some(_) => Err(InvalidTorrentFile { case: INFO_MISTYPED }),
            },
        },
        _ => Err(InvalidTorrentFile { case: NOT_A_MAPPING }),
    }
}

/// The texts of strings.
pub open spec fn texts_view(v: Seq<String>) -> Seq<Seq<char>> {
    Seq::new(v.len(), |i: int| v[i]@)
}

/// The files of a metainfo as values.
pub open spec fn files_view(v: Seq<(String, u64)>) -> Seq<(Seq<char>, u64)> {
    Seq::new(v.len(), |i: int| (v[i].0@, v[i].1))
}

/// The byte strings of a vector as values.
pub open spec fn bytes_view(v: Seq<Vec<u8>>) -> Seq<Seq<u8>> {
    Seq::new(v.len(), |i: int| v[i]@)
}

/// The text of a string that may be missing.
pub open spec fn text_view(o: Option<String>) -> Option<Seq<char>> {
    match o {
        Some(s) => Some(s@),
        None => None,
    }
}

/// The texts of strings that may be missing.
pub open spec fn list_view(o: Option<Vec<String>>) -> Option<Seq<Seq<char>>> {
    match o {
        Some(v) => Some(texts_view(v@)),
        None => None,
    }
}

/// The files of a metainfo, which may be missing, as values.
pub open spec fn file_list_view(o: Option<Vec<(String, u64)>>) -> Option<Seq<(Seq<char>, u64)>> {
    match o {
        Some(v) => Some(files_view(v@)),
        None => None,
    }
}

/// What a metainfo says.
pub struct Metainfo {
    pub announce_url: Option<String>,
    pub announce_list: Option<Vec<String>>,
    pub name: String,
    pub piece_length: u64,
    pub hashes: Vec<Vec<u8>>,
    pub length: u64,
    pub piece_no: usize,
    pub file_list: Option<Vec<(String, u64)>>,
}

impl View for Metainfo {
    type V = MetainfoView;

    open spec fn view(&self) -> MetainfoView {
        MetainfoView {
            announce_url: text_view(self.announce_url),
            announce_list: list_view(self.announce_list),
            name: self.name@,
            piece_length: self.piece_length,
            hashes: bytes_view(self.hashes@),
            length: self.length,
            file_list: file_list_view(self.file_list),
        }
    }
}

/// The value of the first entry whose key is `key`.
pub fn get<'a>(entries: &'a Vec<(Vec<u8>, Element)>, key: &[u8]) -> (found: Option<&'a Element>)
    ensures
        match found {
            Some(e) => lookup(entry_views(entries@), key@) == Some(e@),
            None => lookup(entry_views(entries@), key@) is None,
        },
{
    let ghost all = entry_views(entries@);
    let mut i: usize = 0;
    assert(all.skip(0) =~= all);
    while i < entries.len()
        invariant
            i <= entries@.len(),
            all == entry_views(entries@),
            lookup(all, key@) == lookup(all.skip(i as int), key@),
        decreases entries@.len() - i,
    {
        proof {
            assert(all.skip(i as int)[0] == all[i as int]);
            assert(all.skip(i as int).skip(1) =~= all.skip(i + 1));
        }
        if same_bytes(entries[i].0.as_slice(), key) {
            return Some(&entries[i].1);
        }
        i += 1;
    }
    None
}

fn text(e: &Element) -> (t: Option<String>)
    ensures
        text_view(t) == text_of(e@),
{
    match e {
        Element::ByteString(b) => utf8_text(vstd::slice::slice_to_vec(b.as_slice())),
        _ => None,
    }
}

fn texts(items: &Vec<Element>) -> (t: Option<Vec<String>>)
    ensures
        list_view(t) == texts_of(views(items@), items@.len()),
{
    let mut out: Vec<String> = Vec::new();
    let mut i: usize = 0;
    assert(texts_view(out@) =~= Seq::<Seq<char>>::empty());
    while i < items.len()
        invariant
            i <= items@.len(),
            texts_of(views(items@), i as nat) == Some(texts_view(out@)),
        decreases items@.len() - i,
    {
        match text(&items[i]) {
            Some(s) => {
                proof {
                    assert(texts_view(out@.push(s)) =~= texts_view(out@).push(s@));
                }
                out.push(s);
            },
            None => {
                proof {
                    lemma_texts_none(views(items@), i as nat + 1, items@.len());
                }
                return None;
            },
        }
        i += 1;
    }
    Some(out)
}

proof fn lemma_texts_none(items: Seq<Value>, k: nat, n: nat)
    requires
        k <= n,
        texts_of(items, k) is None,
    ensures
        texts_of(items, n) is None,
    decreases n - k,
{
    if k < n {
        lemma_texts_none(items, k, (n - 1) as nat);
    }
}

proof fn lemma_tiers_none(items: Seq<Value>, k: nat, n: nat)
    requires
        k <= n,
        tiers_of(items, k) is None,
    ensures
        tiers_of(items, n) is None,
    decreases n - k,
{
    if k < n {
        lemma_tiers_none(items, k, (n - 1) as nat);
    }
}

proof fn lemma_files_none(items: Seq<Value>, k: nat, n: nat)
    requires
        k <= n,
        files_of(items, k) is None,
    ensures
        files_of(items, n) is None,
    decreases n - k,
{
    if k < n {
        lemma_files_none(items, k, (n - 1) as nat);
    }
}

fn tiers(list: &Vec<Element>) -> (t: Option<Vec<String>>)
    ensures
        list_view(t) == tiers_of(views(list@), list@.len()),
{
    let mut out: Vec<String> = Vec::new();
    let mut i: usize = 0;
    assert(texts_view(out@) =~= Seq::<Seq<char>>::empty());
    while i < list.len()
        invariant
            i <= list@.len(),
            tiers_of(views(list@), i as nat) == Some(texts_view(out@)),
        decreases list@.len() - i,
    {
        let more: Option<Vec<String>> = match &list[i] {
            Element::List(urls) => {
                proof {
                    lemma_list_view(*urls);
                }
                texts(urls)
            },
            _ => None,
        };
        match more {
            Some(mut more) => {
                proof {
                    assert(texts_view(out@ + more@) =~= texts_view(out@) + texts_view(more@));
                }
                out.append(&mut more);
            },
            None => {
                proof {
                    lemma_tiers_none(views(list@), i as nat + 1, list@.len());
                }
                return None;
            },
        }
        i += 1;
    }
    Some(out)
}

fn join(parts: &Vec<String>) -> (path: String)
    ensures
        path@ == joined(texts_view(parts@), parts@.len()),
{
    let mut path = String::new();
    let mut i: usize = 0;
    while i < parts.len()
        invariant
            i <= parts@.len(),
            path@ == joined(texts_view(parts@), i as nat),
        decreases parts@.len() - i,
    {
        if i > 0 {
            push_char(&mut path, '/');
        }
        path.append(parts[i].as_str());
        i += 1;
    }
    path
}

fn file(e: &Element) -> (f: Option<(String, u64)>)
    ensures
        match f {
            Some(f) => file_of(e@) == Some((f.0@, f.1)),
            None => file_of(e@) is None,
        },
{
    match e {
        Element::Dict(entries) => {
            proof {
                lemma_dict_view(*entries);
            }
            match (get(entries, KEY_LENGTH.as_slice()), get(entries, KEY_PATH.as_slice())) {
                (Some(Element::Integer(l)), Some(Element::List(parts))) => {
                    proof {
                        lemma_list_view(*parts);
                    }
                    match texts(parts) {
                        Some(t) => {
                            if *l >= 0 {
                                Some((join(&t), *l as u64))
                            } else {
                                None
                            }
                        },
                        None => None,
                    }
                },
                _ => None,
            }
        },
        _ => None,
    }
}

fn files(items: &Vec<Element>) -> (f: Option<Vec<(String, u64)>>)
    ensures
        file_list_view(f) == files_of(views(items@), items@.len()),
{
    let mut out: Vec<(String, u64)> = Vec::new();
    let mut i: usize = 0;
    assert(files_view(out@) =~= Seq::<(Seq<char>, u64)>::empty());
    while i < items.len()
        invariant
            i <= items@.len(),
            files_of(views(items@), i as nat) == Some(files_view(out@)),
        decreases items@.len() - i,
    {
        match file(&items[i]) {
            Some(f) => {
                proof {
                    assert(files_view(out@.push(f)) =~= files_view(out@).push((f.0@, f.1)));
                }
                out.push(f);
            },
            None => {
                proof {
                    lemma_files_none(views(items@), i as nat + 1, items@.len());
                }
                return None;
            },
        }
        i += 1;
    }
    Some(out)
}

/// Sum of the lengths of `files`, if 64 bits hold it.
fn total(files: &Vec<(String, u64)>) -> (sum: Option<u64>)
    ensures
        match sum {
            Some(n) => n == files_total(files_view(files@), files@.len()),
            None => files_total(files_view(files@), files@.len()) > u64::MAX,
        },
{
    let mut sum: u64 = 0;
    let mut i: usize = 0;
    while i < files.len()
        invariant
            i <= files@.len(),
            sum == files_total(files_view(files@), i as nat),
        decreases files@.len() - i,
    {
        match sum.checked_add(files[i].1) {
            Some(n) => {
                sum = n;
            },
            None => {
                proof {
                    lemma_total_grows(files_view(files@), i as nat + 1, files@.len());
                }
                return None;
            },
        }
        i += 1;
    }
    Some(sum)
}

proof fn lemma_total_grows(files: Seq<(Seq<char>, u64)>, k: nat, n: nat)
    requires
        k <= n,
    ensures
        files_total(files, k) <= files_total(files, n),
    decreases n - k,
{
    if k < n {
        lemma_total_grows(files, k, (n - 1) as nat);
    }
}

/// Cuts `pieces` into the piece hashes, 20 bytes each.
fn hashes(pieces: &Vec<u8>) -> (out: Vec<Vec<u8>>)
    requires
        pieces@.len() % 20 == 0,
    ensures
        bytes_view(out@) == hashes_of(pieces@),
        out@.len() == pieces@.len() / 20,
{
    let mut out: Vec<Vec<u8>> = Vec::new();
    let len: usize = pieces.len();
    let n: usize = len / 20;
    let mut i: usize = 0;
    while i < n
        invariant
            i <= n,
            len == pieces@.len(),
            n == pieces@.len() / 20,
            pieces@.len() % 20 == 0,
            out@.len() == i,
            forall|k: int| 0 <= k < i ==> (#[trigger] out@[k])@ == pieces@.subrange(
                20 * k,
                20 * k + 20,
            ),
        decreases n - i,
    {
        assert(20 * (i as int) + 20 <= pieces@.len());
        let hash: Vec<u8> = vstd::slice::slice_to_vec(
            vstd::slice::slice_subrange(pieces.as_slice(), 20 * i, 20 * i + 20),
        );
        out.push(hash);
        i += 1;
    }
    proof {
        assert(bytes_view(out@) =~= hashes_of(pieces@));
    }
    out
}

fn announce(top: &Vec<(Vec<u8>, Element)>) -> (r: Result<
    (Option<String>, Option<Vec<String>>),
    InvalidTorrentFile,
>)
    ensures
        match announce_of(entry_views(top@)) {
            Ok(a) => r matches Ok(x) && text_view(x.0) == a.0 && list_view(x.1) == a.1,
            Err(e) => r == Err::<(Option<String>, Option<Vec<String>>), InvalidTorrentFile>(e),
        },
{
    match get(top, KEY_ANNOUNCE_LIST.as_slice()) {
        Some(Element::List(list)) => {
            proof {
                lemma_list_view(*list);
            }
            match tiers(list) {
                Some(urls) => {
                    let url: Option<String> = match get(top, KEY_ANNOUNCE.as_slice()) {
                        Some(v) => text(v),
                        None => None,
                    };
                    Ok((url, Some(urls)))
                },
                None => Err(InvalidTorrentFile { case: ANNOUNCE_LIST_MISTYPED }),
            }
        },
        Some(_) => Err(InvalidTorrentFile { case: ANNOUNCE_LIST_MISTYPED }),
        None => match get(top, KEY_ANNOUNCE.as_slice()) {
            Some(v) => match text(v) {
                Some(url) => Ok((Some(url), None)),
                None => Err(InvalidTorrentFile { case: ANNOUNCE_MISTYPED }),
            },
            None => Err(InvalidTorrentFile { case: ANNOUNCE_MISSING }),
        },
    }
}

fn payload(info: &Vec<(Vec<u8>, Element)>) -> (r: Result<
    (u64, Option<Vec<(String, u64)>>),
    InvalidTorrentFile,
>)
    ensures
        match payload_of(entry_views(info@)) {
            Ok(p) => r matches Ok(x) && x.0 == p.0 && file_list_view(x.1) == p.1,
            Err(e) => r == Err::<(u64, Option<Vec<(String, u64)>>), InvalidTorrentFile>(e),
        },
{
    match (get(info, KEY_LENGTH.as_slice()), get(info, KEY_FILES.as_slice())) {
        (None, None) => Err(InvalidTorrentFile { case: INFO_KEY_MISSING }),
        (Some(_), Some(_)) => Err(InvalidTorrentFile { case: LENGTH_AND_FILES }),
        (Some(Element::Integer(l)), None) => {
            if *l >= 0 {
                Ok((*l as u64, None))
            } else {
                Err(InvalidTorrentFile { case: INFO_KEY_MISTYPED })
            }
        },
        (Some(_), None) => Err(InvalidTorrentFile { case: INFO_KEY_MISTYPED }),
        (None, Some(Element::List(items))) => {
            proof {
                lemma_list_view(*items);
            }
            match files(items) {
                Some(list) => match total(&list) {
                    Some(length) => Ok((length, Some(list))),
                    None => Err(InvalidTorrentFile { case: SIZES_DISAGREE }),
                },
                None => Err(InvalidTorrentFile { case: INFO_KEY_MISTYPED }),
            }
        },
        (None, Some(_)) => Err(InvalidTorrentFile { case: INFO_KEY_MISTYPED }),
    }
}

/// Whether the sizes of a metainfo fit together.
fn sizes_fit(piece_no: usize, piece_length: u64, length: u64) -> (fit: bool)
    ensures
        fit == sizes_agree(piece_no as int, piece_length as int, length as int),
{
    if piece_length == 0 {
        return false;
    }
    if piece_no == 0 {
        assert((0 - 1) * piece_length < 0) by (nonlinear_arith)
            requires
                piece_length > 0,
        ;
        assert(0 * piece_length == 0);
        return length == 0;
    }
    assert(piece_no * piece_length <= 0xffff_ffff_ffff_ffff * 0xffff_ffff_ffff_ffff
        && (piece_no - 1) * piece_length <= piece_no * piece_length) by (nonlinear_arith)
        requires
            0 < piece_no <= 0xffff_ffff_ffff_ffff,
            0 < piece_length <= 0xffff_ffff_ffff_ffff,
    ;
    let most: u128 = (piece_no as u128) * (piece_length as u128);
    let least: u128 = ((piece_no - 1) as u128) * (piece_length as u128);
    least < length as u128 && length as u128 <= most
}

impl Torrent {
    /// Reads out of a decoded metainfo the announce URLs, the display name,
    /// the piece length, the piece hashes, the payload's length and the
    /// files, or says which key is missing or mistyped.
    pub fn parse_decoded_helper(decoded: &Element) -> (r: Result<Metainfo, InvalidTorrentFile>)
        ensures
            match metainfo_of(decoded@) {
                Ok(m) => r matches Ok(x) && x@ == m && x.piece_no == m.hashes.len(),
                Err(e) => r == Err::<Metainfo, InvalidTorrentFile>(e),
            },
    {
        let top = match decoded {
            Element::Dict(top) => top,
            _ => {
                return Err(InvalidTorrentFile { case: NOT_A_MAPPING });
            },
        };
        proof {
            lemma_dict_view(*top);
        }
        let (announce_url, announce_list) = match announce(top) {
            Ok(a) => a,
            Err(e) => {
                return Err(e);
            },
        };
        let info = match get(top, KEY_INFO.as_slice()) {
            None => {
                return Err(InvalidTorrentFile { case: INFO_MISSING });
            },
            Some(Element::Dict(info)) => info,
            Some(_) => {
                return Err(InvalidTorrentFile { case: INFO_MISTYPED });
            },
        };
        proof {
            lemma_dict_view(*info);
        }
        let (name, piece_length, pieces) = match (
            get(info, KEY_NAME.as_slice()),
            get(info, KEY_PIECE_LENGTH.as_slice()),
            get(info, KEY_PIECES.as_slice()),
        ) {
            (Some(name), Some(piece_length), Some(pieces)) => (name, piece_length, pieces),
            _ => {
                return Err(InvalidTorrentFile { case: INFO_KEY_MISSING });
            },
        };
        let (length, file_list) = match payload(info) {
            Ok(p) => p,
            Err(e) => {
                return Err(e);
            },
        };
        match (name, piece_length, pieces) {
            (Element::ByteString(n), Element::Integer(l), Element::ByteString(p)) => {
                if p.len() % 20 != 0 {
                    return Err(InvalidTorrentFile { case: INFO_KEY_MISTYPED });
                }
                let piece_no: usize = p.len() / 20;
                if *l <= 0 || *l > u32::MAX as i64 || piece_no > u32::MAX as usize || !sizes_fit(
                    piece_no,
                    *l as u64,
                    length,
                ) {
                    return Err(InvalidTorrentFile { case: SIZES_DISAGREE });
                }
                Ok(
                    Metainfo {
                        announce_url,
                        announce_list,
                        name: utf8_lossy(n.as_slice()),
                        piece_length: *l as u64,
                        hashes: hashes(p),
                        length,
                        piece_no,
                        file_list,
                    },
                )
            },
            _ => Err(InvalidTorrentFile { case: INFO_KEY_MISTYPED }),
        }
    }
}

/// Whether `t` is the torrent that the metainfo `m` describes, with the
/// info hash `hash` and our peer id `peer_id`, before anything has been
/// downloaded: no peers known, nothing counted, the initial plan.
pub open spec fn describes(t: Torrent, m: MetainfoView, hash: Seq<u8>, peer_id: Seq<u8>) -> bool {
    &&& text_view(t.announce_url) == m.announce_url
    &&& list_view(t.announce_list) == m.announce_list
    &&& t.name@ == m.name
    &&& t.length == m.length
    &&& t.info_hash@ == hash
    &&& t.peer_list@.len() == 0
    &&& t.peer_id@ == peer_id
    &&& is_initial_plan(
        t.piece_freq@,
        m.hashes.len() as int,
        m.piece_length as int,
        m.length as int,
    )
    &&& plan_shaped(plan_view(t.piece_freq@))
    &&& t.downloaded == 0
    &&& t.uploaded == 0
    &&& t.connections@.len() == 0
    &&& file_list_view(t.file_list) == m.file_list
    &&& bytes_view(t.piece_hashes@) == m.hashes
    &&& t.piece_left == m.hashes.len()
}

/// What reading a metainfo file's bytes gives: the torrent that they
/// describe, or why they describe none.
pub open spec fn torrent_of(
    r: Result<Torrent, InvalidTorrentFile>,
    buf: Seq<u8>,
    peer_id: Seq<u8>,
) -> bool {
    match parse_value(buf, 0, false) {
        Err(fault) => r matches Err(e) && e.case == NOT_BENCODED,
        Ok((v, next)) => match metainfo_of(v) {
            Err(e) => r matches Err(f) && f == e,
            Ok(m) => r matches Ok(t) && describes(t, m, sha1(info_bytes(buf, false)), peer_id),
        },
    }
}

impl Torrent {
    /// Reads the bytes of a metainfo file for the peer `peer_id`: decodes
    /// them, takes the info hash of the bytes of the `info` value as they
    /// stand in the file, reads the metainfo out, and lays out the initial
    /// plan of pieces and blocks.
    pub fn parse_decoded_for(buf: Vec<u8>, peer_id: [u8; 20]) -> (r: Result<
        Torrent,
        InvalidTorrentFile,
    >)
        ensures
            torrent_of(r, buf@, peer_id@),
    {
        let (decoded, info_hash) = match Bencode::decode(buf) {
            Ok(d) => d,
            Err(_) => {
                return Err(InvalidTorrentFile { case: NOT_BENCODED });
            },
        };
        let m = match Torrent::parse_decoded_helper(&decoded) {
            Ok(m) => m,
            Err(e) => {
                return Err(e);
            },
        };
        let piece_freq = build_piece_freq(m.piece_no, m.piece_length, m.length);
        proof {
            lemma_initial_plan_shaped(
                piece_freq@,
                m.piece_no as int,
                m.piece_length as int,
                m.length as int,
            );
        }
        Ok(
            Torrent {
                announce_url: m.announce_url,
                announce_list: m.announce_list,
                name: m.name,
                length: m.length,
                info_hash,
                peer_list: Vec::new(),
                peer_id,
                piece_freq,
                downloaded: 0,
                uploaded: 0,
                connections: Vec::new(),
                file_list: m.file_list,
                piece_hashes: m.hashes,
                piece_left: m.piece_no,
            },
        )
    }

    /// Reads the bytes of a metainfo file, as `parse_decoded_for` does, for
    /// a peer id drawn at random.
    pub fn parse_decoded(buf: Vec<u8>) -> (r: Result<Torrent, InvalidTorrentFile>)
        ensures
            exists|peer_id: Seq<u8>| torrent_of(r, buf@, peer_id),
    {
        let peer_id = gen_random_id();
        let r = Torrent::parse_decoded_for(buf, peer_id);
        assert(torrent_of(r, buf@, peer_id@));
        r
    }
}

} // verus!
