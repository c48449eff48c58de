//! The handshake and the length-prefixed messages of the peer wire protocol.

use vstd::prelude::*;
use crate::byte_order::{
    be16, be32, from_be16, from_be32, lemma_be_round_trip, read_u16, read_u32, read_u8,
    write_bytes, write_u16, write_u32, write_u64, write_u8,
};

verus! {

/// A peer wire message: the value of its length prefix, its id, and its
/// fields.
#[allow(dead_code)]
#[derive(Debug)]
pub enum Message {
    KeepAlive { length: u32 },
    Choke { length: u32, id: u8 },
    Unchoke { length: u32, id: u8 },
    Interested { length: u32, id: u8 },
    Uninterested { length: u32, id: u8 },
    Have { length: u32, id: u8, piece_index: u32 },
    BitField { length: u32, id: u8, bitfield: Vec<u8> },
    Request { length: u32, id: u8, index: u32, begin: u32, req_length: u32 },
    Piece { length: u32, id: u8, index: u32, begin: u32, block: Vec<u8> },
    Cancel { length: u32, id: u8, index: u32, begin: u32, req_length: u32 },
    Port { length: u32, id: u8, listen_port: u16 },
}

/// The bytes of a `request` frame: length prefix 13, id 6, then index,
/// begin and length.
pub open spec fn request_frame(index: u32, begin: u32, req_length: u32) -> Seq<u8> {
    be32(13) + seq![6u8] + be32(index) + be32(begin) + be32(req_length)
}

/// The bytes of a `have` frame: length prefix 5, id 4, then the piece index.
pub open spec fn have_frame(piece_index: u32) -> Seq<u8> {
    be32(5) + seq![4u8] + be32(piece_index)
}

/// The bytes of a frame that carries nothing but its id.
pub open spec fn bare_frame(id: u8) -> Seq<u8> {
    be32(1) + seq![id]
}

impl Message {
    /// The keep-alive message, whose length prefix is 0.
    pub fn build_keep_alive() -> (m: Message)
        ensures
            m == (Message::KeepAlive { length: 0 }),
    {
        Message::KeepAlive { length: 0 }
    }

    /// The bytes of a `choke` frame.
    pub fn build_choke() -> (buf: Vec<u8>)
        ensures
            buf@ == bare_frame(0),
    {
        let mut buf: Vec<u8> = Vec::new();
        write_u32(&mut buf, 1);
        write_u8(&mut buf, 0);
        buf
    }

    /// The bytes of an `unchoke` frame.
    pub fn build_unchoke() -> (buf: Vec<u8>)
        ensures
            buf@ == bare_frame(1),
    {
        let mut buf: Vec<u8> = Vec::new();
        write_u32(&mut buf, 1);
        write_u8(&mut buf, 1);
        buf
    }

    /// The `interested` message.
    pub fn build_interested() -> (m: Message)
        ensures
            m == (Message::Interested { length: 1, id: 2 }),
    {
        Message::Interested { length: 1, id: 2 }
    }

    /// The `not interested` message.
    pub fn build_uninterested() -> (m: Message)
        ensures
            m == (Message::Uninterested { length: 1, id: 3 }),
    {
        Message::Uninterested { length: 1, id: 3 }
    }

    /// The bytes of a `have` frame for `piece_index`.
    pub fn build_have(piece_index: u32) -> (buf: Vec<u8>)
        ensures
            buf@ == have_frame(piece_index),
    {
        let mut buf: Vec<u8> = Vec::new();
        write_u32(&mut buf, 5);
        write_u8(&mut buf, 4);
        write_u32(&mut buf, piece_index);
        buf
    }

    /// The `bitfield` message that carries `bitfield`. The length prefix
    /// counts the id and the bits, so the bits must leave room for the id.
    pub fn build_bitfield(bitfield: Vec<u8>) -> (m: Message)
        requires
            bitfield@.len() < u32::MAX,
        ensures
            m matches Message::BitField { length, id, bitfield: bits } && length == 1
                + bitfield@.len() && id == 5 && bits == bitfield,
    {
        let length: u32 = 1 + bitfield.len() as u32;
        Message::BitField { length, id: 5, bitfield }
    }

    /// The bytes of a `request` frame for `req_length` bytes at `begin` in
    /// piece `index`.
    pub fn build_request(index: u32, begin: u32, req_length: u32) -> (buf: Vec<u8>)
        ensures
            buf@ == request_frame(index, begin, req_length),
    {
        let mut buf: Vec<u8> = Vec::new();
        write_u32(&mut buf, 13);
        write_u8(&mut buf, 6);
        write_u32(&mut buf, index);
        write_u32(&mut buf, begin);
        write_u32(&mut buf, req_length);
        buf
    }

    /// Reads a `request` from a frame without its length prefix: the id,
    /// then index, begin and length. A frame of fewer than 13 bytes holds no
    /// request.
    pub fn read_request(msg: &[u8]) -> (m: Option<Message>)
        ensures
            msg@.len() < 13 ==> m is None,
            msg@.len() >= 13 ==> m == Some(
                Message::Request {
                    length: 13,
                    id: msg@[0],
                    index: crate::byte_order::from_be32(msg@.subrange(1, 5)),
                    begin: crate::byte_order::from_be32(msg@.subrange(5, 9)),
                    req_length: crate::byte_order::from_be32(msg@.subrange(9, 13)),
                },
            ),
    {
        if msg.len() < 13 {
            return None;
        }
        let id: u8 = read_u8(msg);
        let index: u32 = read_u32(vstd::slice::slice_subrange(msg, 1, 5));
        let begin: u32 = read_u32(vstd::slice::slice_subrange(msg, 5, 9));
        let req_length: u32 = read_u32(vstd::slice::slice_subrange(msg, 9, 13));
        Some(Message::Request { length: 13, id, index, begin, req_length })
    }

    /// The `piece` message that carries `block`. The length prefix counts
    /// the id, the index, the offset and the block.
    pub fn build_piece(index: u32, begin: u32, block: Vec<u8>) -> (m: Message)
        requires
            block@.len() + 9 <= u32::MAX,
        ensures
            m matches Message::Piece { length, id, index: i, begin: b, block: data } && length
                == 9 + block@.len() && id == 7 && i == index && b == begin && data == block,
    {
        let length: u32 = 9 + block.len() as u32;
        Message::Piece { length, id: 7, index, begin, block }
    }

    /// The `cancel` message for a request.
    pub fn build_cancel(index: u32, begin: u32, req_length: u32) -> (m: Message)
        ensures
            m == (Message::Cancel { length: 13, id: 8, index, begin, req_length }),
    {
        Message::Cancel { length: 13, id: 8, index, begin, req_length }
    }

    /// The `port` message.
    pub fn build_port(listen_port: u16) -> (m: Message)
        ensures
            m == (Message::Port { length: 3, id: 9, listen_port }),
    {
        Message::Port { length: 3, id: 9, listen_port }
    }
}

/// A message as a value.
pub enum MessageView {
    KeepAlive { length: u32 },
    Choke { length: u32, id: u8 },
    Unchoke { length: u32, id: u8 },
    Interested { length: u32, id: u8 },
    Uninterested { length: u32, id: u8 },
    Have { length: u32, id: u8, piece_index: u32 },
    BitField { length: u32, id: u8, bitfield: Seq<u8> },
    Request { length: u32, id: u8, index: u32, begin: u32, req_length: u32 },
    Piece { length: u32, id: u8, index: u32, begin: u32, block: Seq<u8> },
    Cancel { length: u32, id: u8, index: u32, begin: u32, req_length: u32 },
    Port { length: u32, id: u8, listen_port: u16 },
}

impl View for Message {
    type V = MessageView;

    open spec fn view(&self) -> MessageView {
        match self {
            Message::KeepAlive { length } => MessageView::KeepAlive { length: *length },
            Message::Choke { length, id } => MessageView::Choke { length: *length, id: *id },
            Message::Unchoke { length, id } => MessageView::Unchoke { length: *length, id: *id },
            Message::Interested { length, id } => MessageView::Interested {
                length: *length,
                id: *id,
            },
            Message::Uninterested { length, id } => MessageView::Uninterested {
                length: *length,
                id: *id,
            },
            Message::Have { length, id, piece_index } => MessageView::Have {
                length: *length,
                id: *id,
                piece_index: *piece_index,
            },
            Message::BitField { length, id, bitfield } => MessageView::BitField {
                length: *length,
                id: *id,
                bitfield: bitfield@,
            },
            Message::Request { length, id, index, begin, req_length } => MessageView::Request {
                length: *length,
                id: *id,
                index: *index,
                begin: *begin,
                req_length: *req_length,
            },
            Message::Piece { length, id, index, begin, block } => MessageView::Piece {
                length: *length,
                id: *id,
                index: *index,
                begin: *begin,
                block: block@,
            },
            Message::Cancel { length, id, index, begin, req_length } => MessageView::Cancel {
                length: *length,
                id: *id,
                index: *index,
                begin: *begin,
                req_length: *req_length,
            },
            Message::Port { length, id, listen_port } => MessageView::Port {
                length: *length,
                id: *id,
                listen_port: *listen_port,
            },
        }
    }
}

/// What follows the length prefix in the frame of a message: nothing for
/// a keep-alive, else the id and the fields, numbers big-endian.
pub open spec fn body_of(m: MessageView) -> Seq<u8> {
    match m {
        MessageView::KeepAlive { length } => Seq::empty(),
        MessageView::Choke { length, id } => seq![0u8],
        MessageView::Unchoke { length, id } => seq![1u8],
        MessageView::Interested { length, id } => seq![2u8],
        MessageView::Uninterested { length, id } => seq![3u8],
        MessageView::Have { length, id, piece_index } => seq![4u8] + be32(piece_index),
        MessageView::BitField { length, id, bitfield } => seq![5u8] + bitfield,
        MessageView::Request { length, id, index, begin, req_length } => seq![6u8] + be32(index)
            + be32(begin) + be32(req_length),
        MessageView::Piece { length, id, index, begin, block } => seq![7u8] + be32(index) + be32(
            begin,
        ) + block,
        MessageView::Cancel { length, id, index, begin, req_length } => seq![8u8] + be32(index)
            + be32(begin) + be32(req_length),
        MessageView::Port { length, id, listen_port } => seq![9u8] + be16(listen_port),
    }
}

/// The message that a frame carries after its length prefix: an empty
/// frame is a keep-alive; else the first byte is the id, and the frame
/// must be as long as the message's fields are, or at least so long where
/// it ends with a bitfield or a block. Other frames carry no message.
pub open spec fn message_of(body: Seq<u8>) -> Option<MessageView> {
    let n = body.len();
    let length = n as u32;
    if n > u32::MAX {
        None
    } else if n == 0 {
        Some(MessageView::KeepAlive { length })
    } else if body[0] == 0 && n == 1 {
        Some(MessageView::Choke { length, id: 0 })
    } else if body[0] == 1 && n == 1 {
        Some(MessageView::Unchoke { length, id: 1 })
    } else if body[0] == 2 && n == 1 {
        Some(MessageView::Interested { length, id: 2 })
    } else if body[0] == 3 && n == 1 {
        Some(MessageView::Uninterested { length, id: 3 })
    } else if body[0] == 4 && n == 5 {
        Some(MessageView::Have { length, id: 4, piece_index: from_be32(body.subrange(1, 5)) })
    } else if body[0] == 5 {
        Some(MessageView::BitField { length, id: 5, bitfield: body.subrange(1, n as int) })
    } else if body[0] == 6 && n == 13 {
        Some(
            MessageView::Request {
                length,
                id: 6,
                index: from_be32(body.subrange(1, 5)),
                begin: from_be32(body.subrange(5, 9)),
                req_length: from_be32(body.subrange(9, 13)),
            },
        )
    } else if body[0] == 7 && n >= 9 {
        Some(
            MessageView::Piece {
                length,
                id: 7,
                index: from_be32(body.subrange(1, 5)),
                begin: from_be32(body.subrange(5, 9)),
                block: body.subrange(9, n as int),
            },
        )
    } else if body[0] == 8 && n == 13 {
        Some(
            MessageView::Cancel {
                length,
                id: 8,
                index: from_be32(body.subrange(1, 5)),
                begin: from_be32(body.subrange(5, 9)),
                req_length: from_be32(body.subrange(9, 13)),
            },
        )
    } else if body[0] == 9 && n == 3 {
        Some(MessageView::Port { length, id: 9, listen_port: from_be16(body.subrange(1, 3)) })
    } else {
        None
    }
}

/// Whether the length and the id that a message holds are those of its
/// frame.
pub open spec fn well_formed(m: MessageView) -> bool {
    &&& body_of(m).len() <= u32::MAX
    &&& match m {
        MessageView::KeepAlive { length } => length == 0,
        MessageView::Choke { length, id } => length == 1 && id == 0,
        MessageView::Unchoke { length, id } => length == 1 && id == 1,
        MessageView::Interested { length, id } => length == 1 && id == 2,
        MessageView::Uninterested { length, id } => length == 1 && id == 3,
        MessageView::Have { length, id, piece_index } => length == 5 && id == 4,
        MessageView::BitField { length, id, bitfield } => length == 1 + bitfield.len() && id == 5,
        MessageView::Request { length, id, index, begin, req_length } => length == 13 && id == 6,
        MessageView::Piece { length, id, index, begin, block } => length == 9 + block.len() && id
            == 7,
        MessageView::Cancel { length, id, index, begin, req_length } => length == 13 && id == 8,
        MessageView::Port { length, id, listen_port } => length == 3 && id == 9,
    }
}

/// Reading a frame and writing a message undo each other: the frame of a
/// well-formed message carries that message, and a frame that carries a
/// message is the frame of that message, which is well-formed.
pub proof fn lemma_message_round_trip(m: MessageView, body: Seq<u8>)
    ensures
        well_formed(m) ==> message_of(body_of(m)) == Some(m),
        message_of(body) matches Some(w) ==> well_formed(w) && body_of(w) == body,
{
    if well_formed(m) {
        let b = body_of(m);
        match m {
            MessageView::Have { length, id, piece_index } => {
                lemma_be_round_trip(0, piece_index, 0);
                assert(b.subrange(1, 5) =~= be32(piece_index));
            },
            MessageView::BitField { length, id, bitfield } => {
                assert(b.subrange(1, b.len() as int) =~= bitfield);
            },
            MessageView::Request { length, id, index, begin, req_length } => {
                lemma_be_round_trip(0, index, 0);
                lemma_be_round_trip(0, begin, 0);
                lemma_be_round_trip(0, req_length, 0);
                assert(b.subrange(1, 5) =~= be32(index));
                assert(b.subrange(5, 9) =~= be32(begin));
                assert(b.subrange(9, 13) =~= be32(req_length));
            },
            MessageView::Piece { length, id, index, begin, block } => {
                lemma_be_round_trip(0, index, 0);
                lemma_be_round_trip(0, begin, 0);
                assert(b.subrange(1, 5) =~= be32(index));
                assert(b.subrange(5, 9) =~= be32(begin));
                assert(b.subrange(9, b.len() as int) =~= block);
            },
            MessageView::Cancel { length, id, index, begin, req_length } => {
                lemma_be_round_trip(0, index, 0);
                lemma_be_round_trip(0, begin, 0);
                lemma_be_round_trip(0, req_length, 0);
                assert(b.subrange(1, 5) =~= be32(index));
                assert(b.subrange(5, 9) =~= be32(begin));
                assert(b.subrange(9, 13) =~= be32(req_length));
            },
            MessageView::Port { length, id, listen_port } => {
                lemma_be_round_trip(listen_port, 0, 0);
                assert(b.subrange(1, 3) =~= be16(listen_port));
            },
            _ => {},
        }
    }
    match message_of(body) {
        Some(w) => {
            crate::byte_order::lemma_be_bytes(body.subrange(1, 5));
            crate::byte_order::lemma_be_bytes(body.subrange(5, 9));
            crate::byte_order::lemma_be_bytes(body.subrange(9, 13));
            crate::byte_order::lemma_be_bytes(body.subrange(1, 3));
            assert(body_of(w) =~= body);
        },
        None => {},
    }
}

impl Message {
    /// Reads the message that a frame carries after its length prefix.
    pub fn read(body: &[u8]) -> (m: Option<Message>)
        ensures
            match m {
                Some(m) => message_of(body@) == Some(m@),
                None => message_of(body@) is None,
            },
    {
        let n: usize = body.len();
        if n > u32::MAX as usize {
            return None;
        }
        let length: u32 = n as u32;
        if n == 0 {
            return Some(Message::KeepAlive { length });
        }
        let id: u8 = body[0];
        if id == 0 && n == 1 {
            Some(Message::Choke { length, id })
        } else if id == 1 && n == 1 {
            Some(Message::Unchoke { length, id })
        } else if id == 2 && n == 1 {
            Some(Message::Interested { length, id })
        } else if id == 3 && n == 1 {
            Some(Message::Uninterested { length, id })
        } else if id == 4 && n == 5 {
            let piece_index: u32 = read_u32(vstd::slice::slice_subrange(body, 1, 5));
            Some(Message::Have { length, id, piece_index })
        } else if id == 5 {
            let bitfield: Vec<u8> = vstd::slice::slice_to_vec(
                vstd::slice::slice_subrange(body, 1, n),
            );
            Some(Message::BitField { length, id, bitfield })
        } else if (id == 6 || id == 8) && n == 13 {
            let index: u32 = read_u32(vstd::slice::slice_subrange(body, 1, 5));
            let begin: u32 = read_u32(vstd::slice::slice_subrange(body, 5, 9));
            let req_length: u32 = read_u32(vstd::slice::slice_subrange(body, 9, 13));
            if id == 6 {
                Some(Message::Request { length, id, index, begin, req_length })
            } else {
                Some(Message::Cancel { length, id, index, begin, req_length })
            }
        } else if id == 7 && n >= 9 {
            let index: u32 = read_u32(vstd::slice::slice_subrange(body, 1, 5));
            let begin: u32 = read_u32(vstd::slice::slice_subrange(body, 5, 9));
            let block: Vec<u8> = vstd::slice::slice_to_vec(vstd::slice::slice_subrange(body, 9, n));
            Some(Message::Piece { length, id, index, begin, block })
        } else if id == 9 && n == 3 {
            let listen_port: u16 = read_u16(vstd::slice::slice_subrange(body, 1, 3));
            Some(Message::Port { length, id, listen_port })
        } else {
            None
        }
    }

    /// Writes the frame of the message: the length of what follows, then
    /// the id and the fields. The length and the id are taken from what the
    /// message is, not from what it holds. None where what follows is too
    /// long for the length prefix.
    pub fn to_buf(&self) -> (buf: Option<Vec<u8>>)
        ensures
            match buf {
                Some(b) => body_of(self@).len() <= u32::MAX && b@ == be32(
                    body_of(self@).len() as u32,
                ) + body_of(self@),
                None => body_of(self@).len() > u32::MAX,
            },
    {
        let mut buf: Vec<u8> = Vec::new();
        match self {
            Message::KeepAlive { length } => {
                write_u32(&mut buf, 0);
            },
            Message::Choke { length, id } => {
                write_u32(&mut buf, 1);
                write_u8(&mut buf, 0);
            },
            Message::Unchoke { length, id } => {
                write_u32(&mut buf, 1);
                write_u8(&mut buf, 1);
            },
            Message::Interested { length, id } => {
                write_u32(&mut buf, 1);
                write_u8(&mut buf, 2);
            },
            Message::Uninterested { length, id } => {
                write_u32(&mut buf, 1);
                write_u8(&mut buf, 3);
            },
            Message::Have { length, id, piece_index } => {
                write_u32(&mut buf, 5);
                write_u8(&mut buf, 4);
                write_u32(&mut buf, *piece_index);
            },
            Message::BitField { length, id, bitfield } => {
                if bitfield.len() >= u32::MAX as usize {
                    return None;
                }
                write_u32(&mut buf, 1 + bitfield.len() as u32);
                write_u8(&mut buf, 5);
                write_bytes(&mut buf, bitfield.as_slice());
            },
            Message::Request { length, id, index, begin, req_length } => {
                write_u32(&mut buf, 13);
                write_u8(&mut buf, 6);
                write_u32(&mut buf, *index);
                write_u32(&mut buf, *begin);
                write_u32(&mut buf, *req_length);
            },
            Message::Piece { length, id, index, begin, block } => {
                if block.len() > u32::MAX as usize - 9 {
                    return None;
                }
                write_u32(&mut buf, 9 + block.len() as u32);
                write_u8(&mut buf, 7);
                write_u32(&mut buf, *index);
                write_u32(&mut buf, *begin);
                write_bytes(&mut buf, block.as_slice());
            },
            Message::Cancel { length, id, index, begin, req_length } => {
                write_u32(&mut buf, 13);
                write_u8(&mut buf, 8);
                write_u32(&mut buf, *index);
                write_u32(&mut buf, *begin);
                write_u32(&mut buf, *req_length);
            },
            Message::Port { length, id, listen_port } => {
                write_u32(&mut buf, 3);
                write_u8(&mut buf, 9);
                write_u16(&mut buf, *listen_port);
            },
        }
        proof {
            assert(buf@ =~= be32(body_of(self@).len() as u32) + body_of(self@));
        }
        Some(buf)
    }
}

/// Number of bytes in the frame that follows the length prefix `prefix`.
/// A prefix of fewer than four bytes holds no length.
pub fn frame_length(prefix: &[u8]) -> (length: Option<u32>)
    ensures
        length == (if prefix@.len() >= 4 {
            Some(crate::byte_order::from_be32(prefix@))
        } else {
            None
        }),
{
    if prefix.len() >= 4 {
        Some(read_u32(prefix))
    } else {
        None
    }
}

/// The protocol string of the handshake, `BitTorrent protocol`, in ASCII.
pub const PROTOCOL: [u8; 19] = [
    66, 105, 116, 84, 111, 114, 114, 101, 110, 116, 32, 112, 114, 111, 116, 111, 99, 111, 108,
];

/// Length in bytes of a handshake.
pub const HANDSHAKE_LEN: usize = 68;

/// The first message on a connection, in both directions.
pub struct HandshakeMsg {
    pstrlen: u8,
    pstr: [u8; 19],
    reserved: u64,
    info_hash: [u8; 20],
    peer_id: [u8; 20],
}

/// The 68 bytes of a handshake: the length of the protocol string, the
/// string, eight reserved zero bytes, the info hash and the peer id.
pub open spec fn handshake_bytes(info_hash: Seq<u8>, peer_id: Seq<u8>) -> Seq<u8> {
    seq![19u8] + PROTOCOL@ + crate::byte_order::be64(0) + info_hash + peer_id
}

/// Whether `reply` is a handshake for this protocol: 68 bytes that begin
/// with the length of the protocol string and the string itself. The
/// reserved bytes, the info hash and the peer id are not looked at.
pub open spec fn is_handshake(reply: Seq<u8>) -> bool {
    reply.len() == HANDSHAKE_LEN && reply[0] == 19 && reply.subrange(1, 20) == PROTOCOL@
}

impl HandshakeMsg {
    /// The bytes of our handshake for the swarm `info_hash`.
    pub fn build_msg(info_hash: [u8; 20], peer_id: [u8; 20]) -> (buf: Vec<u8>)
        ensures
            buf@ == handshake_bytes(info_hash@, peer_id@),
            buf@.len() == HANDSHAKE_LEN,
            is_handshake(buf@),
    {
        let handshake = HandshakeMsg {
            pstrlen: 19,
            pstr: PROTOCOL,
            reserved: 0,
            info_hash,
            peer_id,
        };
        let mut buf: Vec<u8> = Vec::new();
        write_u8(&mut buf, handshake.pstrlen);
        write_bytes(&mut buf, handshake.pstr.as_slice());
        write_u64(&mut buf, handshake.reserved);
        write_bytes(&mut buf, handshake.info_hash.as_slice());
        write_bytes(&mut buf, handshake.peer_id.as_slice());
        proof {
            assert(buf@.subrange(1, 20) == PROTOCOL@);
        }
        buf
    }

    /// Whether a peer's reply is accepted as a handshake.
    pub fn accepts(reply: &[u8]) -> (ok: bool)
        ensures
            ok == is_handshake(reply@),
    {
        if reply.len() != HANDSHAKE_LEN || reply[0] != 19 {
            return false;
        }
        let mut i: usize = 0;
        while i < 19
            invariant
                i <= 19,
                reply@.len() == HANDSHAKE_LEN,
                forall|k: int| 0 <= k < i ==> reply@[1 + k] == PROTOCOL@[k],
            decreases 19 - i,
        {
            if reply[1 + i] != PROTOCOL[i] {
                proof {
                    assert(reply@.subrange(1, 20)[i as int] == reply@[1 + i]);
                }
                return false;
            }
            i += 1;
        }
        proof {
            assert(reply@.subrange(1, 20) =~= PROTOCOL@);
        }
        true
    }
}

} // verus!
