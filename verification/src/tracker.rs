//! Tracker requests and responses: the UDP connect and announce frames,
//! the HTTP announce URL, the compact peer list, and which tracker is asked
//! from which port.

use url::{Host, Url};
use vstd::prelude::*;
use vstd::string::StringExecFns;
use vstd::string::StringSliceAdditionalSpecFns;
use crate::bencoded_parser::{lemma_dict_view, parse_value, Bencode, Element, Value};
use crate::byte_order::{
    be16, be32, be32_signed, be64, from_be16, from_be32, from_be64, read_u16, read_u32, read_u64,
    write_bytes, write_i32, write_u16, write_u32, write_u64,
};
use crate::helpers::{
    decimal_text, push_char, push_decimal_text, push_url_encoded, random_u32, url_encoded,
    QUEUE_LIMIT,
};
use crate::peers::{named, PeerPool};
use crate::torrent_parser::{list_view, text_view};
use crate::torrent_parser::{get, lookup};

verus! {

/// The number that opens a connect request.
pub const PROTOCOL_ID: u64 = 0x41727101980;

/// The port that the first tracker is told.
pub const FIRST_PORT: u16 = 6881;

/// The key `peers` of an HTTP tracker's response.
pub const KEY_PEERS: [u8; 5] = [112, 101, 101, 114, 115];

/// An announce request to a UDP tracker.
pub struct Request {
    pub connection_id: u64,
    pub action: u32,
    pub transaction_id: u32,
    pub info_hash: [u8; 20],
    pub peer_id: [u8; 20],
    pub downloaded: u64,
    pub left: u64,
    pub uploaded: u64,
    /// 0: none; 1: completed; 2: started; 3: stopped.
    pub event: u32,
    /// 0 lets the tracker take the sender's address.
    pub ip_addr: u32,
    pub key: u32,
    /// -1 lets the tracker choose.
    pub num_want: i32,
    pub port: u16,
}

/// The 98 bytes of an announce request, every number big-endian.
pub open spec fn announce_bytes(r: Request) -> Seq<u8> {
    be64(r.connection_id) + be32(r.action) + be32(r.transaction_id) + r.info_hash@ + r.peer_id@
        + be64(r.downloaded) + be64(r.left) + be64(r.uploaded) + be32(r.event) + be32(r.ip_addr)
        + be32(r.key) + be32_signed(r.num_want) + be16(r.port)
}

/// The announce request that this client sends: action 1, nothing
/// uploaded, no event, the sender's address, as many peers as the tracker
/// chooses, and the whole length as what is left.
pub open spec fn announce_of(
    conn_id: u64,
    transaction_id: u32,
    key: u32,
    info_hash: [u8; 20],
    length: u64,
    peer_id: [u8; 20],
    downloaded: u64,
    port: u16,
) -> Request {
    Request {
        connection_id: conn_id,
        action: 1,
        transaction_id,
        info_hash,
        peer_id,
        downloaded,
        left: length,
        uploaded: 0,
        event: 0,
        ip_addr: 0,
        key,
        num_want: (-1) as i32,
        port,
    }
}

/// The 16 bytes of a connect request: the protocol id, action 0, and the
/// transaction id.
pub open spec fn connect_bytes(transaction_id: u32) -> Seq<u8> {
    be64(PROTOCOL_ID) + be32(0) + be32(transaction_id)
}

impl Request {
    /// The bytes of the request.
    pub fn to_buf(&self) -> (buf: Vec<u8>)
        ensures
            buf@ == announce_bytes(*self),
    {
        let mut buf: Vec<u8> = Vec::new();
        write_u64(&mut buf, self.connection_id);
        write_u32(&mut buf, self.action);
        write_u32(&mut buf, self.transaction_id);
        write_bytes(&mut buf, self.info_hash.as_slice());
        write_bytes(&mut buf, self.peer_id.as_slice());
        write_u64(&mut buf, self.downloaded);
        write_u64(&mut buf, self.left);
        write_u64(&mut buf, self.uploaded);
        write_u32(&mut buf, self.event);
        write_u32(&mut buf, self.ip_addr);
        write_u32(&mut buf, self.key);
        write_i32(&mut buf, self.num_want);
        write_u16(&mut buf, self.port);
        buf
    }
}

/// The bytes of the announce request with the given transaction id and key.
pub fn announce_request(
    conn_id: u64,
    transaction_id: u32,
    key: u32,
    info_hash: &[u8; 20],
    length: u64,
    peer_id: &[u8; 20],
    downloaded: u64,
    port: u16,
) -> (buf: Vec<u8>)
    ensures
        buf@ == announce_bytes(
            announce_of(
                conn_id,
                transaction_id,
                key,
                *info_hash,
                length,
                *peer_id,
                downloaded,
                port,
            ),
        ),
{
    let req = Request {
        connection_id: conn_id,
        action: 1,
        transaction_id,
        info_hash: *info_hash,
        peer_id: *peer_id,
        downloaded,
        left: length,
        uploaded: 0,
        event: 0,
        ip_addr: 0,
        key,
        num_want: -1,
        port,
    };
    req.to_buf()
}

/// Whether `bytes` are this client's announce request with the given
/// transaction id and some key.
pub open spec fn announces(
    bytes: Seq<u8>,
    conn_id: u64,
    transaction_id: u32,
    info_hash: [u8; 20],
    length: u64,
    peer_id: [u8; 20],
    downloaded: u64,
    port: u16,
) -> bool {
    exists|key: u32|
        bytes == announce_bytes(
            #[trigger] announce_of(
                conn_id,
                transaction_id,
                key,
                info_hash,
                length,
                peer_id,
                downloaded,
                port,
            ),
        )
}

/// The bytes of an announce request with a transaction id and a key drawn
/// at random, and that transaction id.
pub fn build_announce_req(
    conn_id: u64,
    info_hash: &[u8; 20],
    length: &u64,
    peer_id: &[u8; 20],
    downloaded: u64,
    port: u16,
) -> (r: (Vec<u8>, u32))
    ensures
        announces(r.0@, conn_id, r.1, *info_hash, *length, *peer_id, downloaded, port),
{
    let transaction_id: u32 = random_u32();
    let key: u32 = random_u32();
    let buf = announce_request(
        conn_id,
        transaction_id,
        key,
        info_hash,
        *length,
        peer_id,
        downloaded,
        port,
    );
    (buf, transaction_id)
}

/// The bytes of the connect request with the given transaction id.
pub fn connection_request(transaction_id: u32) -> (buf: Vec<u8>)
    ensures
        buf@ == connect_bytes(transaction_id),
{
    let mut buf: Vec<u8> = Vec::new();
    write_u64(&mut buf, PROTOCOL_ID);
    write_u32(&mut buf, 0);
    write_u32(&mut buf, transaction_id);
    buf
}

/// The bytes of a connect request with a transaction id drawn at random,
/// and that transaction id.
pub fn build_connection_req() -> (r: (Vec<u8>, u32))
    ensures
        r.0@ == connect_bytes(r.1),
{
    let transaction_id: u32 = random_u32();
    (connection_request(transaction_id), transaction_id)
}

/// Reads a connect response: action, transaction id and connection id. A
/// response of fewer than 16 bytes holds none.
pub fn parse_connection_resp(buf: &[u8]) -> (r: Option<(u32, u32, u64)>)
    ensures
        r == (if buf@.len() >= 16 {
            Some(
                (
                    from_be32(buf@.subrange(0, 4)),
                    from_be32(buf@.subrange(4, 8)),
                    from_be64(buf@.subrange(8, 16)),
                ),
            )
        } else {
            None
        }),
{
    if buf.len() < 16 {
        return None;
    }
    Some(
        (
            read_u32(vstd::slice::slice_subrange(buf, 0, 4)),
            read_u32(vstd::slice::slice_subrange(buf, 4, 8)),
            read_u64(vstd::slice::slice_subrange(buf, 8, 16)),
        ),
    )
}

/// The peer in the six bytes at `at` of `s`: a four-byte address and a
/// two-byte port.
pub open spec fn peer_at(s: Seq<u8>, at: int) -> (u32, u16) {
    (from_be32(s.subrange(at, at + 4)), from_be16(s.subrange(at + 4, at + 6)))
}

/// The `n` peers that stand in `s` from `base` on, six bytes each.
pub open spec fn peers_at(s: Seq<u8>, base: int, n: nat) -> Seq<(u32, u16)> {
    Seq::new(n, |i: int| peer_at(s, base + 6 * i))
}

/// Reads `n` peers from `base` on.
fn read_peers(buf: &[u8], base: usize, n: usize) -> (peers: Vec<(u32, u16)>)
    requires
        base + 6 * n <= buf@.len(),
    ensures
        peers@ == peers_at(buf@, base as int, n as nat),
{
    let mut peers: Vec<(u32, u16)> = Vec::new();
    let len: usize = buf.len();
    let mut i: usize = 0;
    while i < n
        invariant
            i <= n,
            len == buf@.len(),
            base + 6 * n <= buf@.len(),
            peers@ == peers_at(buf@, base as int, i as nat),
        decreases n - i,
    {
        let at: usize = base + 6 * i;
        let ip: u32 = read_u32(vstd::slice::slice_subrange(buf, at, at + 4));
        let port: u16 = read_u16(vstd::slice::slice_subrange(buf, at + 4, at + 6));
        peers.push((ip, port));
        proof {
            assert(peers@ =~= peers_at(buf@, base as int, (i + 1) as nat));
        }
        i += 1;
    }
    peers
}

/// An announce response of a UDP tracker.
#[derive(Debug)]
pub struct Response {
    pub action: u32,
    pub transaction_id: u32,
    pub interval: u32,
    pub leechers: u32,
    pub seeders: u32,
    pub peer_list: Vec<(u32, u16)>,
}

/// Reads an announce response: action, transaction id, interval, leechers
/// and seeders, then as many peers as there are seeders. A response too
/// short for its header or for that many peers holds none.
pub fn parse_announce_resp(buf: &[u8]) -> (r: Option<Response>)
    ensures
        r is Some <==> buf@.len() >= 20 && buf@.len() >= 20 + 6 * from_be32(
            buf@.subrange(16, 20),
        ),
        r matches Some(resp) ==> {
            &&& resp.action == from_be32(buf@.subrange(0, 4))
            &&& resp.transaction_id == from_be32(buf@.subrange(4, 8))
            &&& resp.interval == from_be32(buf@.subrange(8, 12))
            &&& resp.leechers == from_be32(buf@.subrange(12, 16))
            &&& resp.seeders == from_be32(buf@.subrange(16, 20))
            &&& resp.peer_list@ == peers_at(buf@, 20, resp.seeders as nat)
        },
{
    if buf.len() < 20 {
        return None;
    }
    let action: u32 = read_u32(vstd::slice::slice_subrange(buf, 0, 4));
    let transaction_id: u32 = read_u32(vstd::slice::slice_subrange(buf, 4, 8));
    let interval: u32 = read_u32(vstd::slice::slice_subrange(buf, 8, 12));
    let leechers: u32 = read_u32(vstd::slice::slice_subrange(buf, 12, 16));
    let seeders: u32 = read_u32(vstd::slice::slice_subrange(buf, 16, 20));
    if (buf.len() - 20) / 6 < seeders as usize {
        return None;
    }
    let peer_list = read_peers(buf, 20, seeders as usize);
    Some(Response { action, transaction_id, interval, leechers, seeders, peer_list })
}

/// Seconds to wait for the answer to announce number `attempt`, counted
/// from 0: 15 for the first, twice as long for each one after.
pub open spec fn announce_wait(attempt: u32) -> int {
    15 * pow2(attempt as nat)
}

/// Two to the power of `n`.
pub open spec fn pow2(n: nat) -> int
    decreases n,
{
    if n == 0 {
        1
    } else {
        2 * pow2((n - 1) as nat)
    }
}

/// Number of times an announce is sent before the tracker is given up.
pub const ANNOUNCE_ATTEMPTS: u32 = 8;

/// Seconds to wait for the answer to a connect request.
pub const CONNECT_WAIT: u64 = 6;

/// Seconds to wait for the answer to announce number `attempt`.
pub fn announce_timeout(attempt: u32) -> (secs: u64)
    requires
        attempt < ANNOUNCE_ATTEMPTS,
    ensures
        secs == announce_wait(attempt),
{
    let mut secs: u64 = 15;
    let mut i: u32 = 0;
    while i < attempt
        invariant
            i <= attempt,
            attempt < 8,
            secs == 15 * pow2(i as nat),
        decreases attempt - i,
    {
        proof {
            lemma_pow2_bound(i as nat);
        }
        secs = secs * 2;
        i += 1;
    }
    secs
}

proof fn lemma_pow2_bound(n: nat)
    requires
        n < 7,
    ensures
        1 <= pow2(n) <= 64,
{
    reveal_with_fuel(pow2, 8);
}

/// The URL of an announce to an HTTP tracker: the tracker's URL and a
/// query with the info hash and the peer id percent-encoded, the port and
/// the counters in decimal, `compact` as 1 or 0, the event, and `numwant`
/// where it is given.
pub open spec fn announce_url_of(
    info_hash: Seq<u8>,
    peer_id: Seq<u8>,
    announce_url: Seq<char>,
    port: u16,
    uploaded: u64,
    downloaded: u64,
    left: u64,
    compact: bool,
    event: Seq<char>,
    numwant: Option<u64>,
) -> Seq<char> {
    announce_url + "?info_hash="@ + url_encoded(info_hash) + "&peer_id="@ + url_encoded(peer_id)
        + "&port="@ + decimal_text(port as nat) + "&uploaded="@ + decimal_text(uploaded as nat)
        + "&downloaded="@ + decimal_text(downloaded as nat) + "&left="@ + decimal_text(left as nat)
        + "&compact="@ + (if compact {
        "1"@
    } else {
        "0"@
    }) + "&event="@ + event + (match numwant {
        Some(n) => "&numwant="@ + decimal_text(n as nat),
        None => Seq::empty(),
    })
}

/// Builds the URL of an announce to an HTTP tracker.
pub fn url_parser(
    info_hash: [u8; 20],
    peer_id: [u8; 20],
    announce_url: String,
    port: u16,
    uploaded: u64,
    downloaded: u64,
    left: u64,
    compact: bool,
    event: &str,
    numwant: Option<u64>,
) -> (ret: String)
    ensures
        ret@ == announce_url_of(
            info_hash@,
            peer_id@,
            announce_url@,
            port,
            uploaded,
            downloaded,
            left,
            compact,
            event@,
            numwant,
        ),
{
    let mut ret = announce_url;
    ret.append("?info_hash=");
    push_url_encoded(&mut ret, info_hash.as_slice());
    ret.append("&peer_id=");
    push_url_encoded(&mut ret, peer_id.as_slice());
    ret.append("&port=");
    push_decimal_text(&mut ret, port as u64);
    ret.append("&uploaded=");
    push_decimal_text(&mut ret, uploaded);
    ret.append("&downloaded=");
    push_decimal_text(&mut ret, downloaded);
    ret.append("&left=");
    push_decimal_text(&mut ret, left);
    ret.append("&compact=");
    if compact {
        ret.append("1");
    } else {
        ret.append("0");
    }
    ret.append("&event=");
    ret.append(event);
    match numwant {
        Some(n) => {
            ret.append("&numwant=");
            push_decimal_text(&mut ret, n);
        },
        None => {
            assert(ret@ + Seq::<char>::empty() =~= ret@);
        },
    }
    ret
}

/// Builds the URL of this client's announce to an HTTP tracker: nothing
/// uploaded, what is left of the length after what was downloaded, the
/// compact peer list, the event `started`, and `QUEUE_LIMIT` peers.
pub fn http_announce_url(
    info_hash: &[u8; 20],
    length: &u64,
    peer_id: &[u8; 20],
    announce_url: String,
    port: u16,
    downloaded: u64,
) -> (request: String)
    ensures
        request@ == announce_url_of(
            info_hash@,
            peer_id@,
            announce_url@,
            port,
            0,
            downloaded,
            if downloaded <= *length {
                (*length - downloaded) as u64
            } else {
                0
            },
            true,
            "started"@,
            Some(QUEUE_LIMIT as u64),
        ),
{
    let left: u64 = if downloaded <= *length {
        *length - downloaded
    } else {
        0
    };
    url_parser(
        *info_hash,
        *peer_id,
        announce_url,
        port,
        0,
        downloaded,
        left,
        true,
        "started",
        Some(QUEUE_LIMIT as u64),
    )
}

/// Hands the peers that a tracker has named, if it has answered, to the
/// pool, in the order in which the tracker named them.
pub fn peer_list_helper(res: Option<Vec<(u32, u16)>>, pool: &mut PeerPool)
    ensures
        final(pool)@.connected == old(pool)@.connected,
        final(pool)@.pending == (match res {
            Some(peers) => named(
                old(pool)@.pending,
                old(pool)@.connected,
                peers@,
                peers@.len(),
            ),
            None => old(pool)@.pending,
        }),
{
    match res {
        Some(peers) => {
            pool.enqueue_all(&peers);
        },
        None => {},
    }
}

/// The peers in a compact peer list: six bytes each, none where the length
/// is no multiple of six.
pub open spec fn compact_peers(s: Seq<u8>) -> Seq<(u32, u16)> {
    if s.len() % 6 == 0 {
        peers_at(s, 0, s.len() / 6)
    } else {
        Seq::empty()
    }
}

/// The peers that an HTTP tracker's response names: those of the byte
/// string `peers` in the bencoded mapping that is the response. A response
/// that is no such mapping names none.
pub open spec fn response_peers(body: Seq<u8>) -> Seq<(u32, u16)> {
    match parse_value(body, 0, false) {
        Ok((Value::Dict(d), next)) => match lookup(d, KEY_PEERS@) {
            Some(Value::ByteString(s)) => compact_peers(s),
            _ => Seq::empty(),
        },
        _ => Seq::empty(),
    }
}

/// Reads the peers out of an HTTP tracker's response.
pub fn parse_http_resp(body: Vec<u8>) -> (peers: Vec<(u32, u16)>)
    ensures
        peers@ == response_peers(body@),
{
    match Bencode::decode_u8(body) {
        Ok(Element::Dict(d)) => {
            proof {
                lemma_dict_view(d);
            }
            match get(&d, KEY_PEERS.as_slice()) {
                Some(Element::ByteString(s)) => {
                    if s.len() % 6 == 0 {
                        read_peers(s.as_slice(), 0, s.len() / 6)
                    } else {
                        Vec::new()
                    }
                },
                _ => Vec::new(),
            }
        },
        _ => Vec::new(),
    }
}

/// How a tracker is spoken to.
#[derive(Debug, Clone, Copy, PartialEq, Eq, Structural)]
pub enum TrackerKind {
    Udp,
    Http,
    Unknown,
}

/// Whether `s` begins with `prefix`.
pub open spec fn starts_with(s: Seq<u8>, prefix: Seq<u8>) -> bool {
    s.len() >= prefix.len() && s.subrange(0, prefix.len() as int) == prefix
}

/// The bytes `udp://`.
pub const UDP_SCHEME: [u8; 6] = [117, 100, 112, 58, 47, 47];

/// The bytes `http`, with which `http://` and `https://` begin.
pub const HTTP_SCHEME: [u8; 4] = [104, 116, 116, 112];

/// How the tracker at a URL with the given bytes is spoken to.
pub open spec fn kind_of(url: Seq<u8>) -> TrackerKind {
    if starts_with(url, UDP_SCHEME@) {
        TrackerKind::Udp
    } else if starts_with(url, HTTP_SCHEME@) {
        TrackerKind::Http
    } else {
        TrackerKind::Unknown
    }
}

fn begins(s: &[u8], prefix: &[u8]) -> (yes: bool)
    ensures
        yes == starts_with(s@, prefix@),
{
    if s.len() < prefix.len() {
        return false;
    }
    let mut i: usize = 0;
    while i < prefix.len()
        invariant
            i <= prefix@.len(),
            prefix@.len() <= s@.len(),
            forall|k: int| 0 <= k < i ==> s@[k] == prefix@[k],
        decreases prefix@.len() - i,
    {
        if s[i] != prefix[i] {
            assert(s@.subrange(0, prefix@.len() as int)[i as int] != prefix@[i as int]);
            return false;
        }
        i += 1;
    }
    proof {
        assert(s@.subrange(0, prefix@.len() as int) =~= prefix@);
    }
    true
}

/// Says by its scheme how the tracker at `announce_url` is spoken to:
/// `udp://` by UDP, `http://` and `https://` by HTTP.
pub fn tracker_kind(announce_url: &str) -> (kind: TrackerKind)
    ensures
        kind == kind_of(announce_url.spec_bytes()),
{
    let bytes = announce_url.as_bytes();
    if begins(bytes, UDP_SCHEME.as_slice()) {
        TrackerKind::Udp
    } else if begins(bytes, HTTP_SCHEME.as_slice()) {
        TrackerKind::Http
    } else {
        TrackerKind::Unknown
    }
}

/// The trackers of a torrent in the order in which they are asked: the
/// announce URL, where there is one, then the URLs of the announce list.
pub open spec fn trackers_of(
    announce_url: Option<Seq<char>>,
    announce_list: Option<Seq<Seq<char>>>,
) -> Seq<Seq<char>> {
    (match announce_url {
        Some(url) => seq![url],
        None => Seq::empty(),
    }) + (match announce_list {
        Some(list) => list,
        None => Seq::empty(),
    })
}

/// Pairs each tracker with the port that it is told: `FIRST_PORT` for the
/// first and one more for each one after, as far as port numbers go.
pub fn announce_targets(
    announce_url: &Option<String>,
    announce_list: &Option<Vec<String>>,
) -> (targets: Vec<(String, u16)>)
    ensures
        ({
            let all = trackers_of(text_view(*announce_url), list_view(*announce_list));
            &&& targets@.len() == if all.len() <= u16::MAX - FIRST_PORT + 1 {
                all.len() as int
            } else {
                u16::MAX - FIRST_PORT + 1
            }
            &&& forall|i: int|
                0 <= i < targets@.len() ==> (#[trigger] targets@[i]).0@ == all[i] && targets@[i].1
                    == FIRST_PORT + i
        }),
{
    let ghost all = trackers_of(text_view(*announce_url), list_view(*announce_list));
    let mut targets: Vec<(String, u16)> = Vec::new();
    match announce_url {
        Some(url) => {
            targets.push((url.clone(), FIRST_PORT));
        },
        None => {},
    }
    match announce_list {
        Some(list) => {
            let first: usize = targets.len();
            let mut i: usize = 0;
            while i < list.len() && targets.len() < (u16::MAX - FIRST_PORT) as usize + 1
                invariant
                    i <= list@.len(),
                    first <= 1,
                    targets@.len() == first + i,
                    targets@.len() <= u16::MAX - FIRST_PORT + 1,
                    all == trackers_of(text_view(*announce_url), list_view(*announce_list)),
                    *announce_list == Some(*list),
                    first == (if *announce_url is Some {
                        1int
                    } else {
                        0int
                    }),
                    forall|k: int|
                        0 <= k < targets@.len() ==> (#[trigger] targets@[k]).0@ == all[k]
                            && targets@[k].1 == FIRST_PORT + k,
                decreases list@.len() - i,
            {
                let port: u16 = FIRST_PORT + targets.len() as u16;
                targets.push((list[i].clone(), port));
                i += 1;
            }
        },
        None => {},
    }
    targets
}

/// What the tracker loop does next.
#[derive(Debug, Clone, Copy, PartialEq, Eq, Structural)]
pub enum TrackerStep {
    /// Every piece is there: end the loop.
    Stop,
    /// Enough peers are connected or waiting: ask again later.
    Wait,
    /// Ask the trackers for peers.
    Announce,
}

/// What the tracker loop does next: it ends once no piece is left, waits
/// while as many peers are connected as may be or a peer is still pending,
/// and asks the trackers otherwise.
pub fn get_peers(pieces_left: usize, connected: usize, pending: usize) -> (step: TrackerStep)
    ensures
        step == (if pieces_left == 0 {
            TrackerStep::Stop
        } else if connected >= crate::helpers::CONN_LIMIT || pending > 0 {
            TrackerStep::Wait
        } else {
            TrackerStep::Announce
        }),
{
    if pieces_left == 0 {
        TrackerStep::Stop
    } else if connected >= crate::helpers::CONN_LIMIT as usize || pending > 0 {
        TrackerStep::Wait
    } else {
        TrackerStep::Announce
    }
}

/// Seconds between two rounds of the tracker loop.
pub const ANNOUNCE_PAUSE: u64 = 5;

/// What a URL has: its host, which is a domain name or an address, its
/// port, where it names one, and its path.
pub struct UrlParts {
    /// The domain name of the host; none where the host is an address.
    pub host: Option<Option<String>>,
    pub port: Option<u16>,
    pub path: String,
}

/// The parts of a URL as values.
pub struct UrlPartsView {
    pub host: Option<Option<Seq<char>>>,
    pub port: Option<u16>,
    pub path: Seq<char>,
}

impl View for UrlParts {
    type V = UrlPartsView;

    open spec fn view(&self) -> UrlPartsView {
        UrlPartsView {
            host: match self.host {
                Some(Some(d)) => Some(Some(d@)),
                Some(None) => Some(None),
                None => None,
            },
            port: self.port,
            path: self.path@,
        }
    }
}

/// What the url crate makes of `url`: its parts, or nothing where it is no
/// absolute URL.
pub uninterp spec fn url_parts_of(url: Seq<char>) -> Option<UrlPartsView>;

/// `Url::parse` of the url crate, and of the parsed URL `host`, `port` and
/// `path`: the parts of `url`, which depend on its text alone, or nothing
/// where `url` is no absolute URL.
#[verifier::external_body]
pub(crate) fn url_parts(url: &str) -> (parts: Option<UrlParts>)
    ensures
        match parts {
            Some(p) => url_parts_of(url@) == Some(p@),
            None => url_parts_of(url@) is None,
        },
{
    let parsed = match Url::parse(url) {
        Ok(parsed) => parsed,
        Err(_) => return None,
    };
    let host = match parsed.host() {
        Some(Host::Domain(s)) => Some(Some(s.to_owned())),
        Some(Host::Ipv4(_)) => Some(None),
        Some(Host::Ipv6(_)) => Some(None),
        None => None,
    };
    Some(UrlParts { host, port: parsed.port(), path: parsed.path().to_owned() })
}

/// The address to send to and the path, from the parts of a tracker's URL:
/// the domain name, `:` and the port in decimal. A URL without a host or
/// without a port gives none; a host that is an address leaves the name
/// empty.
pub open spec fn remote_of(parts: Option<UrlPartsView>) -> Option<(Seq<char>, Seq<char>)> {
    match parts {
        Some(p) => match (p.host, p.port) {
            (Some(host), Some(port)) => Some(
                (
                    (match host {
                        Some(domain) => domain,
                        None => Seq::empty(),
                    }) + seq![':'] + decimal_text(port as nat),
                    p.path,
                ),
            ),
            _ => None,
        },
        None => None,
    }
}

/// Turns the parts of a tracker's URL into the address to send to and the
/// path.
pub fn remote_addr(parts: Option<UrlParts>) -> (r: Option<(String, String)>)
    ensures
        match r {
            Some(x) => remote_of(
                match parts {
                    Some(p) => Some(p@),
                    None => None,
                },
            ) == Some((x.0@, x.1@)),
            None => remote_of(
                match parts {
                    Some(p) => Some(p@),
                    None => None,
                },
            ) is None,
        },
{
    match parts {
        Some(p) => match (p.host, p.port) {
            (Some(host), Some(port)) => {
                let mut remote: String = match host {
                    Some(domain) => domain,
                    None => String::new(),
                };
                push_char(&mut remote, ':');
                push_decimal_text(&mut remote, port as u64);
                Some((remote, p.path))
            },
            _ => None,
        },
        None => None,
    }
}

/// Splits a tracker's URL into the address to send to, which is the
/// host's name, `:` and the port, and the path.
pub fn parse_url(announce_url: &str) -> (r: Option<(String, String)>)
    ensures
        match r {
            Some(x) => remote_of(url_parts_of(announce_url@)) == Some((x.0@, x.1@)),
            None => remote_of(url_parts_of(announce_url@)) is None,
        },
{
    remote_addr(url_parts(announce_url))
}

/// How far the exchange with a UDP tracker has come.
#[derive(Debug, Clone, Copy, PartialEq, Eq, Structural)]
pub enum UdpState {
    /// The connect request with this transaction id is on its way.
    Connecting { transaction_id: u32 },
    /// The announce with this transaction id has been sent `attempt + 1`
    /// times.
    Announcing { transaction_id: u32, attempt: u32 },
    /// The exchange is over.
    Done,
}

/// What is to be done next in the exchange with a UDP tracker.
#[derive(Debug)]
pub enum UdpAction {
    /// Send these bytes and wait so many seconds for a reply.
    Send { bytes: Vec<u8>, wait: u64 },
    /// The exchange is over, with these peers or with none.
    Finish(Option<Vec<(u32, u16)>>),
}

/// An action as a value.
pub enum UdpReaction {
    Send { bytes: Seq<u8>, wait: u64 },
    Finish(Option<Seq<(u32, u16)>>),
}

impl View for UdpAction {
    type V = UdpReaction;

    open spec fn view(&self) -> UdpReaction {
        match self {
            UdpAction::Send { bytes, wait } => UdpReaction::Send { bytes: bytes@, wait: *wait },
            UdpAction::Finish(Some(peers)) => UdpReaction::Finish(Some(peers@)),
            UdpAction::Finish(None) => UdpReaction::Finish(None),
        }
    }
}

/// The exchange with one UDP tracker: connect, then announce, sending the
/// announce again with a longer wait each time no reply comes.
pub struct UdpTracker {
    pub state: UdpState,
    pub info_hash: [u8; 20],
    pub peer_id: [u8; 20],
    pub length: u64,
    pub downloaded: u64,
    pub port: u16,
    /// The announce as it was sent, to be sent again.
    pub request: Vec<u8>,
}

/// The state after a reply and what is to be done, where `transaction_id`
/// and `key` are the fresh numbers for an announce. A connect reply that is
/// too short or echoes another transaction id ends the exchange without
/// peers; one that echoes ours is followed by the announce. An announce
/// reply that is too short or echoes another transaction id ends the
/// exchange without peers; one that echoes ours ends it with its peers.
pub open spec fn after_reply(t: UdpTracker, reply: Seq<u8>, transaction_id: u32, key: u32) -> (
    UdpState,
    Seq<u8>,
    UdpReaction,
) {
    match t.state {
        UdpState::Connecting { transaction_id: sent } => {
            if reply.len() >= 16 && from_be32(reply.subrange(4, 8)) == sent {
                let bytes = announce_bytes(
                    announce_of(
                        from_be64(reply.subrange(8, 16)),
                        transaction_id,
                        key,
                        t.info_hash,
                        t.length,
                        t.peer_id,
                        t.downloaded,
                        t.port,
                    ),
                );
                (
                    UdpState::Announcing { transaction_id, attempt: 0 },
                    bytes,
                    UdpReaction::Send { bytes, wait: 15 },
                )
            } else {
                (UdpState::Done, t.request@, UdpReaction::Finish(None))
            }
        },
        UdpState::Announcing { transaction_id: sent, attempt } => {
            let seeders = from_be32(reply.subrange(16, 20));
            if reply.len() >= 20 && reply.len() >= 20 + 6 * seeders && from_be32(
                reply.subrange(4, 8),
            ) == sent {
                (
                    UdpState::Done,
                    t.request@,
                    UdpReaction::Finish(Some(peers_at(reply, 20, seeders as nat))),
                )
            } else {
                (UdpState::Done, t.request@, UdpReaction::Finish(None))
            }
        },
        UdpState::Done => (UdpState::Done, t.request@, UdpReaction::Finish(None)),
    }
}

/// The state after a wait has run out and what is to be done. An announce
/// is sent again, with twice the wait, until it has been sent
/// `ANNOUNCE_ATTEMPTS` times; otherwise the exchange ends without peers.
pub open spec fn after_timeout(t: UdpTracker) -> (UdpState, UdpReaction) {
    match t.state {
        UdpState::Announcing { transaction_id, attempt } => if attempt + 1 < ANNOUNCE_ATTEMPTS {
            (
                UdpState::Announcing { transaction_id, attempt: (attempt + 1) as u32 },
                UdpReaction::Send {
                    bytes: t.request@,
                    wait: announce_wait((attempt + 1) as u32) as u64,
                },
            )
        } else {
            (UdpState::Done, UdpReaction::Finish(None))
        },
        _ => (UdpState::Done, UdpReaction::Finish(None)),
    }
}

impl UdpTracker {
    /// Whether two exchanges are for the same torrent and peer.
    pub open spec fn same_subject(self, other: UdpTracker) -> bool {
        &&& self.info_hash == other.info_hash
        &&& self.peer_id == other.peer_id
        &&& self.length == other.length
        &&& self.downloaded == other.downloaded
        &&& self.port == other.port
    }

    /// Starts an exchange with the connect request of the given
    /// transaction id, to be answered within `CONNECT_WAIT` seconds.
    pub fn start_with(
        transaction_id: u32,
        info_hash: [u8; 20],
        length: u64,
        peer_id: [u8; 20],
        port: u16,
        downloaded: u64,
    ) -> (r: (UdpTracker, UdpAction))
        ensures
            r.0.state == (UdpState::Connecting { transaction_id }),
            r.0.info_hash == info_hash,
            r.0.peer_id == peer_id,
            r.0.length == length,
            r.0.downloaded == downloaded,
            r.0.port == port,
            r.0.request@.len() == 0,
            r.1@ == (UdpReaction::Send {
                bytes: connect_bytes(transaction_id),
                wait: CONNECT_WAIT,
            }),
    {
        let tracker = UdpTracker {
            state: UdpState::Connecting { transaction_id },
            info_hash,
            peer_id,
            length,
            downloaded,
            port,
            request: Vec::new(),
        };
        (tracker, UdpAction::Send { bytes: connection_request(transaction_id), wait: CONNECT_WAIT })
    }

    /// Starts an exchange with a transaction id drawn at random.
    pub fn start(
        info_hash: [u8; 20],
        length: u64,
        peer_id: [u8; 20],
        port: u16,
        downloaded: u64,
    ) -> (r: (UdpTracker, UdpAction))
        ensures
            r.0.state matches UdpState::Connecting { transaction_id } && r.1@ == (
            UdpReaction::Send { bytes: connect_bytes(transaction_id), wait: CONNECT_WAIT }),
            r.0.info_hash == info_hash,
            r.0.peer_id == peer_id,
            r.0.length == length,
            r.0.downloaded == downloaded,
            r.0.port == port,
    {
        UdpTracker::start_with(random_u32(), info_hash, length, peer_id, port, downloaded)
    }

    /// Takes a reply from the tracker; `transaction_id` and `key` are the
    /// fresh numbers for the announce that may follow.
    pub fn on_reply_with(&mut self, reply: &[u8], transaction_id: u32, key: u32) -> (action:
        UdpAction)
        ensures
            final(self).state == after_reply(*old(self), reply@, transaction_id, key).0,
            final(self).request@ == after_reply(*old(self), reply@, transaction_id, key).1,
            action@ == after_reply(*old(self), reply@, transaction_id, key).2,
            final(self).same_subject(*old(self)),
    {
        match self.state {
            UdpState::Connecting { transaction_id: sent } => {
                match parse_connection_resp(reply) {
                    Some((_, echoed, conn_id)) => {
                        if echoed == sent {
                            let bytes = announce_request(
                                conn_id,
                                transaction_id,
                                key,
                                &self.info_hash,
                                self.length,
                                &self.peer_id,
                                self.downloaded,
                                self.port,
                            );
                            self.request = vstd::slice::slice_to_vec(bytes.as_slice());
                            self.state = UdpState::Announcing { transaction_id, attempt: 0 };
                            return UdpAction::Send { bytes, wait: 15 };
                        }
                    },
                    None => {},
                }
                self.state = UdpState::Done;
                UdpAction::Finish(None)
            },
            UdpState::Announcing { transaction_id: sent, attempt } => {
                self.state = UdpState::Done;
                match parse_announce_resp(reply) {
                    Some(resp) => {
                        if resp.transaction_id == sent {
                            UdpAction::Finish(Some(resp.peer_list))
                        } else {
                            UdpAction::Finish(None)
                        }
                    },
                    None => UdpAction::Finish(None),
                }
            },
            UdpState::Done => UdpAction::Finish(None),
        }
    }

    /// Takes a reply from the tracker, with fresh numbers drawn at random
    /// for the announce that may follow.
    pub fn on_reply(&mut self, reply: &[u8]) -> (action: UdpAction)
        ensures
            exists|transaction_id: u32, key: u32|
                {
                    &&& final(self).state == (#[trigger] after_reply(
                        *old(self),
                        reply@,
                        transaction_id,
                        key,
                    )).0
                    &&& final(self).request@ == after_reply(
                        *old(self),
                        reply@,
                        transaction_id,
                        key,
                    ).1
                    &&& action@ == after_reply(*old(self), reply@, transaction_id, key).2
                },
            final(self).same_subject(*old(self)),
    {
        let transaction_id: u32 = random_u32();
        let key: u32 = random_u32();
        let action = self.on_reply_with(reply, transaction_id, key);
        proof {
            let r = after_reply(*old(self), reply@, transaction_id, key);
            assert(self.state == r.0 && self.request@ == r.1 && action@ == r.2);
        }
        action
    }

    /// Takes note that no reply came within the wait.
    pub fn on_timeout(&mut self) -> (action: UdpAction)
        ensures
            final(self).state == after_timeout(*old(self)).0,
            action@ == after_timeout(*old(self)).1,
            final(self).request@ == old(self).request@,
            final(self).same_subject(*old(self)),
    {
        match self.state {
            UdpState::Announcing { transaction_id, attempt } => {
                if attempt < ANNOUNCE_ATTEMPTS - 1 {
                    self.state = UdpState::Announcing { transaction_id, attempt: attempt + 1 };
                    return UdpAction::Send {
                        bytes: vstd::slice::slice_to_vec(self.request.as_slice()),
                        wait: announce_timeout(attempt + 1),
                    };
                }
            },
            _ => {},
        }
        self.state = UdpState::Done;
        UdpAction::Finish(None)
    }
}

} // verus!
