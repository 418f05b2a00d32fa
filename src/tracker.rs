use vstd::prelude::*;
use vstd::string::{StringExecFns, StringSliceAdditionalSpecFns};
use crate::bencode::{entry_field, parse_value, usize_value, Entry, EntryData};
use crate::decoder::decode;
use crate::encoder::{decimal, push_decimal};
use crate::text::{ascii_chars, is_ascii_bytes, lossy_string};
use crate::torrent::Info;
use crate::urlencode::{push_urlencoded, url_encoded};
use crate::wire::{
    be16, be32, be32_bytes, be64, be64_bytes, be16_bytes, push_bytes, push_u16, push_u32, push_u64,
    read_u16_at, read_u32_at, read_u64_at,
};

verus! {

/// An IPv4 peer: its address as a 32-bit number (first octet most significant) and its port.
#[derive(PartialEq, Eq, Structural, Debug, Clone, Copy)]
pub struct PeerAddress {
    pub ip: u32,
    pub port: u16,
}

/// What the tracker task reports.
pub enum TrackerState {
    Connected(u64),
    Announced(Vec<PeerAddress>),
    Close(String),
}

/// Why a UDP tracker reply was refused.
#[derive(PartialEq, Eq, Structural, Debug, Clone, Copy)]
pub enum TrackerError {
    /// The reply is shorter than its fields.
    Truncated,
    /// The reply answers another transaction.
    BadTransaction,
    /// The reply carries another action than the one asked.
    BadAction,
}

/// The magic number that opens a UDP connect request.
pub const CONNECT_MAGIC: u64 = 0x41727101980;

/// Bytes per compact peer: four of address, two of port.
pub const IP_SIZE: usize = 6;

/// Peers asked for in an announce.
pub const NUM_WANT: u32 = 50;

/// The peers of a compact peer list: one for each whole 6 bytes.
pub open spec fn compact_spec(b: Seq<u8>) -> Seq<PeerAddress> {
    Seq::new(b.len() / 6, |i: int| PeerAddress { ip: be32(b, 6 * i) as u32, port: be16(b, 6 * i + 4) as u16 })
}

/// The peers in `d[from..]`, read as a compact list.
fn compact_peers(d: &[u8], from: usize) -> (r: Vec<PeerAddress>)
    requires
        from <= d@.len(),
    ensures
        r@ == compact_spec(d@.subrange(from as int, d@.len() as int)),
{
    let len = d.len();
    let n = (len - from) / 6;
    let ghost t = d@.subrange(from as int, d@.len() as int);
    let mut out: Vec<PeerAddress> = Vec::new();
    let mut i: usize = 0;
    while i < n
        invariant
            i <= n,
            len == d@.len(),
            from <= len,
            n == (len - from) / 6,
            t == d@.subrange(from as int, d@.len() as int),
            out@.len() == i,
            forall|j: int| 0 <= j < i ==> #[trigger] out@[j] == compact_spec(t)[j],
        decreases n - i,
    {
        proof {
            assert(from + 6 * i + 6 <= len) by (nonlinear_arith)
                requires
                    i < n,
                    n == (len - from) / 6,
                    from <= len,
            ;
        }
        let p = from + 6 * i;
        let ip = read_u32_at(d, p);
        let port = read_u16_at(d, p + 4);
        proof {
            assert(t[6 * i] == d@[p as int]);
            assert(t[6 * i + 1] == d@[p + 1]);
            assert(t[6 * i + 2] == d@[p + 2]);
            assert(t[6 * i + 3] == d@[p + 3]);
            assert(t[6 * i + 4] == d@[p + 4]);
            assert(t[6 * i + 5] == d@[p + 5]);
        }
        out.push(PeerAddress { ip: ip, port: port });
        i = i + 1;
    }
    assert(out@ =~= compact_spec(t));
    out
}

/// A UDP connect request.
pub struct ConnectCmd {
    pub action: u32,
    pub transaction_id: u32,
}

impl ConnectCmd {
    /// The 16 bytes sent: the magic number, the action and the transaction id.
    pub fn serialize(&self) -> (r: Vec<u8>)
        ensures
            r@ == be64_bytes(CONNECT_MAGIC) + be32_bytes(self.action) + be32_bytes(self.transaction_id),
            r@.len() == 16,
    {
        let mut res: Vec<u8> = Vec::new();
        push_u64(&mut res, CONNECT_MAGIC);
        push_u32(&mut res, self.action);
        push_u32(&mut res, self.transaction_id);
        assert(res@ =~= be64_bytes(CONNECT_MAGIC) + be32_bytes(self.action) + be32_bytes(self.transaction_id));
        res
    }
}

/// A UDP announce request.
pub struct AnnounceCmd {
    pub connection_id: u64,
    pub transaction_id: u32,
    pub info_hash: Vec<u8>,
    pub peer_id: Vec<u8>,
    pub downloaded: u64,
    pub left: u64,
    pub uploaded: u64,
    pub event: u32,
    pub ip: u32,
    pub key: u32,
    pub num_want: u32,
    pub port: u16,
}

/// The bytes of an announce request, every number big-endian, action 1.
pub open spec fn announce_bytes(c: AnnounceCmd) -> Seq<u8> {
    be64_bytes(c.connection_id) + be32_bytes(1) + be32_bytes(c.transaction_id) + c.info_hash@ + c.peer_id@
        + be64_bytes(c.downloaded) + be64_bytes(c.left) + be64_bytes(c.uploaded) + be32_bytes(c.event)
        + be32_bytes(c.ip) + be32_bytes(c.key) + be32_bytes(c.num_want) + be16_bytes(c.port)
}

impl AnnounceCmd {
    /// The bytes sent: 98 of them when the hash and the peer id are 20 bytes each.
    pub fn serialize(&self) -> (r: Vec<u8>)
        ensures
            r@ == announce_bytes(*self),
            r@.len() == 58 + self.info_hash@.len() + self.peer_id@.len(),
    {
        let mut res: Vec<u8> = Vec::new();
        push_u64(&mut res, self.connection_id);
        push_u32(&mut res, 1);
        push_u32(&mut res, self.transaction_id);
        push_bytes(&mut res, self.info_hash.as_slice());
        push_bytes(&mut res, self.peer_id.as_slice());
        push_u64(&mut res, self.downloaded);
        push_u64(&mut res, self.left);
        push_u64(&mut res, self.uploaded);
        push_u32(&mut res, self.event);
        push_u32(&mut res, self.ip);
        push_u32(&mut res, self.key);
        push_u32(&mut res, self.num_want);
        push_u16(&mut res, self.port);
        assert(res@ =~= announce_bytes(*self));
        res
    }
}

/// A reply to a connect request.
#[derive(PartialEq, Eq, Structural, Debug, Clone, Copy)]
pub struct ConnectResp {
    pub connection_id: u64,
}

/// What a connect reply `d` to transaction `tid` says.
pub open spec fn connect_resp_spec(tid: u32, d: Seq<u8>) -> Result<u64, TrackerError> {
    if d.len() < 8 {
        Err(TrackerError::Truncated)
    } else if be32(d, 4) != tid {
        Err(TrackerError::BadTransaction)
    } else if be32(d, 0) != 0 {
        Err(TrackerError::BadAction)
    } else if d.len() < 16 {
        Err(TrackerError::Truncated)
    } else {
        Ok(be64(d, 8) as u64)
    }
}

impl ConnectResp {
    /// Reads a connect reply: action 0, the transaction id, then the connection id.
    pub fn deserialize(transaction_id: u32, data: &[u8]) -> (r: Result<ConnectResp, TrackerError>)
        ensures
            match connect_resp_spec(transaction_id, data@) {
                Ok(c) => r == Ok::<ConnectResp, TrackerError>(ConnectResp { connection_id: c }),
                Err(e) => r == Err::<ConnectResp, TrackerError>(e),
            },
    {
        if data.len() < 8 {
            return Err(TrackerError::Truncated);
        }
        let action = read_u32_at(data, 0);
        let tranid = read_u32_at(data, 4);
        if tranid != transaction_id {
            return Err(TrackerError::BadTransaction);
        }
        if action != 0 {
            return Err(TrackerError::BadAction);
        }
        if data.len() < 16 {
            return Err(TrackerError::Truncated);
        }
        let conid = read_u64_at(data, 8);
        Ok(ConnectResp { connection_id: conid })
    }
}

/// A reply to an announce request.
pub struct AnnounceResp {
    pub interval: u32,
    pub leechers: u32,
    pub seeders: u32,
    pub peers: Vec<PeerAddress>,
}

/// What an announce reply `d` to transaction `tid` says: interval, leechers, seeders, peers.
pub open spec fn announce_resp_spec(tid: u32, d: Seq<u8>) -> Result<(u32, u32, u32, Seq<PeerAddress>), TrackerError> {
    if d.len() < 8 {
        Err(TrackerError::Truncated)
    } else if be32(d, 0) != 1 {
        Err(TrackerError::BadAction)
    } else if be32(d, 4) != tid {
        Err(TrackerError::BadTransaction)
    } else if d.len() < 20 {
        Err(TrackerError::Truncated)
    } else {
        Ok((be32(d, 8) as u32, be32(d, 12) as u32, be32(d, 16) as u32, compact_spec(d.subrange(20, d.len() as int))))
    }
}

impl AnnounceResp {
    /// Reads an announce reply: action 1, the transaction id, interval, leechers, seeders,
    /// then one peer for each whole 6 bytes.
    pub fn deserialize(transaction_id: u32, data: &[u8]) -> (r: Result<AnnounceResp, TrackerError>)
        ensures
            match announce_resp_spec(transaction_id, data@) {
                Ok(a) => r matches Ok(x) && x.interval == a.0 && x.leechers == a.1 && x.seeders == a.2 && x.peers@ == a.3,
                Err(e) => r matches Err(x) && x == e,
            },
    {
        if data.len() < 8 {
            return Err(TrackerError::Truncated);
        }
        let action = read_u32_at(data, 0);
        let tran_id = read_u32_at(data, 4);
        if action != 1 {
            return Err(TrackerError::BadAction);
        }
        if tran_id != transaction_id {
            return Err(TrackerError::BadTransaction);
        }
        if data.len() < 20 {
            return Err(TrackerError::Truncated);
        }
        let interval = read_u32_at(data, 8);
        let leechers = read_u32_at(data, 12);
        let seeders = read_u32_at(data, 16);
        let peers = compact_peers(data, 20);
        Ok(AnnounceResp { interval: interval, leechers: leechers, seeders: seeders, peers: peers })
    }
}

/// The state of reading dotted-quad IPv4 text: whether it is still well formed, how many
/// groups are complete, the value and digit count of the current group, and the value of
/// the complete groups.
pub struct IpScan {
    pub ok: bool,
    pub done: int,
    pub cur: int,
    pub len: int,
    pub acc: int,
}

/// One more byte of IPv4 text: a digit extends the current group (at most three digits, at
/// most 255); a `.` closes a non-empty group (at most three of them); anything else is wrong.
pub open spec fn ip_step(st: IpScan, c: u8) -> IpScan {
    if !st.ok {
        st
    } else if 48 <= c && c <= 57 {
        let cur = st.cur * 10 + (c - 48);
        let len = st.len + 1;
        IpScan { ok: len <= 3 && cur <= 255, cur: cur, len: len, ..st }
    } else if c == 46 && st.len > 0 && st.done < 3 {
        IpScan { ok: true, done: st.done + 1, cur: 0, len: 0, acc: st.acc * 256 + st.cur }
    } else {
        IpScan { ok: false, ..st }
    }
}

pub open spec fn ip_scan(b: Seq<u8>) -> IpScan
    decreases b.len(),
{
    if b.len() == 0 {
        IpScan { ok: true, done: 0, cur: 0, len: 0, acc: 0 }
    } else {
        ip_step(ip_scan(b.drop_last()), b.last())
    }
}

/// The address written as `a.b.c.d`, each group one to three digits of value at most 255.
pub open spec fn ipv4_value(b: Seq<u8>) -> Option<u32> {
    let st = ip_scan(b);
    if st.ok && st.done == 3 && st.len > 0 {
        Some((st.acc * 256 + st.cur) as u32)
    } else {
        None
    }
}

/// Reads dotted-quad IPv4 text.
pub fn parse_ipv4(b: &[u8]) -> (r: Option<u32>)
    ensures
        r == ipv4_value(b@),
{
    let mut ok = true;
    let mut done: u32 = 0;
    let mut cur: u32 = 0;
    let mut len: u32 = 0;
    let mut acc: u32 = 0;
    let mut i: usize = 0;
    assert(b@.subrange(0, 0) =~= Seq::<u8>::empty());
    while i < b.len()
        invariant
            i <= b@.len(),
            ok == ip_scan(b@.subrange(0, i as int)).ok,
            ok ==> ({
                let st = ip_scan(b@.subrange(0, i as int));
                &&& done as int == st.done && cur as int == st.cur && len as int == st.len && acc as int == st.acc
                &&& done <= 3 && cur <= 255 && len <= 3
                &&& (done == 0 ==> acc == 0) && (done == 1 ==> acc < 256) && (done == 2 ==> acc < 65536)
                &&& (done == 3 ==> acc < 16777216)
            }),
        decreases b@.len() - i,
    {
        proof {
            let sub = b@.subrange(0, i as int + 1);
            assert(sub.drop_last() =~= b@.subrange(0, i as int));
            assert(sub.last() == b@[i as int]);
        }
        let c = b[i];
        if ok {
            if 48 <= c && c <= 57 {
                cur = cur * 10 + (c - 48) as u32;
                len = len + 1;
                ok = len <= 3 && cur <= 255;
            } else if c == 46 && len > 0 && done < 3 {
                acc = acc * 256 + cur;
                done = done + 1;
                cur = 0;
                len = 0;
            } else {
                ok = false;
            }
        }
        i = i + 1;
    }
    assert(b@.subrange(0, b@.len() as int) =~= b@);
    if ok && done == 3 && len > 0 {
        Some(acc * 256 + cur)
    } else {
        None
    }
}

/// The peer of one element of the dictionary model: `ip` as IPv4 text and `port` as an
/// integer that fits 16 bits; `None` when it is anything else.
pub open spec fn dict_peer(e: Entry) -> Option<PeerAddress> {
    match entry_field(e.data, "ip".spec_bytes()) {
        Ok(ipe) => match ipe.data {
            EntryData::Str(v) => match ipv4_value(v@) {
                Some(ip) => match entry_field(e.data, "port".spec_bytes()) {
                    Ok(pe) => match pe.data {
                        EntryData::Int(n) => if 0 <= n && n <= 65535 {
                            Some(PeerAddress { ip: ip, port: n as u16 })
                        } else {
                            None
                        },
                        _ => None,
                    },
                    Err(_) => None,
                },
                None => None,
            },
            _ => None,
        },
        Err(_) => None,
    }
}

/// The peers of the dictionary model, in order, leaving out elements that are not IPv4 peers.
pub open spec fn dict_peers(items: Seq<Entry>) -> Seq<PeerAddress>
    decreases items.len(),
{
    if items.len() == 0 {
        Seq::empty()
    } else {
        dict_peers(items.drop_last()) + match dict_peer(items.last()) {
            Some(p) => seq![p],
            None => Seq::empty(),
        }
    }
}

/// The peers of an HTTP tracker's `peers` entry: a compact string, or a list of
/// dictionaries with `ip` and `port`; nothing for anything else.
pub open spec fn entry_peers(e: Entry) -> Seq<PeerAddress> {
    match e.data {
        EntryData::Str(v) => compact_spec(v@),
        EntryData::List(items) => dict_peers(items@),
        _ => Seq::empty(),
    }
}

fn read_dict_peer(e: &Entry) -> (r: Option<PeerAddress>)
    ensures
        r == dict_peer(*e),
{
    let ipe = match e.field("ip") {
        Err(_) => return None,
        Ok(x) => x,
    };
    let ip = match &ipe.data {
        EntryData::Str(v) => match parse_ipv4(v.as_slice()) {
            None => return None,
            Some(ip) => ip,
        },
        _ => return None,
    };
    let pe = match e.field("port") {
        Err(_) => return None,
        Ok(x) => x,
    };
    match &pe.data {
        EntryData::Int(n) => {
            if 0 <= *n && *n <= 65535 {
                Some(PeerAddress { ip: ip, port: *n as u16 })
            } else {
                None
            }
        },
        _ => None,
    }
}

/// The peers listed in an HTTP tracker's `peers` entry.
pub fn http_tracker_extract_peers(peers: &Entry) -> (r: Vec<PeerAddress>)
    ensures
        r@ == entry_peers(*peers),
{
    match &peers.data {
        EntryData::Str(v) => {
            let r = compact_peers(v.as_slice(), 0);
            assert(v@.subrange(0, v@.len() as int) =~= v@);
            r
        },
        EntryData::List(items) => {
            let mut out: Vec<PeerAddress> = Vec::new();
            let mut k: usize = 0;
            assert(items@.subrange(0, 0) =~= Seq::<Entry>::empty());
            while k < items.len()
                invariant
                    k <= items@.len(),
                    out@ == dict_peers(items@.subrange(0, k as int)),
                decreases items@.len() - k,
            {
                proof {
                    let sub = items@.subrange(0, k as int + 1);
                    assert(sub.drop_last() =~= items@.subrange(0, k as int));
                    assert(sub.last() == items@[k as int]);
                }
                match read_dict_peer(&items[k]) {
                    Some(p) => {
                        out.push(p);
                    },
                    None => {},
                }
                k = k + 1;
                assert(out@ =~= dict_peers(items@.subrange(0, k as int)));
            }
            assert(items@.subrange(0, items@.len() as int) =~= items@);
            out
        },
        _ => Vec::new(),
    }
}

/// The query appended to the announce URL.
pub open spec fn query_bytes(info_hash: Seq<u8>, peer_id: Seq<u8>, port: u16) -> Seq<u8> {
    url_encoded(info_hash) + seq![38u8] + url_encoded(peer_id) + seq![38u8] + decimal(port as nat)
}

/// The HTTP announce URL for a torrent and the port this client listens on.
pub open spec fn tracker_request_spec(announce: Seq<char>, info_hash: Seq<u8>, peer_id: Seq<u8>, port: u16) -> Seq<char> {
    announce + "?info_hash="@ + ascii_chars(url_encoded(info_hash)) + "&peer_id="@ + ascii_chars(url_encoded(peer_id))
        + "&port="@ + ascii_chars(decimal(port as nat))
        + "&uploaded=0&downloaded=0&left=0&event=started&compact=1"@
}

fn ascii_text(b: &Vec<u8>) -> (r: String)
    requires
        is_ascii_bytes(b@),
    ensures
        r@ == ascii_chars(b@),
{
    lossy_string(b.as_slice())
}

/// The HTTP announce URL: the announce address, then the query with the info hash, the
/// peer id, the port, zero progress, `event=started` and `compact=1`.
pub fn gen_tracker_request(info: &Info, peer_port: u16) -> (r: String)
    ensures
        r@ == tracker_request_spec(info.announce@, info.info_hash@, info.peer_id@, peer_port),
{
    let mut hash: Vec<u8> = Vec::new();
    push_urlencoded(&mut hash, info.info_hash.as_slice());
    let mut id: Vec<u8> = Vec::new();
    push_urlencoded(&mut id, info.peer_id.as_slice());
    let mut port: Vec<u8> = Vec::new();
    push_decimal(&mut port, peer_port as u64);
    proof {
        assert(hash@ =~= url_encoded(info.info_hash@));
        assert(id@ =~= url_encoded(info.peer_id@));
        assert(port@ =~= decimal(peer_port as nat));
        crate::encoder::lemma_decimal_ascii(peer_port as nat);
    }
    let mut r = info.announce.clone();
    r.append("?info_hash=");
    r.append(ascii_text(&hash).as_str());
    r.append("&peer_id=");
    r.append(ascii_text(&id).as_str());
    r.append("&port=");
    r.append(ascii_text(&port).as_str());
    r.append("&uploaded=0&downloaded=0&left=0&event=started&compact=1");
    r
}

/// How a tracker is reached.
#[derive(PartialEq, Eq, Structural, Debug, Clone, Copy)]
pub enum TrackerKind {
    Udp,
    Http,
    Unknown,
}

pub open spec fn has_prefix(s: Seq<u8>, p: Seq<u8>) -> bool {
    p.len() <= s.len() && s.subrange(0, p.len() as int) == p
}

/// The transport an announce URL names by its scheme.
pub open spec fn tracker_kind_spec(announce: Seq<u8>) -> TrackerKind {
    if has_prefix(announce, "udp://".spec_bytes()) {
        TrackerKind::Udp
    } else if has_prefix(announce, "http://".spec_bytes()) || has_prefix(announce, "https://".spec_bytes()) {
        TrackerKind::Http
    } else {
        TrackerKind::Unknown
    }
}

fn starts_with(s: &[u8], p: &[u8]) -> (r: bool)
    ensures
        r == has_prefix(s@, p@),
{
    if p.len() > s.len() {
        return false;
    }
    let mut i: usize = 0;
    while i < p.len()
        invariant
            i <= p@.len() <= s@.len(),
            forall|j: int| 0 <= j < i ==> s@[j] == p@[j],
        decreases p@.len() - i,
    {
        if s[i] != p[i] {
            assert(s@.subrange(0, p@.len() as int)[i as int] != p@[i as int]);
            return false;
        }
        i = i + 1;
    }
    assert(s@.subrange(0, p@.len() as int) =~= p@);
    true
}

/// Which transport the announce URL `announce` asks for.
pub fn tracker_kind(announce: &str) -> (r: TrackerKind)
    ensures
        r == tracker_kind_spec(announce.spec_bytes()),
{
    let a = announce.as_bytes();
    if starts_with(a, "udp://".as_bytes()) {
        TrackerKind::Udp
    } else if starts_with(a, "http://".as_bytes()) || starts_with(a, "https://".as_bytes()) {
        TrackerKind::Http
    } else {
        TrackerKind::Unknown
    }
}

/// What the tracker task does after one exchange: the reports to make, in order, and then
/// how many seconds to wait before the next announce, or `None` to stop.
pub struct TrackerStep {
    pub events: Vec<TrackerState>,
    pub sleep_secs: Option<u64>,
}

/// `e` closes with the reason `why`.
pub open spec fn closes_with(e: TrackerState, why: Seq<char>) -> bool {
    e matches TrackerState::Close(s) && s@ == why
}

fn close_event(why: &str) -> (r: TrackerState)
    ensures
        closes_with(r, why@),
{
    TrackerState::Close(String::from_str(why))
}

/// The step that follows a UDP connect reply: report the connection, or close.
pub fn udp_connect_step(transaction_id: u32, data: &[u8]) -> (r: (TrackerStep, Option<u64>))
    ensures
        match connect_resp_spec(transaction_id, data@) {
            Ok(c) => r.1 == Some(c) && r.0.events@.len() == 1 && r.0.events@[0] == TrackerState::Connected(c)
                && r.0.sleep_secs == Some(0u64),
            Err(e) => r.1 is None && r.0.events@.len() == 1 && closes_with(r.0.events@[0], error_text(e))
                && r.0.sleep_secs is None,
        },
{
    let mut events: Vec<TrackerState> = Vec::new();
    match ConnectResp::deserialize(transaction_id, data) {
        Ok(c) => {
            events.push(TrackerState::Connected(c.connection_id));
            (TrackerStep { events: events, sleep_secs: Some(0) }, Some(c.connection_id))
        },
        Err(e) => {
            events.push(close_event(error_message(e)));
            (TrackerStep { events: events, sleep_secs: None }, None)
        },
    }
}

/// The words a tracker error is reported with.
pub open spec fn error_text(e: TrackerError) -> Seq<char> {
    match e {
        TrackerError::Truncated => "Truncated tracker reply"@,
        TrackerError::BadTransaction => "Bad transaction ID"@,
        TrackerError::BadAction => "Bad action ID"@,
    }
}

/// The words a tracker error is reported with.
pub fn error_message(e: TrackerError) -> (r: &'static str)
    ensures
        r@ == error_text(e),
{
    match e {
        TrackerError::Truncated => "Truncated tracker reply",
        TrackerError::BadTransaction => "Bad transaction ID",
        TrackerError::BadAction => "Bad action ID",
    }
}

/// The step that follows a UDP announce reply: report its peers and wait its interval (in
/// seconds), or close.
pub fn udp_announce_step(transaction_id: u32, data: &[u8]) -> (r: TrackerStep)
    ensures
        match announce_resp_spec(transaction_id, data@) {
            Ok(a) => r.events@.len() == 1 && (r.events@[0] matches TrackerState::Announced(ps) && ps@ == a.3)
                && r.sleep_secs == Some(a.0 as u64),
            Err(e) => r.events@.len() == 1 && closes_with(r.events@[0], error_text(e)) && r.sleep_secs is None,
        },
{
    let mut events: Vec<TrackerState> = Vec::new();
    match AnnounceResp::deserialize(transaction_id, data) {
        Ok(a) => {
            let interval = a.interval as u64;
            events.push(TrackerState::Announced(a.peers));
            TrackerStep { events: events, sleep_secs: Some(interval) }
        },
        Err(e) => {
            events.push(close_event(error_message(e)));
            TrackerStep { events: events, sleep_secs: None }
        },
    }
}

/// What follows an HTTP announce reply `resp`: its peers when it lists some, then a wait of
/// `interval` seconds, or a close when the interval is missing or unreadable.
pub open spec fn http_outcome(resp: Entry, r: TrackerStep) -> bool {
    let k: int = if entry_field(resp.data, "peers".spec_bytes()) is Ok { 1 } else { 0 };
    &&& (k == 1 ==> (r.events@[0] matches TrackerState::Announced(ps) && ps@ == entry_peers(
        entry_field(resp.data, "peers".spec_bytes())->Ok_0,
    )))
    &&& match entry_field(resp.data, "interval".spec_bytes()) {
        Err(_) => r.events@.len() == k + 1 && closes_with(r.events@[k], "No interval error"@) && r.sleep_secs is None,
        Ok(iv) => match usize_value(iv.data) {
            Ok(n) => r.events@.len() == k && r.sleep_secs == Some(n as u64),
            Err(_) => r.events@.len() == k + 1 && closes_with(r.events@[k], "Bad interval"@) && r.sleep_secs is None,
        },
    }
}

/// The step that follows a decoded HTTP announce reply.
pub fn http_announce_step(resp: &Entry) -> (r: TrackerStep)
    ensures
        http_outcome(*resp, r),
{
    let mut events: Vec<TrackerState> = Vec::new();
    if let Ok(peers) = resp.field("peers") {
        events.push(TrackerState::Announced(http_tracker_extract_peers(peers)));
    }
    let interval = match resp.field("interval") {
        Err(_) => {
            events.push(close_event("No interval error"));
            return TrackerStep { events: events, sleep_secs: None };
        },
        Ok(i) => i,
    };
    match interval.as_usize() {
        Ok(n) => TrackerStep { events: events, sleep_secs: Some(n as u64) },
        Err(_) => {
            events.push(close_event("Bad interval"));
            TrackerStep { events: events, sleep_secs: None }
        },
    }
}

/// The step that follows the body of an HTTP announce reply: close when it is not bencoded,
/// else as `http_announce_step` says for the decoded value.
pub fn http_tracker_step(body: &[u8]) -> (r: TrackerStep)
    ensures
        parse_value(body@, 0) is Err ==> r.events@.len() == 1 && closes_with(r.events@[0], "Bencoder decode error"@)
            && r.sleep_secs is None,
        parse_value(body@, 0) is Ok ==> exists|e: Entry| e@ == parse_value(body@, 0)->Ok_0.0 && http_outcome(e, r),
{
    let mut input: &[u8] = body;
    match decode(&mut input) {
        Ok(resp) => http_announce_step(&resp),
        Err(_) => {
            let mut events: Vec<TrackerState> = Vec::new();
            events.push(close_event("Bencoder decode error"));
            TrackerStep { events: events, sleep_secs: None }
        },
    }
}

} // verus!
