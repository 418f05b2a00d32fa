use vstd::prelude::*;
use vstd::string::StringExecFns;
use crate::bitfield::{mask_of, Bitfield};
use crate::encoder::{decimal, push_decimal};
use crate::text::{ascii_chars, lossy_string, utf8_lossy};
use crate::torrent_data::zeros;
use crate::wire::{be32, be32_bytes, push_bytes, push_u32, read_u32_at};

verus! {

/// Messages between a peer task and the dispatcher.
pub enum ClientState {
    /// A whole piece, ready to be stored.
    Commit(usize, Vec<u8>),
    /// The peer is free; these are the pieces it has.
    Need(Bitfield),
    /// Fetch this piece.
    Want(usize),
    /// Stop, for this reason.
    Close(String),
}

/// The opening message of the peer-wire protocol.
#[derive(Debug)]
pub struct HandshakeMsg {
    pub pstr: String,
    pub info_hash: Vec<u8>,
    pub peer_id: Vec<u8>,
}

/// The protocol name sent in a handshake.
pub const PROTOCOL: &'static str = "BitTorrent protocol";

impl HandshakeMsg {
    /// The bytes sent: the length of the protocol name, the name, eight zero bytes, the info
    /// hash and the peer id.
    pub fn serialize(&self) -> (r: Vec<u8>)
        requires
            vstd::utf8::encode_utf8(self.pstr@).len() < 256,
        ensures
            r@ == seq![vstd::utf8::encode_utf8(self.pstr@).len() as u8] + vstd::utf8::encode_utf8(self.pstr@)
                + Seq::new(8, |i: int| 0u8) + self.info_hash@ + self.peer_id@,
    {
        let name = self.pstr.as_str().as_bytes();
        let mut data: Vec<u8> = Vec::new();
        data.push(name.len() as u8);
        push_bytes(&mut data, name);
        let resvd = zeros(8);
        push_bytes(&mut data, resvd.as_slice());
        push_bytes(&mut data, self.info_hash.as_slice());
        push_bytes(&mut data, self.peer_id.as_slice());
        data
    }

    /// Reads a handshake from its bytes: the name length `p`, the name, eight reserved bytes,
    /// the 20-byte info hash and the 20-byte peer id. `None` when `data` is shorter.
    pub fn from_bytes(data: &[u8]) -> (r: Option<HandshakeMsg>)
        ensures
            match r {
                Some(h) => data@.len() >= 1 && data@.len() >= 49 + data@[0] && h.pstr@ == utf8_lossy(
                    data@.subrange(1, 1 + data@[0] as int),
                ) && h.info_hash@ == data@.subrange(9 + data@[0] as int, 29 + data@[0] as int)
                    && h.peer_id@ == data@.subrange(29 + data@[0] as int, 49 + data@[0] as int),
                None => data@.len() < 1 || data@.len() < 49 + data@[0],
            },
    {
        if data.len() < 1 {
            return None;
        }
        let p = data[0] as usize;
        if data.len() < 49 + p {
            return None;
        }
        let pstr = lossy_string(vstd::slice::slice_subrange(data, 1, 1 + p));
        let info_hash = vstd::slice::slice_to_vec(vstd::slice::slice_subrange(data, 9 + p, 29 + p));
        let peer_id = vstd::slice::slice_to_vec(vstd::slice::slice_subrange(data, 29 + p, 49 + p));
        Some(HandshakeMsg { pstr: pstr, info_hash: info_hash, peer_id: peer_id })
    }

    /// Whether the remote side speaks of the same torrent.
    pub fn matches(&self, info_hash: &[u8]) -> (r: bool)
        ensures
            r == (self.info_hash@ == info_hash@),
    {
        crate::bencode::bytes_equal(self.info_hash.as_slice(), info_hash)
    }
}

/// A peer-wire message after its length prefix; a keep-alive has action 255.
#[derive(Debug)]
pub struct GeneralMsg {
    pub action: u8,
    pub payload: Vec<u8>,
}

/// The action number given to a keep-alive.
pub const KEEP_ALIVE: u8 = 255;

/// Largest block asked for in one request.
pub const MAX_REQUEST_SIZE: usize = 16384;

impl GeneralMsg {
    /// The bytes sent: the big-endian length of what follows, the action, the payload.
    pub fn serialize(&self) -> (r: Vec<u8>)
        requires
            self.payload@.len() + 1 <= u32::MAX,
        ensures
            r@ == be32_bytes((self.payload@.len() + 1) as u32) + seq![self.action] + self.payload@,
    {
        let mut data: Vec<u8> = Vec::new();
        push_u32(&mut data, (self.payload.len() + 1) as u32);
        data.push(self.action);
        push_bytes(&mut data, self.payload.as_slice());
        assert(data@ =~= be32_bytes((self.payload@.len() + 1) as u32) + seq![self.action] + self.payload@);
        data
    }

    /// The message framed by a length `len` and the `len` bytes after it.
    pub fn from_frame(len: u32, body: &[u8]) -> (r: GeneralMsg)
        requires
            body@.len() == len,
        ensures
            len == 0 ==> r.action == KEEP_ALIVE && r.payload@.len() == 0,
            len > 0 ==> r.action == body@[0] && r.payload@ == body@.subrange(1, len as int),
    {
        if len == 0 {
            GeneralMsg { action: KEEP_ALIVE, payload: Vec::new() }
        } else {
            let payload = vstd::slice::slice_to_vec(vstd::slice::slice_subrange(body, 1, body.len()));
            GeneralMsg { action: body[0], payload: payload }
        }
    }
}

/// The length asked for at `start` of a piece of `piece_size` bytes: `length`, cut at the
/// end of the piece.
pub open spec fn request_len(start: int, length: int, piece_size: int) -> int {
    if start + length > piece_size {
        piece_size - start
    } else {
        length
    }
}

/// A `request` message for `length` bytes at `start` of piece `piece`, cut at the end of
/// the piece.
pub fn request(piece: usize, start: usize, length: usize, piece_size: usize) -> (r: GeneralMsg)
    requires
        piece <= u32::MAX,
        start <= piece_size <= u32::MAX,
        length <= u32::MAX,
    ensures
        r.action == 6,
        r.payload@ == be32_bytes(piece as u32) + be32_bytes(start as u32) + be32_bytes(
            request_len(start as int, length as int, piece_size as int) as u32,
        ),
{
    let length = if length > piece_size - start {
        piece_size - start
    } else {
        length
    };
    let mut request_data: Vec<u8> = Vec::new();
    push_u32(&mut request_data, piece as u32);
    push_u32(&mut request_data, start as u32);
    push_u32(&mut request_data, length as u32);
    assert(request_data@ =~= be32_bytes(piece as u32) + be32_bytes(start as u32) + be32_bytes(length as u32));
    GeneralMsg { action: 6, payload: request_data }
}

/// An `interested` message.
pub fn interested() -> (r: GeneralMsg)
    ensures
        r.action == 2,
        r.payload@.len() == 0,
{
    GeneralMsg { action: 2, payload: Vec::new() }
}

/// An `unchoke` message.
pub fn unchoked() -> (r: GeneralMsg)
    ensures
        r.action == 1,
        r.payload@.len() == 0,
{
    GeneralMsg { action: 1, payload: Vec::new() }
}

/// What a peer task is to do: send a message to the peer, or signal the dispatcher.
pub enum PeerAction {
    Send(GeneralMsg),
    Signal(ClientState),
}

/// The state of one peer connection.
pub struct PeerClient {
    pub piece_length: usize,
    pub total_length: usize,
    pub acquiring_len: usize,
    pub bitfield: Bitfield,
    pub am_choked: bool,
    pub am_interested: bool,
    pub am_needing: bool,
    pub am_acquiring: bool,
    pub acquiring_piece: usize,
    pub acquire_step: usize,
    pub waiting_piece: bool,
    pub acquire_buffer: Vec<u8>,
}

/// `m` is a message with action `a` and no payload.
pub open spec fn bare(m: PeerAction, a: u8) -> bool {
    m matches PeerAction::Send(g) && g.action == a && g.payload@.len() == 0
}

/// `m` signals a close with the reason `why`.
pub open spec fn signals_close(m: PeerAction, why: Seq<char>) -> bool {
    m matches PeerAction::Signal(ClientState::Close(s)) && s@ == why
}

/// The state after a `piece` message with payload `p`: the block is copied in when it is
/// for the piece being fetched and fits the buffer.
pub open spec fn after_piece(o: PeerClient, p: Seq<u8>, n: PeerClient) -> bool {
    if p.len() >= 8 && be32(p, 0) == o.acquiring_piece && be32(p, 4) + (p.len() - 8) <= o.acquire_buffer@.len() {
        let b = be32(p, 4);
        let end = b + (p.len() - 8);
        &&& n.acquire_buffer@ == o.acquire_buffer@.subrange(0, b) + p.subrange(8, p.len() as int)
            + o.acquire_buffer@.subrange(end, o.acquire_buffer@.len() as int)
        &&& n == PeerClient {
            acquire_buffer: n.acquire_buffer,
            acquire_step: end as usize,
            waiting_piece: false,
            ..o
        }
    } else {
        n == o
    }
}

/// The state after a `have` message with payload `p`: the piece is marked when the payload
/// is one number and the bitfield covers it.
pub open spec fn after_have(o: PeerClient, p: Seq<u8>, n: PeerClient) -> bool {
    if p.len() == 4 && be32(p, 0) / 8 < o.bitfield@.len() {
        let i = be32(p, 0);
        &&& n.bitfield@ == o.bitfield@.update(i / 8, o.bitfield@[i / 8] | mask_of(i % 8))
        &&& n == PeerClient { bitfield: n.bitfield, ..o }
    } else {
        n == o
    }
}

/// The reason given for a message of unknown action `a`.
pub open spec fn unhandled_text(a: u8) -> Seq<char> {
    "Unhandled action "@ + ascii_chars(decimal(a as nat))
}

/// The size of piece `p` when pieces are `pl` bytes and the content `total` bytes: every
/// piece is whole but the last, which holds what remains.
pub open spec fn piece_size(total: int, pl: int, p: int) -> int {
    if pl == 0 {
        0
    } else if p < total / pl {
        pl
    } else if p == total / pl {
        total % pl
    } else {
        0
    }
}

/// The size of piece `p` (see `piece_size`).
pub fn piece_size_of(total: usize, pl: usize, p: usize) -> (r: usize)
    ensures
        r == piece_size(total as int, pl as int, p as int),
        r <= pl,
{
    if pl == 0 {
        0
    } else if p < total / pl {
        pl
    } else if p == total / pl {
        total % pl
    } else {
        0
    }
}

impl PeerClient {
    pub open spec fn wf(&self) -> bool {
        &&& self.acquire_buffer@.len() == self.piece_length
        &&& self.piece_length <= u32::MAX
        &&& self.acquiring_piece <= u32::MAX
        &&& self.acquiring_len <= self.piece_length
    }

    /// The state right after the handshake: choked, not interested, nothing asked for, a
    /// zeroed piece buffer and an empty bitfield for `num_pieces` pieces of a content of
    /// `total_length` bytes.
    pub fn new(piece_length: usize, num_pieces: usize, total_length: usize) -> (r: PeerClient)
        requires
            piece_length <= u32::MAX,
        ensures
            r.wf(),
            r.piece_length == piece_length,
            r.total_length == total_length,
            r.acquiring_len == 0,
            r.bitfield@.len() == (num_pieces as int + 7) / 8,
            forall|i: int| !crate::bitfield::bit_at(r.bitfield@, i),
            r.am_choked && !r.am_interested && !r.am_needing && !r.am_acquiring && !r.waiting_piece,
            r.acquiring_piece == 0 && r.acquire_step == 0,
    {
        PeerClient {
            piece_length: piece_length,
            total_length: total_length,
            acquiring_len: 0,
            bitfield: Bitfield::empty(num_pieces),
            am_choked: true,
            am_interested: false,
            am_needing: false,
            am_acquiring: false,
            acquiring_piece: 0,
            acquire_step: 0,
            waiting_piece: false,
            acquire_buffer: zeros(piece_length),
        }
    }

    /// Handles a message from the dispatcher, if one came. `Want(p)` starts fetching `p`
    /// (see `piece_size` for how much of it there is);
    /// `Close` is passed back up and ends the task; anything else ends it with "ctrl error".
    /// The result says whether the task goes on, and what to signal upstream.
    pub fn sync_ctrl(&mut self, msg: Option<ClientState>) -> (r: (bool, Vec<ClientState>))
        requires
            old(self).wf(),
        ensures
            final(self).wf(),
            match msg {
                None => r.0 && r.1@.len() == 0 && *final(self) == *old(self),
                Some(ClientState::Want(p)) => if p <= u32::MAX {
                    r.0 && r.1@.len() == 0 && *final(self) == (PeerClient {
                        acquiring_piece: p,
                        acquiring_len: piece_size(
                            old(self).total_length as int,
                            old(self).piece_length as int,
                            p as int,
                        ) as usize,
                        am_acquiring: true,
                        am_needing: false,
                        acquire_step: 0,
                        ..*old(self)
                    })
                } else {
                    !r.0 && r.1@.len() == 1 && (r.1@[0] matches ClientState::Close(s) && s@ == "ctrl error"@)
                        && *final(self) == *old(self)
                },
                Some(ClientState::Close(why)) => !r.0 && r.1@.len() == 1 && (r.1@[0] matches ClientState::Close(s) && s == why)
                    && *final(self) == *old(self),
                Some(_) => !r.0 && r.1@.len() == 1 && (r.1@[0] matches ClientState::Close(s) && s@ == "ctrl error"@)
                    && *final(self) == *old(self),
            },
    {
        let mut up: Vec<ClientState> = Vec::new();
        match msg {
            None => (true, up),
            Some(ClientState::Want(piece)) => {
                if piece > 0xffff_ffff {
                    up.push(ClientState::Close(String::from_str("ctrl error")));
                    return (false, up);
                }
                self.acquiring_piece = piece;
                self.acquiring_len = piece_size_of(self.total_length, self.piece_length, piece);
                self.am_acquiring = true;
                self.am_needing = false;
                self.acquire_step = 0;
                (true, up)
            },
            Some(ClientState::Close(reason)) => {
                up.push(ClientState::Close(reason));
                (false, up)
            },
            Some(_) => {
                up.push(ClientState::Close(String::from_str("ctrl error")));
                (false, up)
            },
        }
    }

    /// Asks for the next block when unchoked, fetching and not waiting; hands the piece up
    /// (its `acquiring_len` bytes) once all of it is in; asks the dispatcher for work when unchoked and idle.
    pub fn update_state(&mut self) -> (r: Vec<PeerAction>)
        requires
            old(self).wf(),
        ensures
            final(self).wf(),
            ({
                let o = *old(self);
                let fetch = !o.am_choked && o.am_acquiring && !o.waiting_piece;
                let ask = fetch && o.acquire_step < o.acquiring_len;
                let mid = if fetch {
                    if ask {
                        PeerClient { waiting_piece: true, ..o }
                    } else {
                        PeerClient { am_acquiring: false, ..o }
                    }
                } else {
                    o
                };
                let need = !mid.am_choked && !mid.am_needing && !mid.am_acquiring;
                let k: int = if fetch { 1 } else { 0 };
                &&& *final(self) == (if need { PeerClient { am_needing: true, ..mid } } else { mid })
                &&& r@.len() == k + if need { 1int } else { 0int }
                &&& ask ==> (r@[0] matches PeerAction::Send(m) && m.action == 6 && m.payload@ == be32_bytes(
                    o.acquiring_piece as u32,
                ) + be32_bytes(o.acquire_step as u32) + be32_bytes(
                    request_len(o.acquire_step as int, MAX_REQUEST_SIZE as int, o.acquiring_len as int) as u32,
                ))
                &&& (fetch && !ask) ==> (r@[0] matches PeerAction::Signal(ClientState::Commit(p, d)) && p
                    == o.acquiring_piece && d@ == o.acquire_buffer@.subrange(0, o.acquiring_len as int))
                &&& need ==> (r@[k] matches PeerAction::Signal(ClientState::Need(b)) && b@ == o.bitfield@)
            }),
    {
        let mut out: Vec<PeerAction> = Vec::new();
        if !self.am_choked && self.am_acquiring && !self.waiting_piece {
            if self.acquire_step < self.acquiring_len {
                out.push(
                    PeerAction::Send(request(self.acquiring_piece, self.acquire_step, MAX_REQUEST_SIZE, self.acquiring_len)),
                );
                self.waiting_piece = true;
            } else {
                let buf = vstd::slice::slice_to_vec(
                    vstd::slice::slice_subrange(self.acquire_buffer.as_slice(), 0, self.acquiring_len),
                );
                out.push(PeerAction::Signal(ClientState::Commit(self.acquiring_piece, buf)));
                self.am_acquiring = false;
            }
        }
        if !self.am_choked && !self.am_needing && !self.am_acquiring {
            out.push(PeerAction::Signal(ClientState::Need(self.bitfield.copy())));
            self.am_needing = true;
        }
        out
    }

    fn copy_block(&mut self, payload: &[u8], begin: usize)
        requires
            old(self).wf(),
            payload@.len() >= 8,
            begin + (payload@.len() - 8) <= old(self).acquire_buffer@.len(),
        ensures
            final(self).acquire_buffer@ == old(self).acquire_buffer@.subrange(0, begin as int) + payload@.subrange(
                8,
                payload@.len() as int,
            ) + old(self).acquire_buffer@.subrange(
                begin + (payload@.len() - 8),
                old(self).acquire_buffer@.len() as int,
            ),
            *final(self) == (PeerClient { acquire_buffer: final(self).acquire_buffer, ..*old(self) }),
    {
        let plen = payload.len();
        let blen = self.acquire_buffer.len();
        let n = plen - 8;
        let ghost ob = self.acquire_buffer@;
        let mut j: usize = 0;
        while j < n
            invariant
                j <= n,
                n == payload@.len() - 8,
                plen == payload@.len(),
                blen == ob.len(),
                begin + n <= ob.len(),
                self.acquire_buffer@.len() == ob.len(),
                forall|k: int| 0 <= k < ob.len() && (k < begin || k >= begin + j) ==> self.acquire_buffer@[k] == ob[k],
                forall|k: int| begin <= k < begin + j ==> self.acquire_buffer@[k] == payload@[8 + k - begin],
                *self == (PeerClient { acquire_buffer: self.acquire_buffer, ..*old(self) }),
            decreases n - j,
        {
            self.acquire_buffer.set(begin + j, payload[8 + j]);
            j = j + 1;
        }
        assert(self.acquire_buffer@ =~= ob.subrange(0, begin as int) + payload@.subrange(8, payload@.len() as int)
            + ob.subrange(begin + n, ob.len() as int));
    }

    /// Applies a message from the peer. The result says whether the task goes on, and what
    /// to do.
    pub fn process_msg(&mut self, msg: GeneralMsg) -> (r: (bool, Vec<PeerAction>))
        requires
            old(self).wf(),
        ensures
            final(self).wf(),
            ({
                let o = *old(self);
                let n = *final(self);
                let p = msg.payload@;
                if msg.action == 0 {
                    r.0 && r.1@.len() == 0 && n == (PeerClient { am_choked: true, waiting_piece: false, ..o })
                } else if msg.action == 1 {
                    r.0 && r.1@.len() == 0 && n == (PeerClient { am_choked: false, ..o })
                } else if msg.action == 2 {
                    r.0 && r.1@.len() == 0 && n == (PeerClient { am_interested: true, ..o })
                } else if msg.action == 3 {
                    r.0 && r.1@.len() == 0 && n == (PeerClient { am_interested: false, ..o })
                } else if msg.action == 4 {
                    r.0 && r.1@.len() == 0 && after_have(o, p, n)
                } else if msg.action == 5 {
                    r.0 && r.1@.len() == 2 && bare(r.1@[0], 2) && bare(r.1@[1], 1) && n.bitfield@ == p && n == (
                    PeerClient { bitfield: n.bitfield, ..o })
                } else if msg.action == 7 {
                    r.0 && r.1@.len() == 0 && after_piece(o, p, n)
                } else if msg.action == 6 || msg.action == 8 || msg.action == KEEP_ALIVE {
                    r.0 && r.1@.len() == 0 && n == o
                } else {
                    !r.0 && r.1@.len() == 1 && signals_close(r.1@[0], unhandled_text(msg.action)) && n == o
                }
            }),
    {
        let mut out: Vec<PeerAction> = Vec::new();
        let action = msg.action;
        if action == 0 {
            self.am_choked = true;
            self.waiting_piece = false;
        } else if action == 1 {
            self.am_choked = false;
        } else if action == 2 {
            self.am_interested = true;
        } else if action == 3 {
            self.am_interested = false;
        } else if action == 4 {
            if msg.payload.len() == 4 {
                let piece = read_u32_at(msg.payload.as_slice(), 0) as usize;
                if piece / 8 < self.bitfield.len() {
                    self.bitfield.set(piece);
                }
            }
        } else if action == 5 {
            self.bitfield = Bitfield::new(msg.payload);
            out.push(PeerAction::Send(interested()));
            out.push(PeerAction::Send(unchoked()));
        } else if action == 7 {
            let payload = msg.payload.as_slice();
            if payload.len() >= 8 {
                let index = read_u32_at(payload, 0) as usize;
                let begin = read_u32_at(payload, 4) as usize;
                let length = payload.len() - 8;
                if index == self.acquiring_piece && length <= self.acquire_buffer.len() && begin
                    <= self.acquire_buffer.len() - length {
                    self.copy_block(payload, begin);
                    self.acquire_step = begin + length;
                    self.waiting_piece = false;
                }
            }
        } else if action == 6 || action == 8 || action == KEEP_ALIVE {
        } else {
            let mut digits: Vec<u8> = Vec::new();
            push_decimal(&mut digits, action as u64);
            proof {
                assert(digits@ =~= decimal(action as nat));
                crate::encoder::lemma_decimal_ascii(action as nat);
            }
            let mut why = String::from_str("Unhandled action ");
            why.append(lossy_string(digits.as_slice()).as_str());
            out.push(PeerAction::Signal(ClientState::Close(why)));
            return (false, out);
        }
        (true, out)
    }
}

} // verus!
