use vstd::prelude::*;
use vstd::string::StringExecFns;
use crate::bitfield::{bit_at, Bitfield};
use crate::peer_client::ClientState;
use crate::torrent_data::{lemma_missing_monotone, missing_count, TorrentData};
use crate::tracker::{PeerAddress, TrackerState};
use crate::torrent::sha1_digest;

verus! {

/// Most peers connected at once.
pub const MAX_PEERS: usize = 50;

/// A request to the dispatcher from outside.
pub enum DownloadState {
    Close,
}

/// A connected peer as the dispatcher sees it: its address and the piece it was told to fetch.
#[derive(PartialEq, Eq, Structural, Debug, Clone, Copy)]
pub struct Peer {
    pub id: PeerAddress,
    pub locked: Option<usize>,
}

/// What the dispatcher asks its caller to do.
pub enum Dispatch {
    /// Send a message to the peer at this index.
    SendTo(usize, ClientState),
    /// Write these bytes as this piece.
    Write(usize, Vec<u8>),
}

/// Some peer in `a` has address `ip`.
pub open spec fn ip_taken(a: Seq<Peer>, ip: u32) -> bool {
    exists|i: int| 0 <= i < a.len() && (#[trigger] a[i]).id.ip == ip
}

/// Some peer in `a` other than the one at `id` is fetching piece `p`.
pub open spec fn locked_by_other(a: Seq<Peer>, p: int, id: int) -> bool {
    exists|i: int| 0 <= i < a.len() && i != id && (#[trigger] a[i]).locked == Some(p as usize)
}

/// The peers after an announce listing `peers`: each is added, in order, while fewer than
/// `MAX_PEERS` are connected and none has its address.
pub open spec fn joined(active: Seq<Peer>, peers: Seq<PeerAddress>) -> Seq<Peer>
    decreases peers.len(),
{
    if peers.len() == 0 {
        active
    } else {
        let a = joined(active, peers.drop_last());
        let p = peers.last();
        if a.len() < MAX_PEERS && !ip_taken(a, p.ip) {
            a.push(Peer { id: p, locked: None })
        } else {
            a
        }
    }
}

/// No two peers share an address.
pub open spec fn distinct_ips(a: Seq<Peer>) -> bool {
    forall|i: int, j: int| 0 <= i < j < a.len() ==> (#[trigger] a[i]).id.ip != (#[trigger] a[j]).id.ip
}

/// No two peers fetch the same piece.
pub open spec fn unique_locks(a: Seq<Peer>) -> bool {
    forall|i: int, j: int|
        0 <= i < j < a.len() && (#[trigger] a[i]).locked is Some ==> a[i].locked != (#[trigger] a[j]).locked
}

/// The dispatcher: the store and the connected peers.
pub struct Download {
    pub data: TorrentData,
    pub active_clients: Vec<Peer>,
}

/// Piece `p` may be handed to the peer at `id`, which has the pieces `field`: we lack it,
/// the peer has it, and outside the endgame no other peer is already fetching it.
pub open spec fn candidate(d: Download, field: Seq<u8>, p: int, id: int) -> bool {
    &&& 0 <= p < d.data.pieces@.len()
    &&& !bit_at(d.data.have@, p)
    &&& bit_at(field, p)
    &&& (d.remaining_spec() < MAX_PEERS || !locked_by_other(d.active_clients@, p, id))
}

/// The flagged indices after flagging `id`.
pub open spec fn flagged(old_flags: Seq<usize>, id: usize) -> Seq<usize> {
    if old_flags.contains(id) {
        old_flags
    } else {
        old_flags.push(id)
    }
}

/// The peers of `a` whose index is not in `closed`, in order.
pub open spec fn keep(a: Seq<Peer>, closed: Seq<usize>) -> Seq<Peer>
    decreases a.len(),
{
    if a.len() == 0 {
        a
    } else if closed.contains((a.len() - 1) as usize) {
        keep(a.drop_last(), closed)
    } else {
        keep(a.drop_last(), closed).push(a.last())
    }
}

/// How many pieces of `data` are missing.
pub fn remaining(data: &TorrentData) -> (r: usize)
    ensures
        r == missing_count(data.have@, data.pieces@.len() as int),
{
    data.remaining()
}

impl Download {
    pub open spec fn remaining_spec(&self) -> nat {
        missing_count(self.data.have@, self.data.pieces@.len() as int)
    }

    /// The dispatcher's invariant: at most `MAX_PEERS` peers, no address twice, and outside
    /// the endgame no piece fetched by two peers.
    pub open spec fn wf(&self) -> bool {
        &&& self.data.wf()
        &&& self.active_clients@.len() <= MAX_PEERS
        &&& distinct_ips(self.active_clients@)
        &&& self.remaining_spec() >= MAX_PEERS ==> unique_locks(self.active_clients@)
    }

    /// A dispatcher over `data` with no peer yet.
    pub fn new(data: TorrentData) -> (r: Download)
        requires
            data.wf(),
        ensures
            r.wf(),
            r.data == data,
            r.active_clients@.len() == 0,
    {
        Download { data: data, active_clients: Vec::new() }
    }

    /// Reacts to a report of the tracker: on `Announced`, connects the new peers that fit
    /// (see `joined`) and returns their addresses, to be connected by the caller; the first
    /// part of the result says whether the tracker closed and the download is to stop.
    pub fn sync_tracker(&mut self, event: &TrackerState) -> (r: (bool, Vec<PeerAddress>))
        requires
            old(self).wf(),
        ensures
            final(self).wf(),
            final(self).data == old(self).data,
            match event {
                TrackerState::Announced(peers) => !r.0 && final(self).active_clients@ == joined(
                    old(self).active_clients@,
                    peers@,
                ) && final(self).active_clients@ == old(self).active_clients@ + r.1@.map_values(
                    |p: PeerAddress| Peer { id: p, locked: None },
                ),
                TrackerState::Connected(_) => !r.0 && r.1@.len() == 0 && final(self).active_clients@
                    == old(self).active_clients@,
                TrackerState::Close(_) => r.0 && r.1@.len() == 0 && final(self).active_clients@
                    == old(self).active_clients@,
            },
    {
        let mut spawned: Vec<PeerAddress> = Vec::new();
        match event {
            TrackerState::Close(_) => (true, spawned),
            TrackerState::Connected(_) => (false, spawned),
            TrackerState::Announced(peers) => {
                let ghost start = self.active_clients@;
                let mut k: usize = 0;
                assert(peers@.subrange(0, 0) =~= Seq::<PeerAddress>::empty());
                assert(spawned@.map_values(|p: PeerAddress| Peer { id: p, locked: None }) =~= Seq::<Peer>::empty());
                assert(start + Seq::<Peer>::empty() =~= start);
                while k < peers.len()
                    invariant
                        k <= peers@.len(),
                        self.data == old(self).data,
                        start == old(self).active_clients@,
                        self.active_clients@ == joined(start, peers@.subrange(0, k as int)),
                        self.active_clients@ == start + spawned@.map_values(|p: PeerAddress| Peer { id: p, locked: None }),
                        self.wf(),
                    decreases peers@.len() - k,
                {
                    let peer = peers[k];
                    proof {
                        let sub = peers@.subrange(0, k as int + 1);
                        assert(sub.drop_last() =~= peers@.subrange(0, k as int));
                        assert(sub.last() == peer);
                    }
                    let can_add = self.active_clients.len() < MAX_PEERS;
                    let mut already_have = false;
                    let mut j: usize = 0;
                    while j < self.active_clients.len()
                        invariant
                            j <= self.active_clients@.len(),
                            already_have == exists|i: int| 0 <= i < j && (#[trigger] self.active_clients@[i]).id.ip == peer.ip,
                        decreases self.active_clients@.len() - j,
                    {
                        if self.active_clients[j].id.ip == peer.ip {
                            already_have = true;
                        }
                        j = j + 1;
                    }
                    if can_add && !already_have {
                        let ghost before = self.active_clients@;
                        let ghost sp = spawned@;
                        self.active_clients.push(Peer { id: peer, locked: None });
                        spawned.push(peer);
                        proof {
                            assert(spawned@.map_values(|p: PeerAddress| Peer { id: p, locked: None }) =~= sp.map_values(
                                |p: PeerAddress| Peer { id: p, locked: None },
                            ).push(Peer { id: peer, locked: None }));
                            assert(self.active_clients@ =~= start + spawned@.map_values(
                                |p: PeerAddress| Peer { id: p, locked: None },
                            ));
                            assert forall|a: int, b: int| 0 <= a < b < self.active_clients@.len() implies (
                            #[trigger] self.active_clients@[a]).id.ip != (#[trigger] self.active_clients@[b]).id.ip by {
                                if b == before.len() {
                                    assert(self.active_clients@[a] == before[a]);
                                } else {
                                    assert(self.active_clients@[a] == before[a]);
                                    assert(self.active_clients@[b] == before[b]);
                                }
                            }
                            if self.remaining_spec() >= MAX_PEERS {
                                assert forall|a: int, b: int|
                                    0 <= a < b < self.active_clients@.len() && (#[trigger] self.active_clients@[a]).locked is Some
                                        implies self.active_clients@[a].locked != (
                                #[trigger] self.active_clients@[b]).locked by {
                                    if b < before.len() {
                                        assert(self.active_clients@[a] == before[a]);
                                        assert(self.active_clients@[b] == before[b]);
                                    } else {
                                        assert(self.active_clients@[b].locked is None);
                                    }
                                }
                            }
                        }
                    }
                    k = k + 1;
                }
                assert(peers@.subrange(0, peers@.len() as int) =~= peers@);
                (false, spawned)
            },
        }
    }

    /// Marks `id` for removal unless it is marked already.
    pub fn flag_remove(id: usize, to_remove: &mut Vec<usize>)
        ensures
            final(to_remove)@ == flagged(old(to_remove)@, id),
    {
        let mut i: usize = 0;
        while i < to_remove.len()
            invariant
                i <= to_remove@.len(),
                to_remove@ == old(to_remove)@,
                forall|j: int| 0 <= j < i ==> to_remove@[j] != id,
            decreases to_remove@.len() - i,
        {
            if to_remove[i] == id {
                assert(old(to_remove)@.contains(id)) by {
                    assert(old(to_remove)@[i as int] == id);
                }
                return;
            }
            i = i + 1;
        }
        to_remove.push(id);
    }

    /// The first piece that may be handed to the peer at `id`, which has `field` (see
    /// `candidate`).
    pub fn find_needed_piece(&self, id: usize, field: &Bitfield) -> (r: Option<usize>)
        requires
            self.wf(),
        ensures
            match r {
                Some(p) => candidate(*self, field@, p as int, id as int) && forall|q: int| 0 <= q < p ==> !candidate(*self, field@, q, id as int),
                None => forall|q: int| !candidate(*self, field@, q, id as int),
            },
    {
        let n = self.data.pieces.len();
        let left = self.data.remaining();
        let mut x: usize = 0;
        while x < n
            invariant
                x <= n,
                n == self.data.pieces@.len(),
                left == self.remaining_spec(),
                forall|q: int| 0 <= q < x ==> !candidate(*self, field@, q, id as int),
            decreases n - x,
        {
            let i_have = self.data.have.get(x);
            let they_have = field.get(x);
            let mut locked = false;
            let mut j: usize = 0;
            while j < self.active_clients.len()
                invariant
                    j <= self.active_clients@.len(),
                    locked == exists|i: int| 0 <= i < j && i != id && (#[trigger] self.active_clients@[i]).locked == Some(x),
                decreases self.active_clients@.len() - j,
            {
                if j != id && self.active_clients[j].locked == Some(x) {
                    locked = true;
                }
                j = j + 1;
            }
            let is_unlocked = left < MAX_PEERS || !locked;
            if !i_have && they_have && is_unlocked {
                return Some(x);
            }
            x = x + 1;
        }
        None
    }

    /// Handles a message from the peer at index `id`. `Close` flags the peer for removal;
    /// `Need` hands it the first candidate piece and locks that piece to it, or tells it to
    /// close; `Commit` stores the piece when the store takes it (see `TorrentData::write`)
    /// and asks for the write; anything else tells the peer to close.
    #[verifier::rlimit(60)]
    pub fn process_client_msg(&mut self, id: usize, msg: ClientState, to_remove: &mut Vec<usize>) -> (r: Vec<Dispatch>)
        requires
            old(self).wf(),
            id < old(self).active_clients@.len(),
        ensures
            final(self).wf(),
            final(self).data.pieces == old(self).data.pieces,
            final(self).active_clients@.len() == old(self).active_clients@.len(),
            forall|i: int| 0 <= i < final(self).active_clients@.len() ==> (#[trigger] final(self).active_clients@[i]).id
                == old(self).active_clients@[i].id,
            match msg {
                ClientState::Close(_) => r@.len() == 0 && final(to_remove)@ == flagged(old(to_remove)@, id)
                    && *final(self) == *old(self),
                ClientState::Need(field) => final(to_remove)@ == old(to_remove)@ && final(self).data == old(self).data
                    && r@.len() == 1 && match old(self).find_spec(field@, id as int) {
                    Some(p) => final(self).active_clients@ == old(self).active_clients@.update(
                        id as int,
                        Peer { id: old(self).active_clients@[id as int].id, locked: Some(p) },
                    ) && (r@[0] matches Dispatch::SendTo(t, ClientState::Want(q)) && t == id && q == p),
                    None => final(self).active_clients@ == old(self).active_clients@ && (r@[0] matches Dispatch::SendTo(
                        t,
                        ClientState::Close(s),
                    ) && t == id && s@ == "Nothing of interest"@),
                },
                ClientState::Commit(piece, data) => final(to_remove)@ == old(to_remove)@ && final(self).active_clients@
                    == old(self).active_clients@ && {
                    let takes = piece < old(self).data.pieces@.len() && !bit_at(old(self).data.have@, piece as int)
                        && sha1_digest(data@) == old(self).data.pieces@[piece as int]@;
                    &&& takes ==> r@.len() == 1 && (r@[0] matches Dispatch::Write(p, d) && p == piece && d@ == data@)
                        && bit_at(final(self).data.have@, piece as int)
                    &&& !takes ==> r@.len() == 0 && final(self).data == old(self).data
                    &&& forall|j: int| j != piece ==> bit_at(final(self).data.have@, j) == bit_at(old(self).data.have@, j)
                },
                ClientState::Want(_) => final(to_remove)@ == old(to_remove)@ && *final(self) == *old(self) && r@.len() == 1
                    && (r@[0] matches Dispatch::SendTo(t, ClientState::Close(s)) && t == id && s@ == "Bad message"@),
            },
    {
        let mut out: Vec<Dispatch> = Vec::new();
        match msg {
            ClientState::Close(_) => {
                Download::flag_remove(id, to_remove);
                return out;
            },
            ClientState::Need(field) => {
                match self.assign(id, &field) {
                    Some(i) => {
                        out.push(Dispatch::SendTo(id, ClientState::Want(i)));
                    },
                    None => {
                        out.push(Dispatch::SendTo(id, ClientState::Close(String::from_str("Nothing of interest"))));
                    },
                }
            },
            ClientState::Commit(piece, data) => {
                let ghost old_have = self.data.have@;
                let ghost n = self.data.pieces@.len() as int;
                if self.data.write(piece, data.as_slice()) {
                    proof {
                        lemma_missing_monotone(old_have, self.data.have@, n);
                    }
                    out.push(Dispatch::Write(piece, data));
                }
            },
            ClientState::Want(_) => {
                out.push(Dispatch::SendTo(id, ClientState::Close(String::from_str("Bad message"))));
            },
        }
        out
    }

    /// Locks the first candidate piece for `field` to the peer at `id`, if there is one.
    #[verifier::rlimit(60)]
    fn assign(&mut self, id: usize, field: &Bitfield) -> (r: Option<usize>)
        requires
            old(self).wf(),
            id < old(self).active_clients@.len(),
        ensures
            final(self).wf(),
            final(self).data == old(self).data,
            r == old(self).find_spec(field@, id as int),
            match r {
                Some(p) => final(self).active_clients@ == old(self).active_clients@.update(
                    id as int,
                    Peer { id: old(self).active_clients@[id as int].id, locked: Some(p) },
                ),
                None => final(self).active_clients@ == old(self).active_clients@,
            },
    {
        let target = self.find_needed_piece(id, field);
        match target {
            Some(i) => {
                proof {
                    lemma_first_candidate(*self, field@, i as int, id as int);
                }
                let ghost before = self.active_clients@;
                let who = self.active_clients[id].id;
                self.active_clients.set(id, Peer { id: who, locked: Some(i) });
                proof {
                    lemma_lock_update(before, id as int, i, self.active_clients@);
                }
                Some(i)
            },
            None => {
                proof {
                    if exists|p: int| candidate(*self, field@, p, id as int) {
                        let p = choose|p: int| candidate(*self, field@, p, id as int);
                        assert(!candidate(*self, field@, p, id as int));
                    }
                }
                None
            },
        }
    }

    /// The first candidate piece for the peer at `id` having `field`, if any.
    pub open spec fn find_spec(&self, field: Seq<u8>, id: int) -> Option<usize> {
        if exists|p: int| candidate(*self, field, p, id) {
            Some(
                (choose|p: int|
                    candidate(*self, field, p, id) && forall|q: int| 0 <= q < p ==> !candidate(*self, field, q, id)) as usize,
            )
        } else {
            None
        }
    }

    /// Drops the peers whose indices are in `closed`, keeping the others in order.
    pub fn remove_flagged(&mut self, closed: &Vec<usize>)
        requires
            old(self).wf(),
        ensures
            final(self).wf(),
            final(self).data == old(self).data,
            final(self).active_clients@ == keep(old(self).active_clients@, closed@),
    {
        let ghost a = self.active_clients@;
        let mut kept: Vec<Peer> = Vec::new();
        let mut k: usize = 0;
        assert(a.subrange(0, 0) =~= Seq::<Peer>::empty());
        while k < self.active_clients.len()
            invariant
                k <= a.len(),
                a == self.active_clients@,
                self.data == old(self).data,
                a == old(self).active_clients@,
                distinct_ips(a),
                self.remaining_spec() >= MAX_PEERS ==> unique_locks(a),
                kept@ == keep(a.subrange(0, k as int), closed@),
                kept@.len() <= k,
                forall|x: int| 0 <= x < kept@.len() ==> exists|i: int| 0 <= i < k && #[trigger] kept@[x] == a[i],
                distinct_ips(kept@),
                self.remaining_spec() >= MAX_PEERS ==> unique_locks(kept@),
                forall|x: int, i: int| 0 <= x < kept@.len() && k <= i < a.len() ==> (#[trigger] kept@[x]).id.ip != (#[trigger] a[i]).id.ip,
                self.remaining_spec() >= MAX_PEERS ==> forall|x: int, i: int| 0 <= x < kept@.len() && k <= i < a.len() && (#[trigger] kept@[x]).locked is Some ==> kept@[x].locked != (#[trigger] a[i]).locked,
            decreases a.len() - k,
        {
            let mut flagged_here = false;
            let mut j: usize = 0;
            while j < closed.len()
                invariant
                    j <= closed@.len(),
                    flagged_here == exists|i: int| 0 <= i < j && closed@[i] == k,
                decreases closed@.len() - j,
            {
                if closed[j] == k {
                    flagged_here = true;
                }
                j = j + 1;
            }
            proof {
                let sub = a.subrange(0, k as int + 1);
                assert(sub.drop_last() =~= a.subrange(0, k as int));
                assert(sub.last() == a[k as int]);
                assert(sub.len() - 1 == k);
                if flagged_here {
                    let w = choose|i: int| 0 <= i < closed@.len() && closed@[i] == k;
                    assert(closed@.contains(k));
                } else {
                    assert(!closed@.contains(k));
                }
            }
            if !flagged_here {
                let ghost kb = kept@;
                let p = self.active_clients[k];
                kept.push(p);
                proof {
                    assert forall|x: int| 0 <= x < kept@.len() implies exists|i: int| 0 <= i < k + 1 && #[trigger] kept@[x] == a[i] by {
                        if x < kb.len() {
                            assert(kept@[x] == kb[x]);
                        } else {
                            assert(kept@[x] == a[k as int]);
                        }
                    }
                    assert forall|x: int, y: int| 0 <= x < y < kept@.len() implies (#[trigger] kept@[x]).id.ip != (#[trigger] kept@[y]).id.ip by {
                        if y < kb.len() {
                            assert(kept@[x] == kb[x] && kept@[y] == kb[y]);
                        } else {
                            assert(kept@[x] == kb[x]);
                            assert(kept@[y] == a[k as int]);
                        }
                    }
                    if self.remaining_spec() >= MAX_PEERS {
                        assert forall|x: int, y: int|
                            0 <= x < y < kept@.len() && (#[trigger] kept@[x]).locked is Some implies kept@[x].locked != (
                        #[trigger] kept@[y]).locked by {
                            if y < kb.len() {
                                assert(kept@[x] == kb[x] && kept@[y] == kb[y]);
                            } else {
                                assert(kept@[x] == kb[x]);
                                assert(kept@[y] == a[k as int]);
                            }
                        }
                    }
                    assert forall|x: int, i: int| 0 <= x < kept@.len() && k + 1 <= i < a.len() implies (
                    #[trigger] kept@[x]).id.ip != (#[trigger] a[i]).id.ip by {
                        if x < kb.len() {
                            assert(kept@[x] == kb[x]);
                        } else {
                            assert(kept@[x] == a[k as int]);
                        }
                    }
                    if self.remaining_spec() >= MAX_PEERS {
                        assert forall|x: int, i: int|
                            0 <= x < kept@.len() && k + 1 <= i < a.len() && (#[trigger] kept@[x]).locked is Some
                                implies kept@[x].locked != (#[trigger] a[i]).locked by {
                            if x < kb.len() {
                                assert(kept@[x] == kb[x]);
                            } else {
                                assert(kept@[x] == a[k as int]);
                            }
                        }
                    }
                }
            }
            k = k + 1;
        }
        assert(a.subrange(0, a.len() as int) =~= a);
        self.active_clients = kept;
    }

    /// Bytes present and bytes in all, in MiB, for the progress report.
    pub fn update_data_state(&self) -> (r: (u64, u64))
        requires
            self.wf(),
            self.data.pieces@.len() * self.data.piece_size <= u64::MAX,
        ensures
            r.0 == (self.data.pieces@.len() - self.remaining_spec()) * self.data.piece_size / 1024 / 1024,
            r.1 == self.data.pieces@.len() * self.data.piece_size / 1024 / 1024,
    {
        let total = self.data.pieces.len() as u64;
        let left = self.data.remaining() as u64;
        proof {
            lemma_missing_le(self.data.have@, self.data.pieces@.len() as int);
        }
        let size = self.data.piece_size as u64;
        let done = total - left;
        proof {
            assert(done * size <= total * size) by (nonlinear_arith)
                requires
                    done <= total,
            ;
        }
        ((done * size) / 1024 / 1024, (total * size) / 1024 / 1024)
    }
}

proof fn lemma_first_candidate(d: Download, field: Seq<u8>, p: int, id: int)
    requires
        candidate(d, field, p, id),
        forall|q: int| 0 <= q < p ==> !candidate(d, field, q, id),
    ensures
        d.find_spec(field, id) == Some(p as usize),
{
    let c = choose|c: int| candidate(d, field, c, id) && forall|q: int| 0 <= q < c ==> !candidate(d, field, q, id);
    assert(c == p);
}

proof fn lemma_lock_update(before: Seq<Peer>, id: int, i: usize, after: Seq<Peer>)
    requires
        0 <= id < before.len(),
        after == before.update(id, Peer { id: before[id].id, locked: Some(i) }),
        distinct_ips(before),
    ensures
        distinct_ips(after),
        unique_locks(before) && !locked_by_other(before, i as int, id) ==> unique_locks(after),
{
    assert forall|a: int, b: int| 0 <= a < b < after.len() implies (#[trigger] after[a]).id.ip != (#[trigger] after[b]).id.ip by {
        assert(after[a].id == before[a].id);
        assert(after[b].id == before[b].id);
    }
    if unique_locks(before) && !locked_by_other(before, i as int, id) {
        assert forall|a: int, b: int| 0 <= a < b < after.len() && (#[trigger] after[a]).locked is Some implies after[a].locked
            != (#[trigger] after[b]).locked by {
            if a == id {
                assert(after[b] == before[b]);
                assert(before[b].locked != Some(i));
            } else if b == id {
                assert(after[a] == before[a]);
                assert(before[a].locked != Some(i));
            } else {
                assert(after[a] == before[a]);
                assert(after[b] == before[b]);
            }
        }
    }
}

proof fn lemma_missing_le(have: Seq<u8>, n: int)
    requires
        n >= 0,
    ensures
        missing_count(have, n) <= n,
    decreases n,
{
    if n > 0 {
        lemma_missing_le(have, n - 1);
    }
}

} // verus!
