use vstd::prelude::*;
use crate::bitfield::{bit_at, Bitfield};
use crate::torrent::{files_total, lemma_files_total_prefix, sha1_digest, FileInfo};

verus! {

/// `size` zero bytes.
pub fn zeros(size: usize) -> (r: Vec<u8>)
    ensures
        r@ == Seq::new(size as nat, |i: int| 0u8),
{
    let mut v: Vec<u8> = Vec::new();
    let mut i: usize = 0;
    while i < size
        invariant
            i <= size,
            v@ == Seq::new(i as nat, |j: int| 0u8),
        decreases size - i,
    {
        v.push(0u8);
        i = i + 1;
        assert(v@ =~= Seq::new(i as nat, |j: int| 0u8));
    }
    v
}

/// How many of the pieces `0..n` are not marked in `have`.
pub open spec fn missing_count(have: Seq<u8>, n: int) -> nat
    decreases n,
{
    if n <= 0 {
        0
    } else {
        missing_count(have, n - 1) + if bit_at(have, n - 1) { 0nat } else { 1nat }
    }
}

/// Marking more pieces never raises the count of missing ones.
pub proof fn lemma_missing_monotone(a: Seq<u8>, b: Seq<u8>, n: int)
    requires
        forall|i: int| 0 <= i < n && bit_at(a, i) ==> bit_at(b, i),
    ensures
        missing_count(b, n) <= missing_count(a, n),
    decreases n,
{
    if n > 0 {
        lemma_missing_monotone(a, b, n - 1);
    }
}

/// The download's store: where the data goes, which pieces are present, the digest of each
/// piece and the piece size. The file itself is written by the caller.
pub struct TorrentData {
    pub data_path: String,
    pub have: Bitfield,
    pub pieces: Vec<Vec<u8>>,
    pub piece_size: usize,
}

impl TorrentData {
    /// `have` covers every piece.
    pub open spec fn wf(&self) -> bool {
        self.have@.len() == (self.pieces@.len() + 7) / 8
    }

    /// A store with no piece present, for `pieces` digests of `piece_size`-byte pieces.
    pub fn allocate(name: String, pieces: Vec<Vec<u8>>, piece_size: usize) -> (r: TorrentData)
        ensures
            r.wf(),
            r.data_path == name,
            r.pieces == pieces,
            r.piece_size == piece_size,
            forall|i: int| !bit_at(r.have@, i),
    {
        let have = Bitfield::empty(pieces.len());
        TorrentData { data_path: name, have: have, pieces: pieces, piece_size: piece_size }
    }

    /// Where piece `piece` starts in the file.
    pub fn offset(&self, piece: usize) -> (r: u64)
        requires
            piece as int * self.piece_size as int <= u64::MAX,
        ensures
            r == piece as int * self.piece_size as int,
    {
        (piece as u64) * (self.piece_size as u64)
    }

    /// How many pieces are not present yet.
    pub fn remaining(&self) -> (r: usize)
        ensures
            r == missing_count(self.have@, self.pieces@.len() as int),
    {
        let n = self.pieces.len();
        let mut count: usize = 0;
        let mut i: usize = 0;
        while i < n
            invariant
                i <= n,
                n == self.pieces@.len(),
                count == missing_count(self.have@, i as int),
                count <= i,
            decreases n - i,
        {
            if !self.have.get(i) {
                count = count + 1;
            }
            i = i + 1;
        }
        count
    }

    /// Takes piece `piece` whose contents have the SHA-1 digest `digest` when it is a piece
    /// of this torrent, not present yet, and `digest` is its expected digest; marks it
    /// present and says whether the caller is to write it at `offset(piece)`.
    pub fn accept_digest(&mut self, piece: usize, digest: &[u8]) -> (r: bool)
        requires
            old(self).wf(),
        ensures
            final(self).wf(),
            final(self).pieces == old(self).pieces,
            final(self).piece_size == old(self).piece_size,
            final(self).data_path == old(self).data_path,
            r == (piece < old(self).pieces@.len() && !bit_at(old(self).have@, piece as int)
                && digest@ == old(self).pieces@[piece as int]@),
            r ==> bit_at(final(self).have@, piece as int),
            forall|j: int| j != piece ==> bit_at(final(self).have@, j) == bit_at(old(self).have@, j),
            !r ==> *final(self) == *old(self),
    {
        if piece >= self.pieces.len() || self.have.get(piece) {
            return false;
        }
        if !crate::bencode::bytes_equal(digest, self.pieces[piece].as_slice()) {
            return false;
        }
        self.have.set(piece);
        true
    }

    /// Takes piece `piece` with contents `data` when `accept_digest` takes its digest.
    pub fn write(&mut self, piece: usize, data: &[u8]) -> (r: bool)
        requires
            old(self).wf(),
        ensures
            final(self).wf(),
            final(self).pieces == old(self).pieces,
            final(self).piece_size == old(self).piece_size,
            final(self).data_path == old(self).data_path,
            r == (piece < old(self).pieces@.len() && !bit_at(old(self).have@, piece as int)
                && sha1_digest(data@) == old(self).pieces@[piece as int]@),
            r ==> bit_at(final(self).have@, piece as int),
            forall|j: int| j != piece ==> bit_at(final(self).have@, j) == bit_at(old(self).have@, j),
            !r ==> *final(self) == *old(self),
    {
        let digest = crate::torrent::sha1_of(data);
        self.accept_digest(piece, digest.as_slice())
    }
}

/// A stretch of a piece that falls in one file: bytes `start..end` of the piece go to
/// `file` at `file_offset`.
#[derive(PartialEq, Eq, Structural, Debug, Clone, Copy)]
pub struct FileSegment {
    pub file: usize,
    pub file_offset: usize,
    pub start: usize,
    pub end: usize,
}

/// Where file `i` starts in the content.
pub open spec fn file_start(files: Seq<FileInfo>, i: int) -> int {
    files_total(files.subrange(0, i))
}

/// The part of `len` bytes at content offset `offset` that falls in file `i`, if any.
pub open spec fn overlap(files: Seq<FileInfo>, i: int, offset: int, len: int) -> Option<FileSegment> {
    let s = file_start(files, i);
    let e = s + files[i].length;
    let lo = if offset > s { offset } else { s };
    let hi = if offset + len < e { offset + len } else { e };
    if lo < hi {
        Some(FileSegment { file: i as usize, file_offset: (lo - s) as usize, start: (lo - offset) as usize, end: (hi - offset) as usize })
    } else {
        None
    }
}

/// The parts, in file order, of `len` bytes at content offset `offset` that fall in the
/// first `k` files.
pub open spec fn segments(files: Seq<FileInfo>, k: int, offset: int, len: int) -> Seq<FileSegment>
    decreases k,
{
    if k <= 0 {
        Seq::empty()
    } else {
        segments(files, k - 1, offset, len) + match overlap(files, k - 1, offset, len) {
            Some(x) => seq![x],
            None => Seq::empty(),
        }
    }
}

/// Splits `len` bytes at content offset `offset` over the files laid end to end.
pub fn file_segments(files: &Vec<FileInfo>, offset: usize, len: usize) -> (r: Vec<FileSegment>)
    requires
        files_total(files@) <= usize::MAX,
        offset + len <= usize::MAX,
    ensures
        r@ == segments(files@, files@.len() as int, offset as int, len as int),
{
    let mut out: Vec<FileSegment> = Vec::new();
    let mut start: usize = 0;
    let mut i: usize = 0;
    let end_all = offset + len;
    assert(files@.subrange(0, 0) =~= Seq::<FileInfo>::empty());
    while i < files.len()
        invariant
            i <= files@.len(),
            files_total(files@) <= usize::MAX,
            end_all == offset + len,
            start == file_start(files@, i as int),
            out@ == segments(files@, i as int, offset as int, len as int),
        decreases files@.len() - i,
    {
        proof {
            let sub = files@.subrange(0, i as int + 1);
            assert(sub.drop_last() =~= files@.subrange(0, i as int));
            assert(sub.last() == files@[i as int]);
            lemma_files_total_prefix(files@, i as int + 1);
        }
        let fend = start + files[i].length;
        let lo = if offset > start { offset } else { start };
        let hi = if end_all < fend { end_all } else { fend };
        if lo < hi {
            out.push(FileSegment { file: i, file_offset: lo - start, start: lo - offset, end: hi - offset });
        }
        start = fend;
        i = i + 1;
        assert(out@ =~= segments(files@, i as int, offset as int, len as int));
    }
    out
}

} // verus!
