use vstd::prelude::*;
use vstd::string::{StringExecFns, StringSliceAdditionalSpecFns};
use crate::bencode::{entry_field, usize_value, DecodeError, Entry, EntryData, MetaError};
use crate::decoder::decode;
use crate::bencode::{parse_complete, parse_value, sources_exact, Bencode, lemma_pairs_exact_index};
use crate::text::{path_text, utf8_lossy};

verus! {

/// What the SHA-1 digest of some bytes is.
pub uninterp spec fn sha1_digest(b: Seq<u8>) -> Seq<u8>;

/// Relies on `sha1::Sha1` (0.6): `Sha1::from(b).digest().bytes()` is the 20-byte SHA-1
/// digest of `b`, a function of `b` alone.
#[verifier::external_body]
pub(crate) fn sha1_of(b: &[u8]) -> (r: Vec<u8>)
    ensures
        r@ == sha1_digest(b@),
        r@.len() == 20,
{
    sha1::Sha1::from(b).digest().bytes().to_vec()
}

/// One file of a torrent.
#[derive(Clone, Debug)]
pub struct FileInfo {
    pub path: String,
    pub length: usize,
}

/// What a metainfo file says about a torrent, with this client's peer id.
#[derive(Clone, Debug)]
pub struct Info {
    pub name: String,
    pub announce: String,
    pub piece_length: usize,
    pub pieces: Vec<Vec<u8>>,
    pub files: Vec<FileInfo>,
    pub info_hash: Vec<u8>,
    pub peer_id: Vec<u8>,
}

/// The mathematical content of an `Info`.
pub struct InfoView {
    pub name: Seq<char>,
    pub announce: Seq<char>,
    pub piece_length: nat,
    pub pieces: Seq<Seq<u8>>,
    pub files: Seq<(Seq<char>, nat)>,
    pub info_hash: Seq<u8>,
    pub peer_id: Seq<u8>,
}

impl View for Info {
    type V = InfoView;

    open spec fn view(&self) -> InfoView {
        InfoView {
            name: self.name@,
            announce: self.announce@,
            piece_length: self.piece_length as nat,
            pieces: self.pieces@.map_values(|p: Vec<u8>| p@),
            files: self.files@.map_values(|f: FileInfo| (f.path@, f.length as nat)),
            info_hash: self.info_hash@,
            peer_id: self.peer_id@,
        }
    }
}

/// The text of a string entry, as names and URLs are read; any other entry has a bad type.
pub open spec fn str_text(e: Entry) -> Result<Seq<char>, MetaError> {
    match e.data {
        EntryData::Str(v) => Ok(utf8_lossy(v@)),
        _ => Err(MetaError::BadType),
    }
}

/// The text of the string under key `k` of `d`.
pub open spec fn text_field(d: EntryData, k: Seq<u8>) -> Result<Seq<char>, MetaError> {
    match entry_field(d, k) {
        Err(e) => Err(e),
        Ok(x) => str_text(x),
    }
}

/// `b` cut into consecutive 20-byte digests.
pub open spec fn digests(b: Seq<u8>) -> Seq<Seq<u8>> {
    Seq::new(b.len() / 20, |i: int| b.subrange(20 * i, 20 * i + 20))
}

/// The piece digests held by a `pieces` entry.
pub open spec fn pieces_spec(e: Entry) -> Result<Seq<Seq<u8>>, MetaError> {
    match e.data {
        EntryData::Str(v) => if v@.len() % 20 == 0 {
            Ok(digests(v@))
        } else {
            Err(MetaError::BadPieces)
        },
        _ => Err(MetaError::BadType),
    }
}

/// One element of a `files` list: its `path` (components joined with `/`) and its `length`.
pub open spec fn file_spec(f: Entry) -> Result<(Seq<char>, nat), MetaError> {
    match entry_field(f.data, "path".spec_bytes()) {
        Err(e) => Err(e),
        Ok(p) => match entry_field(f.data, "length".spec_bytes()) {
            Err(e) => Err(e),
            Ok(l) => match usize_value(l.data) {
                Err(e) => Err(e),
                Ok(n) => Ok((path_text(p), n as nat)),
            },
        },
    }
}

/// The files of a `files` list; the first element that cannot be read decides the error.
pub open spec fn files_spec(items: Seq<Entry>) -> Result<Seq<(Seq<char>, nat)>, MetaError>
    decreases items.len(),
{
    if items.len() == 0 {
        Ok(Seq::empty())
    } else {
        match files_spec(items.drop_last()) {
            Err(e) => Err(e),
            Ok(prev) => match file_spec(items.last()) {
                Err(e) => Err(e),
                Ok(f) => Ok(prev.push(f)),
            },
        }
    }
}

/// The files of an `info` dictionary: its `files` list when it has one (a bad type when that
/// is not a list), else one file named `name` of `length` bytes.
pub open spec fn info_files_spec(info: Entry, name: Seq<char>) -> Result<Seq<(Seq<char>, nat)>, MetaError> {
    match entry_field(info.data, "files".spec_bytes()) {
        Ok(f) => match f.data {
            EntryData::List(items) => files_spec(items@),
            _ => Err(MetaError::BadType),
        },
        Err(_) => match entry_field(info.data, "length".spec_bytes()) {
            Err(e) => Err(e),
            Ok(l) => match usize_value(l.data) {
                Err(e) => Err(e),
                Ok(n) => Ok(seq![(name, n as nat)]),
            },
        },
    }
}

/// What a metainfo entry says, with `peer_id` as the client's id; the first missing or
/// malformed field decides the error.
pub open spec fn prepare_spec(t: Entry, peer_id: Seq<u8>) -> Result<InfoView, MetaError> {
    match entry_field(t.data, "info".spec_bytes()) {
        Err(e) => Err(e),
        Ok(info) => match text_field(t.data, "announce".spec_bytes()) {
            Err(e) => Err(e),
            Ok(announce) => match text_field(info.data, "name".spec_bytes()) {
                Err(e) => Err(e),
                Ok(name) => match entry_field(info.data, "piece length".spec_bytes()) {
                    Err(e) => Err(e),
                    Ok(pl) => match entry_field(info.data, "pieces".spec_bytes()) {
                        Err(e) => Err(e),
                        Ok(pe) => match pieces_spec(pe) {
                            Err(e) => Err(e),
                            Ok(pieces) => match usize_value(pl.data) {
                                Err(e) => Err(e),
                                Ok(n) => if n == 0 {
                                    Err(MetaError::BadType)
                                } else {
                                    match info_files_spec(info, name) {
                                        Err(e) => Err(e),
                                        Ok(files) => Ok(
                                            InfoView {
                                                name: name,
                                                announce: announce,
                                                piece_length: n as nat,
                                                pieces: pieces,
                                                files: files,
                                                info_hash: sha1_digest(info.src@),
                                                peer_id: peer_id,
                                            },
                                        ),
                                    }
                                },
                            },
                        },
                    },
                },
            },
        },
    }
}

/// Decodes a metainfo buffer, which must hold one value and nothing after it. On success
/// `*input` is left empty; on an error it is left as it was.
pub fn from_string(input: &mut &[u8]) -> (r: Result<Entry, DecodeError>)
    ensures
        match parse_complete(old(input)@) {
            Ok(v) => r matches Ok(e) && e@ == v && e.src@ == old(input)@ && sources_exact(e, old(input)@)
                && final(input)@.len() == 0,
            Err(err) => r == Err::<Entry, DecodeError>(err) && final(input)@ == old(input)@,
        },
{
    let ghost before = input@;
    let saved: &[u8] = *input;
    match decode(input) {
        Err(e) => Err(e),
        Ok(e) => {
            assert(parse_value(before, 0) is Ok);
            let ghost n = parse_value(before, 0)->Ok_0.1;
            if input.len() == 0 {
                assert(before.subrange(n, before.len() as int).len() == 0);
                assert(n == before.len());
                assert(before.subrange(0, before.len() as int) =~= before);
                assert(parse_complete(before) == Ok::<Bencode, DecodeError>(e@));
                Ok(e)
            } else {
                *input = saved;
                assert(input@ == before);
                assert(parse_complete(before) == Err::<Bencode, DecodeError>(DecodeError::Trailing));
                Err(DecodeError::Trailing)
            }
        },
    }
}

/// The piece digests of a `pieces` entry, cut into 20-byte pieces.
fn extract_pieces(pieces: &Entry) -> (r: Result<Vec<Vec<u8>>, MetaError>)
    ensures
        match pieces_spec(*pieces) {
            Ok(d) => r matches Ok(v) && v@.map_values(|p: Vec<u8>| p@) == d,
            Err(e) => r == Err::<Vec<Vec<u8>>, MetaError>(e),
        },
{
    match &pieces.data {
        EntryData::Str(v) => {
            if v.len() % 20 != 0 {
                return Err(MetaError::BadPieces);
            }
            let total = v.len();
            let n = total / 20;
            let mut out: Vec<Vec<u8>> = Vec::new();
            let mut i: usize = 0;
            while i < n
                invariant
                    i <= n,
                    n == v@.len() / 20,
                    total == v@.len(),
                    v@.len() % 20 == 0,
                    out@.len() == i,
                    forall|j: int| 0 <= j < i ==> (#[trigger] out@[j])@ == v@.subrange(20 * j, 20 * j + 20),
                decreases n - i,
            {
                proof {
                    assert(v@.len() == n * 20);
                    assert(i * 20 + 20 <= n * 20) by (nonlinear_arith)
                        requires
                            i < n,
                    ;
                }
                let start = i * 20;
                let chunk = vstd::slice::slice_to_vec(vstd::slice::slice_subrange(v.as_slice(), start, start + 20));
                out.push(chunk);
                i = i + 1;
            }
            assert(out@.map_values(|p: Vec<u8>| p@) =~= digests(v@));
            Ok(out)
        },
        _ => Err(MetaError::BadType),
    }
}

fn text_of(e: &Entry) -> (r: Result<String, MetaError>)
    ensures
        match str_text(*e) {
            Ok(t) => r matches Ok(x) && x@ == t,
            Err(err) => r matches Err(x) && x == err,
        },
{
    match &e.data {
        EntryData::Str(v) => Ok(crate::text::lossy_string(v.as_slice())),
        _ => Err(MetaError::BadType),
    }
}

fn read_file(f: &Entry) -> (r: Result<FileInfo, MetaError>)
    ensures
        match file_spec(*f) {
            Ok(x) => r matches Ok(fi) && fi.path@ == x.0 && fi.length as nat == x.1,
            Err(e) => r == Err::<FileInfo, MetaError>(e),
        },
{
    let path = match f.field("path") {
        Err(e) => return Err(e),
        Ok(p) => p,
    };
    let length = match f.field("length") {
        Err(e) => return Err(e),
        Ok(l) => l,
    };
    let n = match length.as_usize() {
        Err(e) => return Err(e),
        Ok(n) => n,
    };
    Ok(FileInfo { path: crate::text::path_string(path), length: n })
}

proof fn lemma_files_prefix_err(items: Seq<Entry>, k: int, e: MetaError)
    requires
        0 <= k <= items.len(),
        files_spec(items.subrange(0, k)) == Err::<Seq<(Seq<char>, nat)>, MetaError>(e),
    ensures
        files_spec(items) == Err::<Seq<(Seq<char>, nat)>, MetaError>(e),
    decreases items.len(),
{
    if k == items.len() {
        assert(items.subrange(0, k) =~= items);
    } else {
        assert(items.drop_last().subrange(0, k) =~= items.subrange(0, k));
        lemma_files_prefix_err(items.drop_last(), k, e);
    }
}

fn read_files(info: &Entry, name: &String) -> (r: Result<Vec<FileInfo>, MetaError>)
    ensures
        match info_files_spec(*info, name@) {
            Ok(fs) => r matches Ok(v) && v@.map_values(|f: FileInfo| (f.path@, f.length as nat)) == fs,
            Err(e) => r == Err::<Vec<FileInfo>, MetaError>(e),
        },
{
    let mut out: Vec<FileInfo> = Vec::new();
    match info.field("files") {
        Ok(files) => {
            match &files.data {
                EntryData::List(items) => {
                    let mut i: usize = 0;
                    assert(items@.subrange(0, 0) =~= Seq::<Entry>::empty());
                    assert(out@.map_values(|f: FileInfo| (f.path@, f.length as nat)) =~= Seq::empty());
                    while i < items.len()
                        invariant
                            i <= items@.len(),
                            files.data == EntryData::List(*items),
                            entry_field(info.data, "files".spec_bytes()) == Ok::<Entry, MetaError>(*files),
                            files_spec(items@.subrange(0, i as int)) == Ok::<Seq<(Seq<char>, nat)>, MetaError>(
                                out@.map_values(|f: FileInfo| (f.path@, f.length as nat)),
                            ),
                        decreases items@.len() - i,
                    {
                        proof {
                            let sub = items@.subrange(0, i as int + 1);
                            assert(sub.drop_last() =~= items@.subrange(0, i as int));
                            assert(sub.last() == items@[i as int]);
                        }
                        match read_file(&items[i]) {
                            Err(e) => {
                                proof {
                                    lemma_files_prefix_err(items@, i + 1, e);
                                }
                                return Err(e);
                            },
                            Ok(fi) => {
                                let ghost before = out@;
                                out.push(fi);
                                assert(out@.map_values(|f: FileInfo| (f.path@, f.length as nat)) =~= before.map_values(
                                    |f: FileInfo| (f.path@, f.length as nat),
                                ).push((fi.path@, fi.length as nat)));
                            },
                        }
                        i = i + 1;
                    }
                    assert(items@.subrange(0, items@.len() as int) =~= items@);
                    Ok(out)
                },
                _ => Err(MetaError::BadType),
            }
        },
        Err(_) => {
            let length = match info.field("length") {
                Err(e) => return Err(e),
                Ok(l) => l,
            };
            let n = match length.as_usize() {
                Err(e) => return Err(e),
                Ok(n) => n,
            };
            out.push(FileInfo { path: name.clone(), length: n });
            assert(out@.map_values(|f: FileInfo| (f.path@, f.length as nat)) =~= seq![(name@, n as nat)]);
            Ok(out)
        },
    }
}

/// Reads a metainfo entry, with `peer_id` as this client's id. The info hash is the SHA-1
/// digest of the exact bytes the `info` dictionary was decoded from.
pub fn prepare_with(torrent: &Entry, peer_id: Vec<u8>) -> (r: Result<Info, MetaError>)
    ensures
        match prepare_spec(*torrent, peer_id@) {
            Ok(v) => r matches Ok(i) && i@ == v,
            Err(e) => r matches Err(x) && x == e,
        },
        r matches Ok(i) ==> i.info_hash@.len() == 20,
{
    let info = match torrent.field("info") {
        Err(e) => return Err(e),
        Ok(i) => i,
    };
    let announce = match torrent.field("announce") {
        Err(e) => return Err(e),
        Ok(a) => match text_of(a) {
            Err(e) => return Err(e),
            Ok(t) => t,
        },
    };
    let name = match info.field("name") {
        Err(e) => return Err(e),
        Ok(n) => match text_of(n) {
            Err(e) => return Err(e),
            Ok(t) => t,
        },
    };
    let piece_length = match info.field("piece length") {
        Err(e) => return Err(e),
        Ok(p) => p,
    };
    let pieces_entry = match info.field("pieces") {
        Err(e) => return Err(e),
        Ok(p) => p,
    };
    let pieces = match extract_pieces(pieces_entry) {
        Err(e) => return Err(e),
        Ok(p) => p,
    };
    let n = match piece_length.as_usize() {
        Err(e) => return Err(e),
        Ok(n) => n,
    };
    if n == 0 {
        return Err(MetaError::BadType);
    }
    let files = match read_files(info, &name) {
        Err(e) => return Err(e),
        Ok(f) => f,
    };
    let info_hash = sha1_of(info.src.as_slice());
    Ok(Info {
        name: name,
        announce: announce,
        piece_length: n,
        pieces: pieces,
        files: files,
        info_hash: info_hash,
        peer_id: peer_id,
    })
}

/// Reads a metainfo entry with a fresh peer id (see `prepare_with`).
pub fn prepare(torrent: &Entry) -> (r: Result<Info, MetaError>)
    ensures
        match r {
            Ok(i) => prepare_spec(*torrent, i.peer_id@) == Ok::<InfoView, MetaError>(i@) && i.info_hash@.len() == 20
                && i.peer_id@.len() == 20 && i.peer_id@[0] == 114u8 && i.peer_id@[1] == 84u8,
            Err(e) => forall|id: Seq<u8>| prepare_spec(*torrent, id) == Err::<InfoView, MetaError>(e),
        },
{
    let id = crate::peer_id::gen_peer_id();
    prepare_with(torrent, id)
}

/// The sum of the lengths of `files`.
pub open spec fn files_total(files: Seq<FileInfo>) -> int
    decreases files.len(),
{
    if files.len() == 0 {
        0
    } else {
        files_total(files.drop_last()) + files.last().length
    }
}

pub proof fn lemma_files_total_prefix(files: Seq<FileInfo>, k: int)
    requires
        0 <= k <= files.len(),
    ensures
        files_total(files.subrange(0, k)) <= files_total(files),
    decreases files.len(),
{
    if k < files.len() {
        assert(files.drop_last().subrange(0, k) =~= files.subrange(0, k));
        lemma_files_total_prefix(files.drop_last(), k);
    } else {
        assert(files.subrange(0, k) =~= files);
    }
}

/// Where each file goes, relative to the output directory: the name itself for a
/// single-file torrent, else each file's path under a directory of that name.
pub open spec fn layout_spec(name: Seq<char>, files: Seq<FileInfo>) -> Seq<Seq<char>> {
    if files.len() == 1 && files[0].path@ == name {
        seq![name]
    } else {
        Seq::new(files.len(), |i: int| name + "/"@ + files[i].path@)
    }
}

impl Info {
    /// The output path of each file (see `layout_spec`).
    pub fn output_paths(&self) -> (r: Vec<String>)
        ensures
            r@.map_values(|p: String| p@) == layout_spec(self.name@, self.files@),
    {
        let mut out: Vec<String> = Vec::new();
        if self.files.len() == 1 && self.files[0].path == self.name {
            out.push(self.name.clone());
            assert(out@.map_values(|p: String| p@) =~= layout_spec(self.name@, self.files@));
            return out;
        }
        let mut i: usize = 0;
        while i < self.files.len()
            invariant
                i <= self.files@.len(),
                out@.len() == i,
                forall|j: int| 0 <= j < i ==> (#[trigger] out@[j])@ == self.name@ + "/"@ + self.files@[j].path@,
            decreases self.files@.len() - i,
        {
            let mut p = self.name.clone();
            p.append("/");
            p.append(self.files[i].path.as_str());
            out.push(p);
            i = i + 1;
        }
        assert(out@.map_values(|p: String| p@) =~= layout_spec(self.name@, self.files@));
        out
    }

    /// The size of the content: the sum of the file lengths, when a `usize` can hold it.
    pub fn total_length(&self) -> (r: Option<usize>)
        ensures
            match r {
                Some(n) => n == files_total(self.files@),
                None => files_total(self.files@) > usize::MAX,
            },
    {
        let mut total: usize = 0;
        let mut i: usize = 0;
        assert(self.files@.subrange(0, 0) =~= Seq::<FileInfo>::empty());
        while i < self.files.len()
            invariant
                i <= self.files@.len(),
                total == files_total(self.files@.subrange(0, i as int)),
            decreases self.files@.len() - i,
        {
            proof {
                let sub = self.files@.subrange(0, i as int + 1);
                assert(sub.drop_last() =~= self.files@.subrange(0, i as int));
            }
            let len = self.files[i].length;
            if len > usize::MAX - total {
                proof {
                    lemma_files_total_prefix(self.files@, i as int + 1);
                }
                return None;
            }
            total = total + len;
            i = i + 1;
        }
        assert(self.files@.subrange(0, self.files@.len() as int) =~= self.files@);
        Some(total)
    }
}

/// The info hash of a torrent decoded from `b` is the SHA-1 digest of a stretch of `b`
/// that decodes to exactly the torrent's `info` dictionary.
pub proof fn lemma_info_hash_source(t: Entry, b: Seq<u8>, id: Seq<u8>)
    requires
        sources_exact(t, b),
        prepare_spec(t, id) is Ok,
    ensures
        exists|x: int, y: int|
            0 <= x <= y <= b.len() && prepare_spec(t, id)->Ok_0.info_hash == sha1_digest(b.subrange(x, y))
                && parse_value(b.subrange(x, y), 0) == Ok::<(Bencode, int), DecodeError>(
                (entry_field(t.data, "info".spec_bytes())->Ok_0@, y - x),
            ),
{
    let d = t.data->Dictionary_0;
    let c = choose|i: int| crate::bencode::first_key(d@, "info".spec_bytes(), i);
    lemma_pairs_exact_index(d@, b);
    let info = d@[c].1;
    assert(sources_exact(info, b));
    let (x, y) = choose|x: int, y: int| 0 <= x <= y <= b.len() && info.src@ == b.subrange(x, y);
    assert(info.src@.len() == y - x);
}

} // verus!
