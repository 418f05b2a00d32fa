use vstd::prelude::*;
use vstd::string::StringSliceAdditionalSpecFns;

verus! {

/// The mathematical value of a bencoded entry.
pub enum Bencode {
    Str(Seq<u8>),
    Int(int),
    List(Seq<Bencode>),
    Dict(Seq<(Seq<u8>, Bencode)>),
}

/// Why a buffer does not hold a bencoded value.
#[derive(PartialEq, Eq, Structural, Debug, Clone, Copy)]
pub enum DecodeError {
    /// The input ended in the middle of a value.
    Truncated,
    /// An integer or a length is not a decimal number in range.
    BadNumber,
    /// A dictionary key is not a byte string.
    BadKey,
    /// Bytes remain after the outermost value.
    Trailing,
}

/// A decoded entry together with the exact bytes it was decoded from.
#[derive(Debug)]
pub struct Entry {
    pub data: EntryData,
    pub src: Vec<u8>,
}

/// The payload of a decoded entry. Decoding keeps dictionary keys unique and in strictly
/// ascending byte order at every level (see `canonical`), which encoding asks for.
#[derive(Debug)]
pub enum EntryData {
    Str(Vec<u8>),
    Int(i64),
    List(Vec<Entry>),
    Dictionary(Vec<(Vec<u8>, Entry)>),
}

pub open spec fn data_value(d: EntryData) -> Bencode
    decreases d,
{
    match d {
        EntryData::Str(v) => Bencode::Str(v@),
        EntryData::Int(i) => Bencode::Int(i as int),
        EntryData::List(v) => Bencode::List(entries_value(v@)),
        EntryData::Dictionary(v) => Bencode::Dict(pairs_value(v@)),
    }
}

pub open spec fn entries_value(s: Seq<Entry>) -> Seq<Bencode>
    decreases s,
{
    if s.len() == 0 {
        Seq::empty()
    } else {
        entries_value(s.drop_last()).push(data_value(s.last().data))
    }
}

pub open spec fn pairs_value(s: Seq<(Vec<u8>, Entry)>) -> Seq<(Seq<u8>, Bencode)>
    decreases s,
{
    if s.len() == 0 {
        Seq::empty()
    } else {
        pairs_value(s.drop_last()).push((s.last().0@, data_value(s.last().1.data)))
    }
}

impl View for Entry {
    type V = Bencode;

    open spec fn view(&self) -> Bencode {
        data_value(self.data)
    }
}

impl View for EntryData {
    type V = Bencode;

    open spec fn view(&self) -> Bencode {
        data_value(*self)
    }
}

pub proof fn lemma_entries_len(s: Seq<Entry>)
    ensures
        entries_value(s).len() == s.len(),
    decreases s.len(),
{
    if s.len() > 0 {
        lemma_entries_len(s.drop_last());
    }
}

pub proof fn lemma_entries_value_index(s: Seq<Entry>)
    ensures
        entries_value(s).len() == s.len(),
        forall|i: int| 0 <= i < s.len() ==> #[trigger] entries_value(s)[i] == s[i]@,
    decreases s.len(),
{
    if s.len() > 0 {
        lemma_entries_value_index(s.drop_last());
    }
}

pub proof fn lemma_pairs_value_index(s: Seq<(Vec<u8>, Entry)>)
    ensures
        pairs_value(s).len() == s.len(),
        forall|i: int| 0 <= i < s.len() ==> #[trigger] pairs_value(s)[i] == (s[i].0@, s[i].1@),
    decreases s.len(),
{
    if s.len() > 0 {
        lemma_pairs_value_index(s.drop_last());
    }
}

// ---------------------------------------------------------------------------
// Grammar of the byte format.

pub open spec fn is_digit(c: u8) -> bool {
    48 <= c && c <= 57
}

pub open spec fn all_digits(t: Seq<u8>) -> bool {
    forall|i: int| 0 <= i < t.len() ==> is_digit(#[trigger] t[i])
}

/// The number written by a run of decimal digits.
pub open spec fn digits_value(t: Seq<u8>) -> int
    decreases t.len(),
{
    if t.len() == 0 {
        0
    } else {
        digits_value(t.drop_last()) * 10 + (t.last() - 48)
    }
}

/// The signed 64-bit integer written by `t`: an optional `-`, then one or more decimal digits.
pub open spec fn number_value(t: Seq<u8>) -> Option<int> {
    if t.len() > 0 && t[0] == 45u8 {
        let d = t.drop_first();
        if d.len() > 0 && all_digits(d) && digits_value(d) <= 0x8000_0000_0000_0000 {
            Some(-digits_value(d))
        } else {
            None
        }
    } else if t.len() > 0 && all_digits(t) && digits_value(t) <= 0x7fff_ffff_ffff_ffff {
        Some(digits_value(t))
    } else {
        None
    }
}

/// The first index at or after `pos` that holds `c`.
pub open spec fn find_byte(s: Seq<u8>, pos: int, c: u8) -> Option<int>
    decreases s.len() - pos,
{
    if pos < 0 || pos >= s.len() {
        None
    } else if s[pos] == c {
        Some(pos)
    } else {
        find_byte(s, pos + 1, c)
    }
}

/// Strict byte-wise lexicographic order.
pub open spec fn lex_lt(a: Seq<u8>, b: Seq<u8>) -> bool
    decreases a.len(),
{
    if a.len() == 0 {
        b.len() > 0
    } else if b.len() == 0 {
        false
    } else if a[0] != b[0] {
        a[0] < b[0]
    } else {
        lex_lt(a.drop_first(), b.drop_first())
    }
}

/// Adds `(k, v)` to a dictionary kept in ascending key order, replacing an equal key.
pub open spec fn dict_insert(d: Seq<(Seq<u8>, Bencode)>, k: Seq<u8>, v: Bencode) -> Seq<(Seq<u8>, Bencode)>
    decreases d.len(),
{
    if d.len() == 0 {
        seq![(k, v)]
    } else if lex_lt(d.last().0, k) {
        d.push((k, v))
    } else if d.last().0 == k {
        d.drop_last().push((k, v))
    } else {
        dict_insert(d.drop_last(), k, v).push(d.last())
    }
}

/// `<length>:<bytes>` at `pos`: the bytes and the position after them.
pub open spec fn parse_str(s: Seq<u8>, pos: int) -> Result<(Seq<u8>, int), DecodeError> {
    match find_byte(s, pos, 58u8) {
        None => Err(DecodeError::Truncated),
        Some(q) => match number_value(s.subrange(pos, q)) {
            None => Err(DecodeError::BadNumber),
            Some(n) => if n < 0 {
                Err(DecodeError::BadNumber)
            } else if q + 1 + n > s.len() {
                Err(DecodeError::Truncated)
            } else {
                Ok((s.subrange(q + 1, q + 1 + n), q + 1 + n))
            },
        },
    }
}

/// `i<number>e` at `pos`, where `s[pos]` is `i`.
pub open spec fn parse_int(s: Seq<u8>, pos: int) -> Result<(Bencode, int), DecodeError> {
    match find_byte(s, pos + 1, 101u8) {
        None => Err(DecodeError::Truncated),
        Some(q) => match number_value(s.subrange(pos + 1, q)) {
            None => Err(DecodeError::BadNumber),
            Some(n) => Ok((Bencode::Int(n), q + 1)),
        },
    }
}

/// The value that starts at `pos`, and the position just after it.
pub open spec fn parse_value(s: Seq<u8>, pos: int) -> Result<(Bencode, int), DecodeError>
    decreases s.len() - pos, 0int,
{
    if pos < 0 || pos >= s.len() {
        Err(DecodeError::Truncated)
    } else if s[pos] == 105u8 {
        parse_int(s, pos)
    } else if s[pos] == 108u8 {
        parse_list(s, pos + 1, Seq::empty())
    } else if s[pos] == 100u8 {
        parse_dict(s, pos + 1, Seq::empty())
    } else {
        match parse_str(s, pos) {
            Ok((b, q)) => Ok((Bencode::Str(b), q)),
            Err(e) => Err(e),
        }
    }
}

/// The rest of a list from `pos`, after the items `acc`.
pub open spec fn parse_list(s: Seq<u8>, pos: int, acc: Seq<Bencode>) -> Result<(Bencode, int), DecodeError>
    decreases s.len() - pos, 1int,
{
    if pos < 0 || pos >= s.len() {
        Err(DecodeError::Truncated)
    } else if s[pos] == 101u8 {
        Ok((Bencode::List(acc), pos + 1))
    } else {
        match parse_value(s, pos) {
            Err(e) => Err(e),
            Ok((v, q)) => if q <= pos || q > s.len() {
                Err(DecodeError::Truncated)
            } else {
                parse_list(s, q, acc.push(v))
            },
        }
    }
}

/// The rest of a dictionary from `pos`, after the pairs `acc`.
pub open spec fn parse_dict(s: Seq<u8>, pos: int, acc: Seq<(Seq<u8>, Bencode)>) -> Result<(Bencode, int), DecodeError>
    decreases s.len() - pos, 1int,
{
    if pos < 0 || pos >= s.len() {
        Err(DecodeError::Truncated)
    } else if s[pos] == 101u8 {
        Ok((Bencode::Dict(acc), pos + 1))
    } else if !is_digit(s[pos]) {
        Err(DecodeError::BadKey)
    } else {
        match parse_str(s, pos) {
            Err(e) => Err(e),
            Ok((k, q)) => if q <= pos || q > s.len() {
                Err(DecodeError::Truncated)
            } else {
                match parse_value(s, q) {
                    Err(e) => Err(e),
                    Ok((v, r)) => if r <= q || r > s.len() {
                        Err(DecodeError::Truncated)
                    } else {
                        parse_dict(s, r, dict_insert(acc, k, v))
                    },
                }
            },
        }
    }
}

/// The whole of `s` is one value.
pub open spec fn parse_complete(s: Seq<u8>) -> Result<Bencode, DecodeError> {
    match parse_value(s, 0) {
        Err(e) => Err(e),
        Ok((v, n)) => if n == s.len() {
            Ok(v)
        } else {
            Err(DecodeError::Trailing)
        },
    }
}


/// Every entry in `e`, at any depth, holds a stretch of `s`, and that stretch decodes to
/// exactly the entry's value.
pub open spec fn sources_exact(e: Entry, s: Seq<u8>) -> bool
    decreases e, 1int,
{
    &&& exists|a: int, b: int| 0 <= a <= b <= s.len() && e.src@ == s.subrange(a, b)
    &&& parse_value(e.src@, 0) == Ok::<(Bencode, int), DecodeError>((e@, e.src@.len() as int))
    &&& match e.data {
        EntryData::List(v) => items_exact(v@, s),
        EntryData::Dictionary(d) => pairs_exact(d@, s),
        _ => true,
    }
}

pub open spec fn items_exact(v: Seq<Entry>, s: Seq<u8>) -> bool
    decreases v, 0int,
{
    v.len() == 0 || (items_exact(v.drop_last(), s) && sources_exact(v.last(), s))
}

pub open spec fn pairs_exact(d: Seq<(Vec<u8>, Entry)>, s: Seq<u8>) -> bool
    decreases d, 0int,
{
    d.len() == 0 || (pairs_exact(d.drop_last(), s) && sources_exact(d.last().1, s))
}

pub proof fn lemma_pairs_exact_index(d: Seq<(Vec<u8>, Entry)>, s: Seq<u8>)
    requires
        pairs_exact(d, s),
    ensures
        forall|i: int| 0 <= i < d.len() ==> sources_exact(#[trigger] d[i].1, s),
    decreases d.len(),
{
    if d.len() > 0 {
        lemma_pairs_exact_index(d.drop_last(), s);
        assert forall|i: int| 0 <= i < d.len() implies sources_exact(#[trigger] d[i].1, s) by {
            if i < d.len() - 1 {
                assert(d[i] == d.drop_last()[i]);
            }
        }
    }
}

// ---------------------------------------------------------------------------
// Reading entries.

/// Why a field or a number could not be read out of an entry.
#[derive(PartialEq, Eq, Structural, Debug, Clone, Copy)]
pub enum MetaError {
    /// The dictionary has no such key.
    Missing,
    /// The piece digests are not a whole number of 20-byte digests.
    BadPieces,
    /// The entry is not a dictionary.
    NotDictionary,
    /// The entry has another type than the one asked for.
    BadType,
}

/// `i` is the first position of `d` whose key is `k`.
pub open spec fn first_key(d: Seq<(Vec<u8>, Entry)>, k: Seq<u8>, i: int) -> bool {
    0 <= i < d.len() && d[i].0@ == k && forall|j: int| 0 <= j < i ==> d[j].0@ != k
}

/// The value under key `k` when `data` is a dictionary: the first pair with that key.
pub open spec fn entry_field(data: EntryData, k: Seq<u8>) -> Result<Entry, MetaError> {
    match data {
        EntryData::Dictionary(d) => if exists|i: int| first_key(d@, k, i) {
            Ok(d@[choose|i: int| first_key(d@, k, i)].1)
        } else {
            Err(MetaError::Missing)
        },
        _ => Err(MetaError::NotDictionary),
    }
}

/// The integer held by `data`, when it is one and a `usize` can hold it.
pub open spec fn usize_value(data: EntryData) -> Result<usize, MetaError> {
    match data {
        EntryData::Int(v) => if 0 <= v && v <= usize::MAX {
            Ok(v as usize)
        } else {
            Err(MetaError::BadType)
        },
        _ => Err(MetaError::BadType),
    }
}

proof fn lemma_entry_field_at(data: EntryData, k: Seq<u8>, i: int)
    requires
        data is Dictionary,
        first_key(data->Dictionary_0@, k, i),
    ensures
        entry_field(data, k) == Ok::<Entry, MetaError>(data->Dictionary_0@[i].1),
{
    let d = data->Dictionary_0;
    let c = choose|i: int| first_key(d@, k, i);
    assert(c == i) by {
        if c < i {
            assert(d@[c].0@ != k);
        } else if c > i {
            assert(d@[i].0@ != k);
        }
    }
}

pub(crate) fn bytes_equal(a: &[u8], b: &[u8]) -> (r: bool)
    ensures
        r == (a@ == b@),
{
    if a.len() != b.len() {
        return false;
    }
    let mut i: usize = 0;
    while i < a.len()
        invariant
            i <= a@.len(),
            a@.len() == b@.len(),
            forall|j: int| 0 <= j < i ==> a@[j] == b@[j],
        decreases a@.len() - i,
    {
        if a[i] != b[i] {
            return false;
        }
        i = i + 1;
    }
    assert(a@ =~= b@);
    true
}

impl EntryData {
    /// The value under key `field`, when this is a dictionary.
    pub fn field(&self, field: &str) -> (r: Result<&Entry, MetaError>)
        ensures
            match r {
                Ok(e) => entry_field(*self, field.spec_bytes()) == Ok::<Entry, MetaError>(*e),
                Err(err) => entry_field(*self, field.spec_bytes()) == Err::<Entry, MetaError>(err),
            },
    {
        match self {
            EntryData::Dictionary(d) => {
                let key = field.as_bytes();
                let mut i: usize = 0;
                while i < d.len()
                    invariant
                        i <= d@.len(),
                        *self == EntryData::Dictionary(*d),
                        key@ == field.spec_bytes(),
                        forall|j: int| 0 <= j < i ==> d@[j].0@ != key@,
                    decreases d@.len() - i,
                {
                    if bytes_equal(d[i].0.as_slice(), key) {
                        assert(first_key(d@, key@, i as int));
                        proof {
                            lemma_entry_field_at(*self, key@, i as int);
                        }
                        return Ok(&d[i].1);
                    }
                    i = i + 1;
                }
                assert(!exists|c: int| first_key(d@, key@, c));
                Err(MetaError::Missing)
            },
            _ => Err(MetaError::NotDictionary),
        }
    }

    /// The integer held, when it is one and a `usize` can hold it.
    pub fn as_usize(&self) -> (r: Result<usize, MetaError>)
        ensures
            r == usize_value(*self),
    {
        match self {
            EntryData::Int(v) => {
                if *v >= 0 && (*v as u64) <= (usize::MAX as u64) {
                    Ok(*v as usize)
                } else {
                    Err(MetaError::BadType)
                }
            },
            _ => Err(MetaError::BadType),
        }
    }
}

impl Entry {
    /// An entry for `data` whose source is `start_input` without its last `end` bytes.
    pub fn from(data: EntryData, start_input: &[u8], end: usize) -> (r: Entry)
        requires
            end <= start_input@.len(),
        ensures
            r.data == data,
            r.src@ == start_input@.subrange(0, start_input@.len() - end),
    {
        let n = start_input.len() - end;
        Entry { data: data, src: vstd::slice::slice_to_vec(vstd::slice::slice_subrange(start_input, 0, n)) }
    }

    /// The value under key `field`, when this is a dictionary.
    pub fn field(&self, field: &str) -> (r: Result<&Entry, MetaError>)
        ensures
            match r {
                Ok(e) => entry_field(self.data, field.spec_bytes()) == Ok::<Entry, MetaError>(*e),
                Err(err) => entry_field(self.data, field.spec_bytes()) == Err::<Entry, MetaError>(err),
            },
    {
        self.data.field(field)
    }

    /// The integer held, when it is one and a `usize` can hold it.
    pub fn as_usize(&self) -> (r: Result<usize, MetaError>)
        ensures
            r == usize_value(self.data),
    {
        self.data.as_usize()
    }
}

} // verus!
