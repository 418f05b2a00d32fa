use vstd::prelude::*;
use vstd::slice::{slice_subrange, slice_to_vec};
use crate::encoder::{canonical, items_canonical, pairs_canonical};
use crate::bencode::{
    all_digits, dict_insert, digits_value, entries_value, find_byte, is_digit, lex_lt,
    lemma_pairs_value_index, number_value, pairs_value, parse_complete, parse_dict, parse_list,
    parse_str, parse_value, Bencode, DecodeError, Entry, EntryData, sources_exact, items_exact,
    pairs_exact, parse_int,
};

verus! {

/// First index at or after `pos` that holds `c`.
fn find_byte_from(s: &[u8], pos: usize, c: u8) -> (r: Option<usize>)
    requires
        pos <= s@.len(),
    ensures
        match r {
            Some(q) => find_byte(s@, pos as int, c) == Some(q as int) && pos <= q < s@.len(),
            None => find_byte(s@, pos as int, c) is None,
        },
{
    let mut i: usize = pos;
    while i < s.len()
        invariant
            pos <= i <= s@.len(),
            find_byte(s@, pos as int, c) == find_byte(s@, i as int, c),
        decreases s@.len() - i,
    {
        if s[i] == c {
            return Some(i);
        }
        i = i + 1;
    }
    None
}

proof fn lemma_digits_step(s: Seq<u8>, a: int, i: int)
    requires
        0 <= a <= i < s.len(),
    ensures
        digits_value(s.subrange(a, i + 1)) == digits_value(s.subrange(a, i)) * 10 + (s[i] - 48),
{
    assert(s.subrange(a, i + 1).drop_last() =~= s.subrange(a, i));
}

/// The value of the digits `s[a..b]`, or `0x8000_0000_0000_0001` when that value exceeds `2^63`;
/// `None` when some byte is not a digit.
fn read_digits(s: &[u8], a: usize, b: usize) -> (r: Option<u64>)
    requires
        a <= b <= s@.len(),
    ensures
        match r {
            Some(n) => all_digits(s@.subrange(a as int, b as int)) && n == (if digits_value(
                s@.subrange(a as int, b as int),
            ) > 0x8000_0000_0000_0000 {
                0x8000_0000_0000_0001
            } else {
                digits_value(s@.subrange(a as int, b as int))
            }),
            None => !all_digits(s@.subrange(a as int, b as int)),
        },
{
    let limit: u64 = 0x8000_0000_0000_0000;
    let mut acc: u64 = 0;
    let mut i: usize = a;
    while i < b
        invariant
            a <= i <= b <= s@.len(),
            limit == 0x8000_0000_0000_0000u64,
            all_digits(s@.subrange(a as int, i as int)),
            acc == (if digits_value(s@.subrange(a as int, i as int)) > 0x8000_0000_0000_0000 {
                0x8000_0000_0000_0001
            } else {
                digits_value(s@.subrange(a as int, i as int))
            }),
        decreases b - i,
    {
        let c = s[i];
        if c < 48 || c > 57 {
            assert(s@.subrange(a as int, b as int)[i - a] == c);
            return None;
        }
        let d: u64 = (c - 48) as u64;
        proof {
            lemma_digits_step(s@, a as int, i as int);
            assert(digits_value(s@.subrange(a as int, i as int)) >= 0) by {
                lemma_digits_nonneg(s@.subrange(a as int, i as int));
            }
        }
        if acc > limit || acc > (limit - d) / 10 {
            acc = limit + 1;
        } else {
            acc = acc * 10 + d;
        }
        i = i + 1;
        proof {
            assert forall|j: int| 0 <= j < s@.subrange(a as int, i as int).len() implies is_digit(
                #[trigger] s@.subrange(a as int, i as int)[j],
            ) by {
                if j < i - 1 - a {
                    assert(s@.subrange(a as int, i as int)[j] == s@.subrange(a as int, i - 1)[j]);
                }
            }
        }
    }
    Some(acc)
}

proof fn lemma_digits_nonneg(t: Seq<u8>)
    requires
        all_digits(t),
    ensures
        digits_value(t) >= 0,
    decreases t.len(),
{
    if t.len() > 0 {
        assert(all_digits(t.drop_last())) by {
            assert forall|i: int| 0 <= i < t.drop_last().len() implies is_digit(#[trigger] t.drop_last()[i]) by {
                assert(t.drop_last()[i] == t[i]);
            }
        }
        lemma_digits_nonneg(t.drop_last());
        assert(is_digit(t[t.len() - 1]));
    }
}

/// The signed number written by `s[a..b]`.
fn read_number(s: &[u8], a: usize, b: usize) -> (r: Option<i64>)
    requires
        a <= b <= s@.len(),
    ensures
        match r {
            Some(n) => number_value(s@.subrange(a as int, b as int)) == Some(n as int),
            None => number_value(s@.subrange(a as int, b as int)) is None,
        },
{
    let ghost t = s@.subrange(a as int, b as int);
    if a < b && s[a] == 45u8 {
        assert(t[0] == 45u8);
        assert(t.drop_first() =~= s@.subrange(a + 1, b as int));
        if a + 1 == b {
            return None;
        }
        match read_digits(s, a + 1, b) {
            None => None,
            Some(n) => {
                if n > 0x8000_0000_0000_0000 {
                    None
                } else if n == 0 {
                    Some(0)
                } else {
                    Some(-((n - 1) as i64) - 1)
                }
            },
        }
    } else {
        if a == b {
            return None;
        }
        match read_digits(s, a, b) {
            None => None,
            Some(n) => {
                if n > 0x7fff_ffff_ffff_ffff {
                    None
                } else {
                    Some(n as i64)
                }
            },
        }
    }
}

/// `<length>:<bytes>` at `pos`: the bytes and the position after them.
fn decode_str_at(s: &[u8], pos: usize) -> (r: Result<(Vec<u8>, usize), DecodeError>)
    requires
        pos <= s@.len(),
    ensures
        match r {
            Ok((b, q)) => parse_str(s@, pos as int) == Ok::<(Seq<u8>, int), DecodeError>((b@, q as int)) && pos < q <= s@.len()
                && b@.len() <= 0x7fff_ffff_ffff_ffff,
            Err(e) => parse_str(s@, pos as int) == Err::<(Seq<u8>, int), DecodeError>(e),
        },
{
    let q = match find_byte_from(s, pos, 58u8) {
        None => return Err(DecodeError::Truncated),
        Some(q) => q,
    };
    let n = match read_number(s, pos, q) {
        None => return Err(DecodeError::BadNumber),
        Some(n) => n,
    };
    if n < 0 {
        return Err(DecodeError::BadNumber);
    }
    if n as u64 > (s.len() - q - 1) as u64 {
        return Err(DecodeError::Truncated);
    }
    let end: usize = q + 1 + n as usize;
    let bytes = slice_to_vec(slice_subrange(s, q + 1, end));
    Ok((bytes, end))
}

fn new_entry(data: EntryData, s: &[u8], start: usize, end: usize) -> (r: Entry)
    requires
        start <= end <= s@.len(),
    ensures
        r.data == data,
        r.src@ == s@.subrange(start as int, end as int),
{
    Entry { data: data, src: slice_to_vec(slice_subrange(s, start, end)) }
}

proof fn lemma_find_range(s: Seq<u8>, a: int, c: u8)
    requires
        find_byte(s, a, c) is Some,
    ensures
        a <= find_byte(s, a, c)->Some_0 < s.len(),
        s[find_byte(s, a, c)->Some_0] == c,
    decreases s.len() - a,
{
    if !(a < 0 || a >= s.len()) && s[a] != c {
        lemma_find_range(s, a + 1, c);
    }
}

proof fn lemma_find_window(s: Seq<u8>, lo: int, hi: int, a: int, c: u8)
    requires
        0 <= lo <= a,
        hi <= s.len(),
        find_byte(s, a, c) is Some,
        find_byte(s, a, c)->Some_0 < hi,
    ensures
        find_byte(s.subrange(lo, hi), a - lo, c) == Some(find_byte(s, a, c)->Some_0 - lo),
    decreases s.len() - a,
{
    let t = s.subrange(lo, hi);
    lemma_find_range(s, a, c);
    assert(t[a - lo] == s[a]);
    if s[a] != c {
        lemma_find_window(s, lo, hi, a + 1, c);
    }
}

proof fn lemma_str_window(s: Seq<u8>, p: int, lo: int, hi: int)
    requires
        0 <= lo <= p,
        hi <= s.len(),
        parse_str(s, p) is Ok,
        parse_str(s, p)->Ok_0.1 <= hi,
    ensures
        parse_str(s.subrange(lo, hi), p - lo) == Ok::<(Seq<u8>, int), DecodeError>(
            (parse_str(s, p)->Ok_0.0, parse_str(s, p)->Ok_0.1 - lo),
        ),
        p < parse_str(s, p)->Ok_0.1,
{
    let t = s.subrange(lo, hi);
    let x = find_byte(s, p, 58u8)->Some_0;
    lemma_find_range(s, p, 58u8);
    lemma_find_window(s, lo, hi, p, 58u8);
    assert(t.subrange(p - lo, x - lo) =~= s.subrange(p, x));
    let n = number_value(s.subrange(p, x))->Some_0;
    assert(t.subrange(x - lo + 1, x - lo + 1 + n) =~= s.subrange(x + 1, x + 1 + n));
}

proof fn lemma_int_window(s: Seq<u8>, p: int, lo: int, hi: int)
    requires
        0 <= lo <= p < s.len(),
        hi <= s.len(),
        parse_int(s, p) is Ok,
        parse_int(s, p)->Ok_0.1 <= hi,
    ensures
        parse_int(s.subrange(lo, hi), p - lo) == Ok::<(Bencode, int), DecodeError>(
            (parse_int(s, p)->Ok_0.0, parse_int(s, p)->Ok_0.1 - lo),
        ),
        p < parse_int(s, p)->Ok_0.1 <= s.len(),
{
    let t = s.subrange(lo, hi);
    let x = find_byte(s, p + 1, 101u8)->Some_0;
    lemma_find_range(s, p + 1, 101u8);
    lemma_find_window(s, lo, hi, p + 1, 101u8);
    assert(t.subrange(p - lo + 1, x - lo) =~= s.subrange(p + 1, x));
}

proof fn lemma_value_end(s: Seq<u8>, p: int)
    requires
        parse_value(s, p) is Ok,
    ensures
        p < parse_value(s, p)->Ok_0.1 <= s.len(),
    decreases s.len() - p, 0int,
{
    if s[p] == 105u8 {
        lemma_find_range(s, p + 1, 101u8);
    } else if s[p] == 108u8 {
        lemma_list_end(s, p + 1, Seq::empty());
    } else if s[p] == 100u8 {
        lemma_dict_end(s, p + 1, Seq::empty());
    } else {
        lemma_find_range(s, p, 58u8);
    }
}

proof fn lemma_list_end(s: Seq<u8>, p: int, acc: Seq<Bencode>)
    requires
        parse_list(s, p, acc) is Ok,
    ensures
        p < parse_list(s, p, acc)->Ok_0.1 <= s.len(),
    decreases s.len() - p, 1int,
{
    if s[p] != 101u8 {
        let (w, r) = parse_value(s, p)->Ok_0;
        lemma_list_end(s, r, acc.push(w));
    }
}

proof fn lemma_dict_end(s: Seq<u8>, p: int, acc: Seq<(Seq<u8>, Bencode)>)
    requires
        parse_dict(s, p, acc) is Ok,
    ensures
        p < parse_dict(s, p, acc)->Ok_0.1 <= s.len(),
    decreases s.len() - p, 1int,
{
    if s[p] != 101u8 {
        let (k, x) = parse_str(s, p)->Ok_0;
        let (w, r) = parse_value(s, x)->Ok_0;
        lemma_dict_end(s, r, dict_insert(acc, k, w));
    }
}

proof fn lemma_value_window(s: Seq<u8>, p: int, lo: int, hi: int)
    requires
        0 <= lo <= p,
        hi <= s.len(),
        parse_value(s, p) is Ok,
        parse_value(s, p)->Ok_0.1 <= hi,
    ensures
        parse_value(s.subrange(lo, hi), p - lo) == Ok::<(Bencode, int), DecodeError>(
            (parse_value(s, p)->Ok_0.0, parse_value(s, p)->Ok_0.1 - lo),
        ),
    decreases s.len() - p, 0int,
{
    let t = s.subrange(lo, hi);
    lemma_value_end(s, p);
    assert(t[p - lo] == s[p]);
    if s[p] == 105u8 {
        lemma_int_window(s, p, lo, hi);
    } else if s[p] == 108u8 {
        lemma_list_window(s, p + 1, Seq::empty(), lo, hi);
    } else if s[p] == 100u8 {
        lemma_dict_window(s, p + 1, Seq::empty(), lo, hi);
    } else {
        lemma_str_window(s, p, lo, hi);
    }
}

proof fn lemma_list_window(s: Seq<u8>, p: int, acc: Seq<Bencode>, lo: int, hi: int)
    requires
        0 <= lo <= p,
        hi <= s.len(),
        parse_list(s, p, acc) is Ok,
        parse_list(s, p, acc)->Ok_0.1 <= hi,
    ensures
        parse_list(s.subrange(lo, hi), p - lo, acc) == Ok::<(Bencode, int), DecodeError>(
            (parse_list(s, p, acc)->Ok_0.0, parse_list(s, p, acc)->Ok_0.1 - lo),
        ),
    decreases s.len() - p, 1int,
{
    let t = s.subrange(lo, hi);
    lemma_list_end(s, p, acc);
    assert(t[p - lo] == s[p]);
    if s[p] != 101u8 {
        let (w, r) = parse_value(s, p)->Ok_0;
        lemma_list_end(s, r, acc.push(w));
        lemma_value_window(s, p, lo, hi);
        lemma_list_window(s, r, acc.push(w), lo, hi);
    }
}

proof fn lemma_dict_window(s: Seq<u8>, p: int, acc: Seq<(Seq<u8>, Bencode)>, lo: int, hi: int)
    requires
        0 <= lo <= p,
        hi <= s.len(),
        parse_dict(s, p, acc) is Ok,
        parse_dict(s, p, acc)->Ok_0.1 <= hi,
    ensures
        parse_dict(s.subrange(lo, hi), p - lo, acc) == Ok::<(Bencode, int), DecodeError>(
            (parse_dict(s, p, acc)->Ok_0.0, parse_dict(s, p, acc)->Ok_0.1 - lo),
        ),
    decreases s.len() - p, 1int,
{
    let t = s.subrange(lo, hi);
    lemma_dict_end(s, p, acc);
    assert(t[p - lo] == s[p]);
    if s[p] != 101u8 {
        let (k, x) = parse_str(s, p)->Ok_0;
        let (w, r) = parse_value(s, x)->Ok_0;
        lemma_dict_end(s, r, dict_insert(acc, k, w));
        lemma_value_end(s, x);
        lemma_str_window(s, p, lo, hi);
        lemma_value_window(s, x, lo, hi);
        lemma_dict_window(s, r, dict_insert(acc, k, w), lo, hi);
    }
}

proof fn lemma_pairs_exact_from_all(d: Seq<(Vec<u8>, Entry)>, s: Seq<u8>)
    requires
        forall|i: int| 0 <= i < d.len() ==> sources_exact(#[trigger] d[i].1, s),
    ensures
        pairs_exact(d, s),
    decreases d.len(),
{
    if d.len() > 0 {
        let e = d.drop_last();
        assert forall|i: int| 0 <= i < e.len() implies sources_exact(#[trigger] e[i].1, s) by {
            assert(e[i] == d[i]);
        }
        lemma_pairs_exact_from_all(e, s);
        assert(sources_exact(d[d.len() - 1].1, s));
    }
}

/// An entry built from `s[pos..q]`, whose children are exact, is exact.
proof fn lemma_entry_exact(e: Entry, s: Seq<u8>, pos: int, q: int)
    requires
        0 <= pos < q <= s.len(),
        e.src@ == s.subrange(pos, q),
        parse_value(s, pos) == Ok::<(Bencode, int), DecodeError>((e@, q)),
        match e.data {
            EntryData::List(v) => items_exact(v@, s),
            EntryData::Dictionary(d) => pairs_exact(d@, s),
            _ => true,
        },
    ensures
        sources_exact(e, s),
{
    lemma_value_window(s, pos, pos, q);
    assert(e.src@.len() == q - pos);
}

/// The value that starts at `pos`, and the position just after it.
fn decode_at(s: &[u8], pos: usize) -> (r: Result<(Entry, usize), DecodeError>)
    requires
        pos <= s@.len(),
    ensures
        match r {
            Ok((e, q)) => parse_value(s@, pos as int) == Ok::<(Bencode, int), DecodeError>((e@, q as int))
                && e.src@ == s@.subrange(pos as int, q as int) && pos < q <= s@.len() && sources_exact(e, s@)
                && canonical(e@),
            Err(err) => parse_value(s@, pos as int) == Err::<(Bencode, int), DecodeError>(err),
        },
    decreases s@.len() - pos, 1int,
{
    if pos >= s.len() {
        return Err(DecodeError::Truncated);
    }
    let id = s[pos];
    if id == 105u8 {
        let q = match find_byte_from(s, pos + 1, 101u8) {
            None => return Err(DecodeError::Truncated),
            Some(q) => q,
        };
        match read_number(s, pos + 1, q) {
            None => Err(DecodeError::BadNumber),
            Some(n) => {
                let e = new_entry(EntryData::Int(n), s, pos, q + 1);
                proof {
                    lemma_entry_exact(e, s@, pos as int, q + 1);
                }
                Ok((e, q + 1))
            },
        }
    } else if id == 108u8 {
        decode_list_at(s, pos)
    } else if id == 100u8 {
        decode_dict_at(s, pos)
    } else {
        match decode_str_at(s, pos) {
            Err(e) => Err(e),
            Ok((b, q)) => {
                let e = new_entry(EntryData::Str(b), s, pos, q);
                proof {
                    lemma_entry_exact(e, s@, pos as int, q as int);
                }
                Ok((e, q))
            },
        }
    }
}

fn decode_list_at(s: &[u8], pos: usize) -> (r: Result<(Entry, usize), DecodeError>)
    requires
        pos < s@.len(),
        s@[pos as int] == 108u8,
    ensures
        match r {
            Ok((e, q)) => parse_value(s@, pos as int) == Ok::<(Bencode, int), DecodeError>((e@, q as int))
                && e.src@ == s@.subrange(pos as int, q as int) && pos < q <= s@.len() && sources_exact(e, s@)
                && canonical(e@),
            Err(err) => parse_value(s@, pos as int) == Err::<(Bencode, int), DecodeError>(err),
        },
    decreases s@.len() - pos, 0int,
{
    let len = s.len();
    let mut items: Vec<Entry> = Vec::new();
    let mut p: usize = pos + 1;
    while p < s.len() && s[p] != 101u8
        invariant
            pos < p <= s@.len(),
            parse_value(s@, pos as int) == parse_list(s@, p as int, entries_value(items@)),
            items_exact(items@, s@),
            items_canonical(entries_value(items@)),
        decreases s@.len() - p,
    {
        match decode_at(s, p) {
            Err(e) => return Err(e),
            Ok((e, q)) => {
                proof {
                    assert(items@.push(e).drop_last() =~= items@);
                }
                let ghost before = items@;
                items.push(e);
                proof {
                    assert(items@.drop_last() =~= before);
                    assert(entries_value(items@).drop_last() =~= entries_value(before));
                }
                p = q;
            },
        }
    }
    if p >= s.len() {
        return Err(DecodeError::Truncated);
    }
    let e = new_entry(EntryData::List(items), s, pos, p + 1);
    proof {
        lemma_entry_exact(e, s@, pos as int, p + 1);
    }
    Ok((e, p + 1))
}

/// Adding a pair to a dictionary in ascending key order keeps it so.
proof fn lemma_dict_insert_canonical(d: Seq<(Seq<u8>, Bencode)>, k: Seq<u8>, v: Bencode)
    requires
        pairs_canonical(d),
        canonical(v),
        k.len() <= 0x7fff_ffff_ffff_ffff,
    ensures
        pairs_canonical(dict_insert(d, k, v)),
        dict_insert(d, k, v).len() > 0,
        dict_insert(d, k, v).last().0 == k || (d.len() > 0 && dict_insert(d, k, v).last().0 == d.last().0),
    decreases d.len(),
{
    let r = dict_insert(d, k, v);
    if d.len() == 0 {
        assert(r.drop_last() =~= Seq::<(Seq<u8>, Bencode)>::empty());
        assert(pairs_canonical(r.drop_last()));
        assert(r.last() == (k, v));
    } else if lex_lt(d.last().0, k) {
        assert(r.drop_last() =~= d);
        assert(r.last() == (k, v));
        assert(r[r.len() - 2] == d.last());
    } else if d.last().0 == k {
        let dl = d.drop_last();
        assert(pairs_canonical(dl));
        assert(r.drop_last() =~= dl);
        assert(r.last() == (k, v));
        if dl.len() > 0 {
            assert(dl.last() == d[d.len() - 2]);
            assert(r[r.len() - 2] == dl.last());
            assert(lex_lt(d[d.len() - 2].0, d.last().0));
        }
    } else {
        let dl = d.drop_last();
        assert(pairs_canonical(dl));
        lemma_lex_trichotomy(k, d.last().0);
        assert(lex_lt(k, d.last().0));
        lemma_dict_insert_canonical(dl, k, v);
        let r2 = dict_insert(dl, k, v);
        assert(r == r2.push(d.last()));
        assert(r.drop_last() =~= r2);
        assert(r.last() == d.last());
        assert(r[r.len() - 2] == r2.last());
        if dl.len() > 0 {
            assert(dl.last() == d[d.len() - 2]);
            assert(lex_lt(d[d.len() - 2].0, d.last().0));
        }
        assert(lex_lt(r2.last().0, d.last().0));
    }
}

proof fn lemma_lex_trichotomy(a: Seq<u8>, b: Seq<u8>)
    ensures
        !lex_lt(a, a),
        lex_lt(a, b) ==> !lex_lt(b, a),
        !lex_lt(a, b) && !lex_lt(b, a) ==> a == b,
    decreases a.len(),
{
    if a.len() > 0 && b.len() > 0 {
        lemma_lex_trichotomy(a.drop_first(), b.drop_first());
        if a[0] == b[0] && a.drop_first() == b.drop_first() {
            assert(a =~= seq![a[0]] + a.drop_first());
            assert(b =~= seq![b[0]] + b.drop_first());
        }
    } else if a.len() > 0 {
        lemma_lex_trichotomy(a.drop_first(), a.drop_first());
    } else if b.len() == 0 {
        assert(a =~= b);
    }
}

/// Whether `a` sorts strictly before `b`, byte by byte.
fn lex_less(a: &[u8], b: &[u8]) -> (r: bool)
    ensures
        r == lex_lt(a@, b@),
{
    let mut i: usize = 0;
    assert(a@.subrange(0, a@.len() as int) =~= a@);
    assert(b@.subrange(0, b@.len() as int) =~= b@);
    while i < a.len() && i < b.len() && a[i] == b[i]
        invariant
            i <= a@.len(),
            i <= b@.len(),
            lex_lt(a@, b@) == lex_lt(a@.subrange(i as int, a@.len() as int), b@.subrange(i as int, b@.len() as int)),
        decreases a@.len() - i,
    {
        proof {
            let x = a@.subrange(i as int, a@.len() as int);
            let y = b@.subrange(i as int, b@.len() as int);
            assert(x.drop_first() =~= a@.subrange(i + 1, a@.len() as int));
            assert(y.drop_first() =~= b@.subrange(i + 1, b@.len() as int));
        }
        i = i + 1;
    }
    let ghost x = a@.subrange(i as int, a@.len() as int);
    let ghost y = b@.subrange(i as int, b@.len() as int);
    if i == a.len() {
        i < b.len()
    } else if i == b.len() {
        false
    } else {
        assert(x[0] == a@[i as int] && y[0] == b@[i as int]);
        a[i] < b[i]
    }
}

proof fn lemma_dict_insert_at(d: Seq<(Seq<u8>, Bencode)>, k: Seq<u8>, v: Bencode, j: int)
    requires
        0 <= j <= d.len(),
        forall|i: int| j <= i < d.len() ==> lex_lt(k, #[trigger] d[i].0),
        j == 0 || !lex_lt(k, d[j - 1].0),
    ensures
        j > 0 && d[j - 1].0 == k ==> dict_insert(d, k, v) == d.update(j - 1, (k, v)),
        !(j > 0 && d[j - 1].0 == k) ==> dict_insert(d, k, v) == d.insert(j, (k, v)),
    decreases d.len(),
{
    if d.len() == 0 {
        assert(d.insert(0, (k, v)) =~= seq![(k, v)]);
    } else if j == d.len() {
        lemma_lex_trichotomy(k, d.last().0);
        if d.last().0 == k {
            assert(d.drop_last().push((k, v)) =~= d.update(j - 1, (k, v)));
        } else {
            assert(d.push((k, v)) =~= d.insert(j, (k, v)));
        }
    } else {
        lemma_lex_trichotomy(k, d.last().0);
        assert(lex_lt(k, d[d.len() - 1].0));
        let e = d.drop_last();
        assert forall|i: int| j <= i < e.len() implies lex_lt(k, #[trigger] e[i].0) by {
            assert(e[i] == d[i]);
        }
        if j > 0 {
            assert(e[j - 1] == d[j - 1]);
        }
        lemma_dict_insert_at(e, k, v, j);
        if j > 0 && d[j - 1].0 == k {
            assert(e.update(j - 1, (k, v)).push(d.last()) =~= d.update(j - 1, (k, v)));
        } else {
            assert(e.insert(j, (k, v)).push(d.last()) =~= d.insert(j, (k, v)));
        }
    }
}

/// Adds `(k, v)` to pairs kept in ascending key order, replacing an equal key.
fn insert_pair(d: &mut Vec<(Vec<u8>, Entry)>, k: Vec<u8>, v: Entry)
    ensures
        pairs_value(final(d)@) == dict_insert(pairs_value(old(d)@), k@, v@),
        forall|i: int| 0 <= i < final(d)@.len() ==> (#[trigger] final(d)@[i]).1 == v
            || exists|j: int| 0 <= j < old(d)@.len() && final(d)@[i].1 == old(d)@[j].1,
{
    let ghost kv = k@;
    let ghost vv = v@;
    proof {
        lemma_pairs_value_index(d@);
    }
    let mut j: usize = d.len();
    while j > 0 && lex_less(k.as_slice(), d[j - 1].0.as_slice())
        invariant
            j <= d@.len(),
            kv == k@,
            forall|i: int| j <= i < d@.len() ==> lex_lt(kv, #[trigger] d@[i].0@),
        decreases j,
    {
        j = j - 1;
    }
    let ghost pd = pairs_value(d@);
    proof {
        assert forall|i: int| j <= i < pd.len() implies lex_lt(kv, #[trigger] pd[i].0) by {
            assert(pd[i] == (d@[i].0@, d@[i].1@));
        }
        if j > 0 {
            assert(pd[j - 1] == (d@[j - 1].0@, d@[j - 1].1@));
        }
        lemma_dict_insert_at(pd, kv, vv, j as int);
    }
    if j > 0 && !lex_less(d[j - 1].0.as_slice(), k.as_slice()) {
        proof {
            lemma_lex_trichotomy(kv, d@[j - 1].0@);
        }
        let ghost od = d@;
        let ghost vv2 = v;
        d.set(j - 1, (k, v));
        proof {
            assert forall|i: int| 0 <= i < d@.len() implies (#[trigger] d@[i]).1 == vv2
                || exists|x: int| 0 <= x < od.len() && d@[i].1 == od[x].1 by {
                if i != j - 1 {
                    assert(d@[i] == od[i]);
                }
            }
            lemma_pairs_value_index(d@);
            assert(pairs_value(d@) =~= pd.update(j - 1, (kv, vv)));
        }
    } else {
        proof {
            if j > 0 {
                lemma_lex_trichotomy(kv, d@[j - 1].0@);
            }
        }
        let ghost od = d@;
        let ghost vv2 = v;
        d.insert(j, (k, v));
        proof {
            assert forall|i: int| 0 <= i < d@.len() implies (#[trigger] d@[i]).1 == vv2
                || exists|x: int| 0 <= x < od.len() && d@[i].1 == od[x].1 by {
                if i < j {
                    assert(d@[i] == od[i]);
                } else if i > j {
                    assert(d@[i] == od[i - 1]);
                }
            }
            lemma_pairs_value_index(d@);
            assert(pairs_value(d@) =~= pd.insert(j as int, (kv, vv)));
        }
    }
}

fn decode_dict_at(s: &[u8], pos: usize) -> (r: Result<(Entry, usize), DecodeError>)
    requires
        pos < s@.len(),
        s@[pos as int] == 100u8,
    ensures
        match r {
            Ok((e, q)) => parse_value(s@, pos as int) == Ok::<(Bencode, int), DecodeError>((e@, q as int))
                && e.src@ == s@.subrange(pos as int, q as int) && pos < q <= s@.len() && sources_exact(e, s@)
                && canonical(e@),
            Err(err) => parse_value(s@, pos as int) == Err::<(Bencode, int), DecodeError>(err),
        },
    decreases s@.len() - pos, 0int,
{
    let len = s.len();
    let mut pairs: Vec<(Vec<u8>, Entry)> = Vec::new();
    let mut p: usize = pos + 1;
    while p < s.len() && s[p] != 101u8
        invariant
            pos < p <= s@.len(),
            parse_value(s@, pos as int) == parse_dict(s@, p as int, pairs_value(pairs@)),
            pairs_exact(pairs@, s@),
            pairs_canonical(pairs_value(pairs@)),
        decreases s@.len() - p,
    {
        if s[p] < 48 || s[p] > 57 {
            return Err(DecodeError::BadKey);
        }
        let (k, q) = match decode_str_at(s, p) {
            Err(e) => return Err(e),
            Ok(kq) => kq,
        };
        let (v, r) = match decode_at(s, q) {
            Err(e) => return Err(e),
            Ok(vr) => vr,
        };
        let ghost before = pairs@;
        let ghost vv = v;
        proof {
            lemma_dict_insert_canonical(pairs_value(pairs@), k@, v@);
        }
        insert_pair(&mut pairs, k, v);
        proof {
            crate::bencode::lemma_pairs_exact_index(before, s@);
            assert forall|i: int| 0 <= i < pairs@.len() implies sources_exact(#[trigger] pairs@[i].1, s@) by {
                if pairs@[i].1 != vv {
                    let x = choose|x: int| 0 <= x < before.len() && pairs@[i].1 == before[x].1;
                    assert(sources_exact(before[x].1, s@));
                }
            }
            lemma_pairs_exact_from_all(pairs@, s@);
        }
        p = r;
    }
    if p >= s.len() {
        return Err(DecodeError::Truncated);
    }
    let e = new_entry(EntryData::Dictionary(pairs), s, pos, p + 1);
    proof {
        lemma_entry_exact(e, s@, pos as int, p + 1);
    }
    Ok((e, p + 1))
}

/// Decodes the value at the front of `*input` and advances `*input` past it.
/// On an error `*input` is left as it was.
pub fn decode(input: &mut &[u8]) -> (r: Result<Entry, DecodeError>)
    ensures
        match parse_value(old(input)@, 0) {
            Ok((v, n)) => 0 < n <= old(input)@.len() && (r matches Ok(e) && e@ == v && e.src@ == old(input)@.subrange(0, n)
                && sources_exact(e, old(input)@) && canonical(e@)
                && final(input)@ == old(input)@.subrange(n, old(input)@.len() as int)),
            Err(err) => r == Err::<Entry, DecodeError>(err) && final(input)@ == old(input)@,
        },
{
    let s: &[u8] = *input;
    match decode_at(s, 0) {
        Err(e) => Err(e),
        Ok((e, q)) => {
            *input = slice_subrange(s, q, s.len());
            Ok(e)
        },
    }
}

/// Decodes a buffer that holds exactly one value.
pub fn decode_complete(input: &[u8]) -> (r: Result<Entry, DecodeError>)
    ensures
        match parse_complete(input@) {
            Ok(v) => r matches Ok(e) && e@ == v && e.src@ == input@ && sources_exact(e, input@) && canonical(e@),
            Err(err) => r == Err::<Entry, DecodeError>(err),
        },
{
    match decode_at(input, 0) {
        Err(e) => Err(e),
        Ok((e, q)) => {
            if q == input.len() {
                assert(input@.subrange(0, q as int) =~= input@);
                Ok(e)
            } else {
                Err(DecodeError::Trailing)
            }
        },
    }
}

/// Drops the first `s` bytes of `*input`.
pub fn skip(input: &mut &[u8], s: usize)
    requires
        s <= old(input)@.len(),
    ensures
        final(input)@ == old(input)@.subrange(s as int, old(input)@.len() as int),
{
    let whole: &[u8] = *input;
    *input = slice_subrange(whole, s, whole.len());
}

} // verus!
