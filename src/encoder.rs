use vstd::prelude::*;
use crate::bencode::{
    all_digits, dict_insert, digits_value, entries_value, find_byte, is_digit, lex_lt, number_value,
    pairs_value, parse_dict, parse_list, parse_str, parse_value, Bencode, DecodeError, EntryData,
    lemma_entries_value_index, lemma_pairs_value_index,
};

verus! {

/// The decimal digits of `n`, without leading zeros.
pub open spec fn decimal(n: nat) -> Seq<u8>
    decreases n,
{
    if n < 10 {
        seq![(48 + n) as u8]
    } else {
        decimal(n / 10).push((48 + n % 10) as u8)
    }
}

/// `i` in decimal, with a leading `-` when negative.
pub open spec fn signed_decimal(i: int) -> Seq<u8> {
    if i < 0 {
        seq![45u8] + decimal((-i) as nat)
    } else {
        decimal(i as nat)
    }
}

/// `<length>:<bytes>`.
pub open spec fn str_encoding(b: Seq<u8>) -> Seq<u8> {
    decimal(b.len()) + seq![58u8] + b
}

/// The canonical bencoding of a value; dictionaries are written in the order they hold.
pub open spec fn encode(v: Bencode) -> Seq<u8>
    decreases v, 0int,
{
    match v {
        Bencode::Str(b) => str_encoding(b),
        Bencode::Int(i) => seq![105u8] + signed_decimal(i) + seq![101u8],
        Bencode::List(items) => seq![108u8] + encode_items(items) + seq![101u8],
        Bencode::Dict(ps) => seq![100u8] + encode_pairs(ps) + seq![101u8],
    }
}

pub open spec fn encode_items(items: Seq<Bencode>) -> Seq<u8>
    decreases items, 0int,
{
    if items.len() == 0 {
        Seq::empty()
    } else {
        encode_items(items.drop_last()) + encode(items.last())
    }
}

pub open spec fn encode_pairs(ps: Seq<(Seq<u8>, Bencode)>) -> Seq<u8>
    decreases ps, 0int,
{
    if ps.len() == 0 {
        Seq::empty()
    } else {
        encode_pairs(ps.drop_last()) + str_encoding(ps.last().0) + encode(ps.last().1)
    }
}

/// Well-formed values, as decoding gives them and as encoding asks for: at every level,
/// dictionary keys unique and in strictly ascending byte order, integers within 64 bits and
/// strings shorter than 2^63 bytes.
pub open spec fn canonical(v: Bencode) -> bool
    decreases v, 0int,
{
    match v {
        Bencode::Str(b) => b.len() <= 0x7fff_ffff_ffff_ffff,
        Bencode::Int(i) => -0x8000_0000_0000_0000 <= i && i <= 0x7fff_ffff_ffff_ffff,
        Bencode::List(items) => items_canonical(items),
        Bencode::Dict(ps) => pairs_canonical(ps),
    }
}

pub open spec fn items_canonical(items: Seq<Bencode>) -> bool
    decreases items, 0int,
{
    items.len() == 0 || (items_canonical(items.drop_last()) && canonical(items.last()))
}

pub open spec fn pairs_canonical(ps: Seq<(Seq<u8>, Bencode)>) -> bool
    decreases ps, 0int,
{
    ps.len() == 0 || (pairs_canonical(ps.drop_last()) && ps.last().0.len() <= 0x7fff_ffff_ffff_ffff
        && canonical(ps.last().1) && (ps.len() == 1 || lex_lt(ps[ps.len() - 2].0, ps.last().0)))
}

// ---------------------------------------------------------------------------
// Writing.

pub(crate) fn push_all(out: &mut Vec<u8>, b: &[u8])
    ensures
        final(out)@ == old(out)@ + b@,
{
    let mut i: usize = 0;
    while i < b.len()
        invariant
            i <= b@.len(),
            out@ == old(out)@ + b@.subrange(0, i as int),
        decreases b@.len() - i,
    {
        out.push(b[i]);
        i = i + 1;
        assert(out@ =~= old(out)@ + b@.subrange(0, i as int));
    }
    assert(b@.subrange(0, b@.len() as int) =~= b@);
}

pub(crate) fn push_decimal(out: &mut Vec<u8>, n: u64)
    ensures
        final(out)@ == old(out)@ + decimal(n as nat),
    decreases n,
{
    if n >= 10 {
        push_decimal(out, n / 10);
    }
    out.push((48 + n % 10) as u8);
    proof {
        if n >= 10 {
            assert(out@ =~= old(out)@ + decimal(n as nat));
        } else {
            assert(out@ =~= old(out)@ + decimal(n as nat));
        }
    }
}

pub(crate) fn push_signed(out: &mut Vec<u8>, i: i64)
    ensures
        final(out)@ == old(out)@ + signed_decimal(i as int),
{
    if i < 0 {
        out.push(45u8);
        let m: u64 = if i == i64::MIN {
            0x8000_0000_0000_0000u64
        } else {
            (-i) as u64
        };
        push_decimal(out, m);
        assert(out@ =~= old(out)@ + signed_decimal(i as int));
    } else {
        push_decimal(out, i as u64);
    }
}

fn push_str_encoding(out: &mut Vec<u8>, b: &[u8])
    ensures
        final(out)@ == old(out)@ + str_encoding(b@),
{
    push_decimal(out, b.len() as u64);
    out.push(58u8);
    push_all(out, b);
    assert(out@ =~= old(out)@ + str_encoding(b@));
}

/// Appends the encoding of `d` to `out`.
fn encode_into(d: &EntryData, out: &mut Vec<u8>)
    requires
        canonical(d@),
    ensures
        final(out)@ == old(out)@ + encode(d@),
    decreases d,
{
    match d {
        EntryData::Str(b) => {
            push_str_encoding(out, b.as_slice());
        },
        EntryData::Int(i) => {
            out.push(105u8);
            push_signed(out, *i);
            out.push(101u8);
            assert(out@ =~= old(out)@ + encode(d@));
        },
        EntryData::List(items) => {
            out.push(108u8);
            let ghost start = out@;
            let mut k: usize = 0;
            while k < items.len()
                invariant
                    k <= items@.len(),
                    *d == EntryData::List(*items),
                    items_canonical(entries_value(items@)),
                    out@ == start + encode_items(entries_value(items@.subrange(0, k as int))),
                decreases items@.len() - k,
            {
                proof {
                    let sub = items@.subrange(0, k as int + 1);
                    assert(sub.drop_last() =~= items@.subrange(0, k as int));
                    assert(sub.last() == items@[k as int]);
                    assert(entries_value(sub).drop_last() =~= entries_value(sub.drop_last()));
                }
                proof {
                    vstd::std_specs::vec::axiom_vec_index_decreases(*items, k as int);
                    assert(decreases_to!(*d => (*d)->List_0));
                    assert(decreases_to!(items[k as int] => items[k as int].data));
                    assert(decreases_to!(*d => items[k as int].data));
                }
                proof {
                    lemma_entries_value_index(items@);
                    lemma_items_canonical_index(entries_value(items@));
                    assert(canonical(entries_value(items@)[k as int]));
                }
                encode_into(&items[k].data, out);
                k = k + 1;
                proof {
                    assert(out@ =~= start + encode_items(entries_value(items@.subrange(0, k as int))));
                }
            }
            out.push(101u8);
            proof {
                assert(items@.subrange(0, items@.len() as int) =~= items@);
                assert(out@ =~= old(out)@ + encode(d@));
            }
        },
        EntryData::Dictionary(ps) => {
            out.push(100u8);
            let ghost start = out@;
            let mut k: usize = 0;
            while k < ps.len()
                invariant
                    k <= ps@.len(),
                    *d == EntryData::Dictionary(*ps),
                    pairs_canonical(pairs_value(ps@)),
                    out@ == start + encode_pairs(pairs_value(ps@.subrange(0, k as int))),
                decreases ps@.len() - k,
            {
                proof {
                    let sub = ps@.subrange(0, k as int + 1);
                    assert(sub.drop_last() =~= ps@.subrange(0, k as int));
                    assert(sub.last() == ps@[k as int]);
                    assert(pairs_value(sub).drop_last() =~= pairs_value(sub.drop_last()));
                }
                push_str_encoding(out, ps[k].0.as_slice());
                proof {
                    vstd::std_specs::vec::axiom_vec_index_decreases(*ps, k as int);
                    assert(decreases_to!(*d => (*d)->Dictionary_0));
                    assert(decreases_to!(ps[k as int] => ps[k as int].1.data));
                    assert(decreases_to!(*d => ps[k as int].1.data));
                }
                proof {
                    lemma_pairs_value_index(ps@);
                    lemma_pairs_canonical_index(pairs_value(ps@));
                    assert(canonical(pairs_value(ps@)[k as int].1));
                }
                encode_into(&ps[k].1.data, out);
                k = k + 1;
                proof {
                    assert(out@ =~= start + encode_pairs(pairs_value(ps@.subrange(0, k as int))));
                }
            }
            out.push(101u8);
            proof {
                assert(ps@.subrange(0, ps@.len() as int) =~= ps@);
                assert(out@ =~= old(out)@ + encode(d@));
            }
        },
    }
}

impl EntryData {
    /// The bencoding of this value. The value is one that decoding gives (see `canonical`):
    /// dictionary keys unique and in strictly ascending byte order at every level, so they
    /// are written in that order.
    pub fn bencode(&self) -> (r: Vec<u8>)
        requires
            canonical(self@),
        ensures
            r@ == encode(self@),
    {
        let mut out: Vec<u8> = Vec::new();
        encode_into(self, &mut out);
        assert(out@ =~= encode(self@));
        out
    }
}


// ---------------------------------------------------------------------------
// Reading back what was written.

/// `x` stands in `s` at position `p`.
pub open spec fn holds_at(s: Seq<u8>, p: int, x: Seq<u8>) -> bool {
    0 <= p && p + x.len() <= s.len() && s.subrange(p, p + x.len()) == x
}

proof fn lemma_holds_index(s: Seq<u8>, p: int, x: Seq<u8>)
    requires
        holds_at(s, p, x),
    ensures
        forall|j: int| 0 <= j < x.len() ==> s[p + j] == #[trigger] x[j],
{
    assert forall|j: int| 0 <= j < x.len() implies s[p + j] == #[trigger] x[j] by {
        assert(s.subrange(p, p + x.len())[j] == s[p + j]);
    }
}

proof fn lemma_holds_split(s: Seq<u8>, p: int, x: Seq<u8>, y: Seq<u8>)
    requires
        holds_at(s, p, x + y),
    ensures
        holds_at(s, p, x),
        holds_at(s, p + x.len(), y),
{
    lemma_holds_index(s, p, x + y);
    assert(s.subrange(p, p + x.len()) =~= x) by {
        assert forall|j: int| 0 <= j < x.len() implies s.subrange(p, p + x.len())[j] == x[j] by {
            assert((x + y)[j] == x[j]);
        }
    }
    assert(s.subrange(p + x.len(), p + x.len() + y.len()) =~= y) by {
        assert forall|j: int| 0 <= j < y.len() implies s.subrange(p + x.len(), p + x.len() + y.len())[j] == y[j] by {
            assert((x + y)[x.len() + j] == y[j]);
        }
    }
}

proof fn lemma_holds_prefix(s: Seq<u8>, p: int, x: Seq<u8>, n: int)
    requires
        holds_at(s, p, x),
        0 <= n <= x.len(),
    ensures
        holds_at(s, p, x.subrange(0, n)),
{
    assert(x =~= x.subrange(0, n) + x.subrange(n, x.len() as int));
    lemma_holds_split(s, p, x.subrange(0, n), x.subrange(n, x.len() as int));
}

proof fn lemma_find_at(s: Seq<u8>, pos: int, q: int, c: u8)
    requires
        0 <= pos <= q < s.len(),
        s[q] == c,
        forall|j: int| pos <= j < q ==> s[j] != c,
    ensures
        find_byte(s, pos, c) == Some(q),
    decreases q - pos,
{
    if pos < q {
        lemma_find_at(s, pos + 1, q, c);
    }
}

proof fn lemma_decimal(n: nat)
    ensures
        decimal(n).len() >= 1,
        all_digits(decimal(n)),
        digits_value(decimal(n)) == n,
    decreases n,
{
    if n >= 10 {
        lemma_decimal(n / 10);
        let t = decimal(n);
        assert(t.drop_last() =~= decimal(n / 10));
        assert(t.last() == (48 + n % 10) as u8);
        assert((48 + n % 10) as u8 == 48 + n % 10);
        assert(digits_value(t) == digits_value(decimal(n / 10)) * 10 + (t.last() - 48));
        assert forall|i: int| 0 <= i < t.len() implies is_digit(#[trigger] t[i]) by {
            if i < t.len() - 1 {
                assert(t[i] == decimal(n / 10)[i]);
            }
        }
    } else {
        let t = decimal(n);
        assert(t.drop_last() =~= Seq::<u8>::empty());
        assert(digits_value(t.drop_last()) == 0);
        assert(t.last() == 48 + n);
        assert(is_digit(t[0]));
    }
}

/// Decimal digits are ASCII.
pub(crate) proof fn lemma_decimal_ascii(n: nat)
    ensures
        crate::text::is_ascii_bytes(decimal(n)),
    decreases n,
{
    if n >= 10 {
        lemma_decimal_ascii(n / 10);
    }
}

proof fn lemma_signed(i: int)
    requires
        -0x8000_0000_0000_0000 <= i <= 0x7fff_ffff_ffff_ffff,
    ensures
        number_value(signed_decimal(i)) == Some(i),
        forall|j: int| 0 <= j < signed_decimal(i).len() ==> #[trigger] signed_decimal(i)[j] != 101u8,
{
    let t = signed_decimal(i);
    if i < 0 {
        let m = (-i) as nat;
        lemma_decimal(m);
        assert(t.drop_first() =~= decimal(m));
        assert forall|j: int| 0 <= j < t.len() implies #[trigger] t[j] != 101u8 by {
            if j > 0 {
                assert(t[j] == decimal(m)[j - 1]);
                assert(is_digit(decimal(m)[j - 1]));
            }
        }
    } else {
        lemma_decimal(i as nat);
        assert(is_digit(t[0]));
        assert forall|j: int| 0 <= j < t.len() implies #[trigger] t[j] != 101u8 by {
            assert(is_digit(t[j]));
        }
    }
}

proof fn lemma_parse_str_at(b: Seq<u8>, s: Seq<u8>, p: int)
    requires
        holds_at(s, p, str_encoding(b)),
        b.len() <= 0x7fff_ffff_ffff_ffff,
    ensures
        is_digit(s[p]),
        parse_str(s, p) == Ok::<(Seq<u8>, int), DecodeError>((b, p + str_encoding(b).len())),
{
    let dd = decimal(b.len());
    lemma_decimal(b.len());
    lemma_holds_split(s, p, dd + seq![58u8], b);
    lemma_holds_split(s, p, dd, seq![58u8]);
    lemma_holds_index(s, p, dd);
    lemma_holds_index(s, p + dd.len(), seq![58u8]);
    let q = p + dd.len();
    assert(s[q + 0] == seq![58u8][0]);
    assert(s[p + 0] == dd[0]);
    assert forall|j: int| p <= j < q implies s[j] != 58u8 by {
        assert(s[p + (j - p)] == dd[j - p]);
        assert(is_digit(dd[j - p]));
    }
    lemma_find_at(s, p, q, 58u8);
    assert(s.subrange(p, q) == dd);
    assert(is_digit(dd[0]));
    assert(number_value(dd) == Some(b.len() as int));
    assert(s.subrange(q + 1, q + 1 + b.len()) == b);
}

proof fn lemma_encode_first(v: Bencode)
    requires
        canonical(v),
    ensures
        encode(v).len() >= 1,
        encode(v)[0] != 101u8,
{
    match v {
        Bencode::Str(b) => {
            lemma_decimal(b.len());
            assert(encode(v)[0] == decimal(b.len())[0]);
            assert(is_digit(decimal(b.len())[0]));
        },
        _ => {},
    }
}

proof fn lemma_items_canonical_index(items: Seq<Bencode>)
    requires
        items_canonical(items),
    ensures
        forall|i: int| 0 <= i < items.len() ==> canonical(#[trigger] items[i]),
    decreases items.len(),
{
    if items.len() > 0 {
        lemma_items_canonical_index(items.drop_last());
        assert forall|i: int| 0 <= i < items.len() implies canonical(#[trigger] items[i]) by {
            if i < items.len() - 1 {
                assert(items[i] == items.drop_last()[i]);
            }
        }
    }
}

proof fn lemma_pairs_canonical_index(ps: Seq<(Seq<u8>, Bencode)>)
    requires
        pairs_canonical(ps),
    ensures
        forall|i: int| 0 <= i < ps.len() ==> canonical(#[trigger] ps[i].1) && ps[i].0.len() <= 0x7fff_ffff_ffff_ffff,
        forall|i: int| 0 < i < ps.len() ==> lex_lt(ps[i - 1].0, #[trigger] ps[i].0),
    decreases ps.len(),
{
    if ps.len() > 0 {
        let dl = ps.drop_last();
        lemma_pairs_canonical_index(dl);
        assert(pairs_canonical(dl) && ps.last().0.len() <= 0x7fff_ffff_ffff_ffff && canonical(ps.last().1));
        assert forall|i: int| 0 <= i < ps.len() implies canonical(#[trigger] ps[i].1) && ps[i].0.len() <= 0x7fff_ffff_ffff_ffff by {
            if i < ps.len() - 1 {
                assert(ps[i] == dl[i]);
            } else {
                assert(ps[i] == ps.last());
            }
        }
        assert forall|i: int| 0 < i < ps.len() implies lex_lt(ps[i - 1].0, #[trigger] ps[i].0) by {
            if i < ps.len() - 1 {
                assert(ps[i] == dl[i]);
                assert(ps[i - 1] == dl[i - 1]);
            }
        }
    }
}

proof fn lemma_items_prefix(items: Seq<Bencode>, k: int)
    requires
        0 <= k <= items.len(),
    ensures
        encode_items(items.subrange(0, k)).len() <= encode_items(items).len(),
        encode_items(items).subrange(0, encode_items(items.subrange(0, k)).len() as int) == encode_items(items.subrange(0, k)),
    decreases items.len(),
{
    if k == items.len() {
        assert(items.subrange(0, k) =~= items);
        assert(encode_items(items).subrange(0, encode_items(items).len() as int) =~= encode_items(items));
    } else {
        let dl = items.drop_last();
        lemma_items_prefix(dl, k);
        assert(dl.subrange(0, k) =~= items.subrange(0, k));
        let a = encode_items(dl);
        let n = encode_items(items.subrange(0, k)).len() as int;
        assert((a + encode(items.last())).subrange(0, n) =~= a.subrange(0, n));
    }
}

proof fn lemma_pairs_prefix(ps: Seq<(Seq<u8>, Bencode)>, k: int)
    requires
        0 <= k <= ps.len(),
    ensures
        encode_pairs(ps.subrange(0, k)).len() <= encode_pairs(ps).len(),
        encode_pairs(ps).subrange(0, encode_pairs(ps.subrange(0, k)).len() as int) == encode_pairs(ps.subrange(0, k)),
    decreases ps.len(),
{
    if k == ps.len() {
        assert(ps.subrange(0, k) =~= ps);
        assert(encode_pairs(ps).subrange(0, encode_pairs(ps).len() as int) =~= encode_pairs(ps));
    } else {
        let dl = ps.drop_last();
        lemma_pairs_prefix(dl, k);
        assert(dl.subrange(0, k) =~= ps.subrange(0, k));
        let a = encode_pairs(dl);
        let n = encode_pairs(ps.subrange(0, k)).len() as int;
        assert((a + str_encoding(ps.last().0) + encode(ps.last().1)).subrange(0, n) =~= a.subrange(0, n));
    }
}

proof fn lemma_parse_encoded(v: Bencode, s: Seq<u8>, p: int)
    requires
        canonical(v),
        holds_at(s, p, encode(v)),
    ensures
        parse_value(s, p) == Ok::<(Bencode, int), DecodeError>((v, p + encode(v).len())),
    decreases v, 0int,
{
    match v {
        Bencode::Str(b) => {
            lemma_parse_str_at(b, s, p);
        },
        Bencode::Int(i) => {
            let sd = signed_decimal(i);
            lemma_signed(i);
            lemma_holds_split(s, p, seq![105u8] + sd, seq![101u8]);
            lemma_holds_split(s, p, seq![105u8], sd);
            lemma_holds_index(s, p, seq![105u8]);
            lemma_holds_index(s, p + 1, sd);
            lemma_holds_index(s, p + 1 + sd.len(), seq![101u8]);
            let q = p + 1 + sd.len();
            assert(s[q + 0] == seq![101u8][0]);
            assert(s[p + 0] == seq![105u8][0]);
            assert forall|j: int| p + 1 <= j < q implies s[j] != 101u8 by {
                assert(s[p + 1 + (j - p - 1)] == sd[j - p - 1]);
            }
            lemma_find_at(s, p + 1, q, 101u8);
            assert(s.subrange(p + 1, q) == sd);
        },
        Bencode::List(items) => {
            let ei = encode_items(items);
            assert(seq![108u8] + ei + seq![101u8] =~= seq![108u8] + (ei + seq![101u8]));
            lemma_holds_split(s, p, seq![108u8], ei + seq![101u8]);
            lemma_holds_index(s, p, seq![108u8]);
            assert(s[p + 0] == seq![108u8][0]);
            lemma_parse_items(items, s, p + 1, 0);
            assert(items.subrange(0, 0) =~= Seq::<Bencode>::empty());
        },
        Bencode::Dict(ps) => {
            let ep = encode_pairs(ps);
            assert(seq![100u8] + ep + seq![101u8] =~= seq![100u8] + (ep + seq![101u8]));
            lemma_holds_split(s, p, seq![100u8], ep + seq![101u8]);
            lemma_holds_index(s, p, seq![100u8]);
            assert(s[p + 0] == seq![100u8][0]);
            lemma_parse_pairs(ps, s, p + 1, 0);
            assert(ps.subrange(0, 0) =~= Seq::<(Seq<u8>, Bencode)>::empty());
        },
    }
}

proof fn lemma_parse_items(items: Seq<Bencode>, s: Seq<u8>, start: int, k: int)
    requires
        items_canonical(items),
        0 <= k <= items.len(),
        holds_at(s, start, encode_items(items) + seq![101u8]),
    ensures
        parse_list(s, start + encode_items(items.subrange(0, k)).len(), items.subrange(0, k))
            == Ok::<(Bencode, int), DecodeError>((Bencode::List(items), start + encode_items(items).len() + 1)),
    decreases items, items.len() - k,
{
    let ei = encode_items(items);
    lemma_holds_split(s, start, ei, seq![101u8]);
    lemma_holds_index(s, start + ei.len(), seq![101u8]);
    assert(s[start + ei.len() + 0] == seq![101u8][0]);
    if k == items.len() {
        assert(items.subrange(0, k) =~= items);
    } else {
        let sub = items.subrange(0, k + 1);
        assert(sub.drop_last() =~= items.subrange(0, k));
        assert(sub.last() == items[k]);
        let ek = encode_items(items.subrange(0, k));
        let v = items[k];
        assert(encode_items(sub) == ek + encode(v));
        lemma_items_prefix(items, k + 1);
        lemma_holds_prefix(s, start, ei, encode_items(sub).len() as int);
        lemma_holds_split(s, start, ek, encode(v));
        lemma_items_canonical_index(items);
        assert(decreases_to!(items => items[k]));
        lemma_parse_encoded(v, s, start + ek.len());
        lemma_encode_first(v);
        lemma_holds_index(s, start + ek.len(), encode(v));
        assert(items.subrange(0, k).push(v) =~= sub);
        lemma_parse_items(items, s, start, k + 1);
    }
}

proof fn lemma_parse_pairs(ps: Seq<(Seq<u8>, Bencode)>, s: Seq<u8>, start: int, k: int)
    requires
        pairs_canonical(ps),
        0 <= k <= ps.len(),
        holds_at(s, start, encode_pairs(ps) + seq![101u8]),
    ensures
        parse_dict(s, start + encode_pairs(ps.subrange(0, k)).len(), ps.subrange(0, k))
            == Ok::<(Bencode, int), DecodeError>((Bencode::Dict(ps), start + encode_pairs(ps).len() + 1)),
    decreases ps, ps.len() - k,
{
    let ep = encode_pairs(ps);
    lemma_holds_split(s, start, ep, seq![101u8]);
    lemma_holds_index(s, start + ep.len(), seq![101u8]);
    assert(s[start + ep.len() + 0] == seq![101u8][0]);
    if k == ps.len() {
        assert(ps.subrange(0, k) =~= ps);
    } else {
        let sub = ps.subrange(0, k + 1);
        assert(sub.drop_last() =~= ps.subrange(0, k));
        assert(sub.last() == ps[k]);
        let ek = encode_pairs(ps.subrange(0, k));
        let key = ps[k].0;
        let v = ps[k].1;
        assert(encode_pairs(sub) == ek + str_encoding(key) + encode(v));
        lemma_pairs_prefix(ps, k + 1);
        lemma_holds_prefix(s, start, ep, encode_pairs(sub).len() as int);
        lemma_holds_split(s, start, ek + str_encoding(key), encode(v));
        lemma_holds_split(s, start, ek, str_encoding(key));
        lemma_pairs_canonical_index(ps);
        let p = start + ek.len();
        lemma_parse_str_at(key, s, p);
        assert(decreases_to!(ps => ps[k]));
        assert(decreases_to!(ps[k] => ps[k].1));
        lemma_parse_encoded(v, s, p + str_encoding(key).len());
        lemma_encode_first(v);
        let acc = ps.subrange(0, k);
        if k == 0 {
            assert(dict_insert(acc, key, v) =~= acc.push((key, v)));
        } else {
            assert(acc.last() == ps[k - 1]);
            assert(dict_insert(acc, key, v) == acc.push((key, v)));
        }
        assert(acc.push((key, v)) =~= sub);
        lemma_parse_pairs(ps, s, start, k + 1);
    }
}

/// Decoding the encoding of a canonical value gives that value back and consumes exactly
/// its encoding, whatever bytes follow.
pub proof fn lemma_decode_encode(v: Bencode, rest: Seq<u8>)
    requires
        canonical(v),
    ensures
        parse_value(encode(v) + rest, 0) == Ok::<(Bencode, int), DecodeError>((v, encode(v).len() as int)),
{
    let s = encode(v) + rest;
    assert(s.subrange(0, encode(v).len() as int) =~= encode(v));
    lemma_parse_encoded(v, s, 0);
}

/// Decoding a buffer that holds exactly the encoding of a canonical value succeeds with that value.
pub proof fn lemma_decode_complete_encode(v: Bencode)
    requires
        canonical(v),
    ensures
        crate::bencode::parse_complete(encode(v)) == Ok::<Bencode, DecodeError>(v),
{
    lemma_decode_encode(v, Seq::empty());
    assert(encode(v) + Seq::<u8>::empty() =~= encode(v));
}

/// A value decoded from the front of bytes that an encoder wrote re-encodes to exactly the
/// bytes it was decoded from.
pub proof fn lemma_reencode_matches_source(b: Seq<u8>, w: Bencode, v: Bencode, n: int)
    requires
        canonical(w),
        holds_at(b, 0, encode(w)),
        parse_value(b, 0) == Ok::<(Bencode, int), DecodeError>((v, n)),
    ensures
        encode(v) == b.subrange(0, n),
{
    lemma_parse_encoded(w, b, 0);
}

} // verus!
