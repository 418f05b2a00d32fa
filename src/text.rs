use vstd::prelude::*;
use crate::bencode::{entries_value, pairs_value, Bencode, Entry, EntryData};
use crate::encoder::{push_all, signed_decimal};

verus! {

/// What `String::from_utf8_lossy` makes of some bytes.
pub uninterp spec fn utf8_lossy(b: Seq<u8>) -> Seq<char>;

pub open spec fn is_ascii_bytes(b: Seq<u8>) -> bool {
    forall|i: int| 0 <= i < b.len() ==> #[trigger] b[i] < 128u8
}

/// ASCII bytes read as characters.
pub open spec fn ascii_chars(b: Seq<u8>) -> Seq<char> {
    Seq::new(b.len(), |i: int| b[i] as char)
}

/// Relies on `String::from_utf8_lossy`: the text depends on the bytes alone, and valid UTF-8
/// (ASCII in particular) is kept as it is.
#[verifier::external_body]
pub(crate) fn lossy_string(b: &[u8]) -> (r: String)
    ensures
        r@ == utf8_lossy(b@),
        is_ascii_bytes(b@) ==> r@ == ascii_chars(b@),
{
    String::from_utf8_lossy(b).into_owned()
}

/// The bytes shown for a value: a string as it is, an integer in decimal, and each item of a
/// list or a dictionary after `", "` (a dictionary item as `key: value`).
pub open spec fn render(v: Bencode) -> Seq<u8>
    decreases v, 0int,
{
    match v {
        Bencode::Str(b) => b,
        Bencode::Int(i) => signed_decimal(i),
        Bencode::List(items) => render_items(items),
        Bencode::Dict(ps) => render_pairs(ps),
    }
}

pub open spec fn render_items(items: Seq<Bencode>) -> Seq<u8>
    decreases items, 0int,
{
    if items.len() == 0 {
        Seq::empty()
    } else {
        render_items(items.drop_last()) + seq![44u8, 32u8] + render(items.last())
    }
}

pub open spec fn render_pairs(ps: Seq<(Seq<u8>, Bencode)>) -> Seq<u8>
    decreases ps, 0int,
{
    if ps.len() == 0 {
        Seq::empty()
    } else {
        render_pairs(ps.drop_last()) + seq![44u8, 32u8] + ps.last().0 + seq![58u8, 32u8] + render(ps.last().1)
    }
}

/// The path components `items` joined with `/`, each shown as `render` shows it.
pub open spec fn joined_path(items: Seq<Bencode>) -> Seq<u8>
    decreases items.len(),
{
    if items.len() == 0 {
        Seq::empty()
    } else if items.len() == 1 {
        render(items[0])
    } else {
        joined_path(items.drop_last()) + seq![47u8] + render(items.last())
    }
}

/// The text of a file path entry: a list of components joined with `/`, or the entry's
/// own text when it is not a list.
pub open spec fn path_text(e: Entry) -> Seq<char> {
    match e.data {
        EntryData::List(items) => utf8_lossy(joined_path(entries_value(items@))),
        _ => utf8_lossy(render(e@)),
    }
}

/// The file path held by `e` (see `path_text`).
pub fn path_string(e: &Entry) -> (r: String)
    ensures
        r@ == path_text(*e),
{
    match &e.data {
        EntryData::List(items) => {
            let mut out: Vec<u8> = Vec::new();
            let mut k: usize = 0;
            while k < items.len()
                invariant
                    k <= items@.len(),
                    out@ == joined_path(entries_value(items@.subrange(0, k as int))),
                decreases items@.len() - k,
            {
                proof {
                    let sub = items@.subrange(0, k as int + 1);
                    assert(sub.drop_last() =~= items@.subrange(0, k as int));
                    assert(sub.last() == items@[k as int]);
                    assert(entries_value(sub).drop_last() =~= entries_value(sub.drop_last()));
                    crate::bencode::lemma_entries_len(sub);
                }
                if k > 0 {
                    out.push(47u8);
                }
                let ghost before = out@;
                render_into(&items[k].data, &mut out);
                k = k + 1;
                proof {
                    let sub = items@.subrange(0, k as int);
                    crate::bencode::lemma_entries_len(items@.subrange(0, k - 1));
                    if k == 1 {
                        assert(entries_value(items@.subrange(0, 0)) =~= Seq::<Bencode>::empty());
                        assert(entries_value(sub) =~= seq![items@[0]@]);
                        assert(out@ =~= joined_path(entries_value(sub)));
                    } else {
                        assert(out@ =~= joined_path(entries_value(sub)));
                    }
                }
            }
            assert(items@.subrange(0, items@.len() as int) =~= items@);
            lossy_string(out.as_slice())
        },
        _ => e.data.to_string(),
    }
}

fn render_into(d: &EntryData, out: &mut Vec<u8>)
    ensures
        final(out)@ == old(out)@ + render(d@),
    decreases d,
{
    match d {
        EntryData::Str(b) => {
            push_all(out, b.as_slice());
        },
        EntryData::Int(i) => {
            crate::encoder::push_signed(out, *i);
        },
        EntryData::List(items) => {
            let ghost start = out@;
            let mut k: usize = 0;
            while k < items.len()
                invariant
                    k <= items@.len(),
                    *d == EntryData::List(*items),
                    out@ == start + render_items(entries_value(items@.subrange(0, k as int))),
                decreases items@.len() - k,
            {
                proof {
                    let sub = items@.subrange(0, k as int + 1);
                    assert(sub.drop_last() =~= items@.subrange(0, k as int));
                    assert(sub.last() == items@[k as int]);
                    assert(entries_value(sub).drop_last() =~= entries_value(sub.drop_last()));
                    vstd::std_specs::vec::axiom_vec_index_decreases(*items, k as int);
                    assert(decreases_to!(*d => (*d)->List_0));
                    assert(decreases_to!(items[k as int] => items[k as int].data));
                }
                out.push(44u8);
                out.push(32u8);
                render_into(&items[k].data, out);
                k = k + 1;
                proof {
                    assert(out@ =~= start + render_items(entries_value(items@.subrange(0, k as int))));
                }
            }
            proof {
                assert(items@.subrange(0, items@.len() as int) =~= items@);
            }
        },
        EntryData::Dictionary(ps) => {
            let ghost start = out@;
            let mut k: usize = 0;
            while k < ps.len()
                invariant
                    k <= ps@.len(),
                    *d == EntryData::Dictionary(*ps),
                    out@ == start + render_pairs(pairs_value(ps@.subrange(0, k as int))),
                decreases ps@.len() - k,
            {
                proof {
                    let sub = ps@.subrange(0, k as int + 1);
                    assert(sub.drop_last() =~= ps@.subrange(0, k as int));
                    assert(sub.last() == ps@[k as int]);
                    assert(pairs_value(sub).drop_last() =~= pairs_value(sub.drop_last()));
                    vstd::std_specs::vec::axiom_vec_index_decreases(*ps, k as int);
                    assert(decreases_to!(*d => (*d)->Dictionary_0));
                    assert(decreases_to!(ps[k as int] => ps[k as int].1.data));
                }
                out.push(44u8);
                out.push(32u8);
                push_all(out, ps[k].0.as_slice());
                out.push(58u8);
                out.push(32u8);
                render_into(&ps[k].1.data, out);
                k = k + 1;
                proof {
                    assert(out@ =~= start + render_pairs(pairs_value(ps@.subrange(0, k as int))));
                }
            }
            proof {
                assert(ps@.subrange(0, ps@.len() as int) =~= ps@);
            }
        },
    }
}

impl EntryData {
    /// The value as text: the bytes that `render` gives, read as UTF-8 with invalid
    /// sequences replaced.
    pub fn to_string(&self) -> (r: String)
        ensures
            r@ == utf8_lossy(render(self@)),
    {
        let mut out: Vec<u8> = Vec::new();
        render_into(self, &mut out);
        assert(out@ =~= render(self@));
        lossy_string(out.as_slice())
    }
}

impl Entry {
    /// The entry's value as text (see `EntryData::to_string`).
    pub fn to_string(&self) -> (r: String)
        ensures
            r@ == utf8_lossy(render(self@)),
    {
        self.data.to_string()
    }
}

} // verus!
