use vstd::prelude::*;
use crate::text::{ascii_chars, is_ascii_bytes, lossy_string};

verus! {

/// ASCII letters and digits.
pub open spec fn alnum(v: u8) -> bool {
    (48 <= v && v <= 57) || (65 <= v && v <= 90) || (97 <= v && v <= 122)
}

/// Bytes that stand for themselves in a query: letters, digits and `- . _ ~ ! ' ( ) *`.
pub open spec fn passes(v: u8) -> bool {
    alnum(v) || v == 33 || (39 <= v && v <= 42) || v == 45 || v == 46 || v == 95 || v == 126
}

/// The lowercase hexadecimal digit for `n < 16`.
pub open spec fn hex_digit(n: u8) -> u8 {
    if n < 10 {
        (48 + n) as u8
    } else {
        (87 + n) as u8
    }
}

/// A byte as it appears in a query: itself, or `%` and two lowercase hex digits.
pub open spec fn escape_byte(b: u8) -> Seq<u8> {
    if passes(b) {
        seq![b]
    } else {
        seq![37u8, hex_digit(b / 16), hex_digit(b % 16)]
    }
}

/// Bytes percent-encoded for a query.
pub open spec fn url_encoded(b: Seq<u8>) -> Seq<u8>
    decreases b.len(),
{
    if b.len() == 0 {
        Seq::empty()
    } else {
        url_encoded(b.drop_last()) + escape_byte(b.last())
    }
}

fn is_alpha(v: u8) -> (r: bool)
    ensures
        r == alnum(v),
{
    (v >= 48 && v <= 57) || (v >= 65 && v <= 90) || (v >= 97 && v <= 122)
}

fn should_escape(v: u8) -> (r: bool)
    ensures
        r == passes(v),
{
    is_alpha(v) || (v == 33) || (39 <= v && v <= 42) || v == 45 || v == 46 || v == 95 || v == 126
}

fn hex(n: u8) -> (r: u8)
    requires
        n < 16,
    ensures
        r == hex_digit(n),
        r < 128,
{
    if n < 10 {
        48 + n
    } else {
        87 + n
    }
}

/// Appends the percent-encoding of `bytes` to `out`; everything appended is ASCII.
pub(crate) fn push_urlencoded(out: &mut Vec<u8>, bytes: &[u8])
    requires
        is_ascii_bytes(old(out)@),
    ensures
        final(out)@ == old(out)@ + url_encoded(bytes@),
        is_ascii_bytes(final(out)@),
{
    let mut i: usize = 0;
    while i < bytes.len()
        invariant
            i <= bytes@.len(),
            out@ == old(out)@ + url_encoded(bytes@.subrange(0, i as int)),
            is_ascii_bytes(out@),
        decreases bytes@.len() - i,
    {
        let b = bytes[i];
        proof {
            let sub = bytes@.subrange(0, i as int + 1);
            assert(sub.drop_last() =~= bytes@.subrange(0, i as int));
            assert(sub.last() == b);
        }
        if should_escape(b) {
            out.push(b);
        } else {
            out.push(37u8);
            out.push(hex(b / 16));
            out.push(hex(b % 16));
        }
        i = i + 1;
        assert(out@ =~= old(out)@ + url_encoded(bytes@.subrange(0, i as int)));
    }
    assert(bytes@.subrange(0, bytes@.len() as int) =~= bytes@);
}

/// Percent-encodes bytes for a tracker query.
pub fn urlencode(bytes: &[u8]) -> (r: String)
    ensures
        r@ == ascii_chars(url_encoded(bytes@)),
{
    let mut out: Vec<u8> = Vec::new();
    push_urlencoded(&mut out, bytes);
    assert(out@ =~= url_encoded(bytes@));
    lossy_string(out.as_slice())
}

} // verus!
