use vstd::prelude::*;

verus! {

/// Whether bit `r` (0 = most significant) of byte `b` is set.
pub open spec fn byte_bit(b: u8, r: int) -> bool {
    (b >> ((7 - r) as u8)) & 1u8 == 1u8
}

/// Whether piece `i` is marked in the big-endian bit layout `data`.
pub open spec fn bit_at(data: Seq<u8>, i: int) -> bool {
    0 <= i && i / 8 < data.len() && byte_bit(data[i / 8], i % 8)
}

/// The mask that selects bit `r` (0 = most significant) of a byte.
pub open spec fn mask_of(r: int) -> u8 {
    (1u8 << ((7 - r) as u8)) as u8
}

/// A fixed-size set of piece indices, one bit per piece, most significant bit first.
#[derive(Clone, Debug)]
pub struct Bitfield {
    data: Vec<u8>,
}

impl View for Bitfield {
    type V = Seq<u8>;

    closed spec fn view(&self) -> Seq<u8> {
        self.data@
    }
}

proof fn lemma_mask(b: u8, r: u8)
    requires
        r < 8,
    ensures
        byte_bit(b | mask_of(r as int), r as int),
        forall|q: u8| q < 8 && q != r ==> byte_bit(b | mask_of(r as int), q as int) == byte_bit(b, q as int),
        (b & mask_of(r as int) != 0) == byte_bit(b, r as int),
{
    assert(((b | ((1u8 << (7 - r) as u8) as u8)) >> ((7 - r) as u8)) & 1u8 == 1u8) by (bit_vector)
        requires r < 8;
    assert forall|q: u8| q < 8 && q != r implies byte_bit(b | mask_of(r as int), q as int) == byte_bit(b, q as int) by {
        assert((((b | ((1u8 << (7 - r) as u8) as u8)) >> ((7 - q) as u8)) & 1u8 == 1u8) == (((b >> ((7 - q) as u8)) & 1u8) == 1u8)) by (bit_vector)
            requires r < 8, q < 8, q != r;
    }
    assert(((b & ((1u8 << (7 - r) as u8) as u8)) != 0) == (((b >> ((7 - r) as u8)) & 1u8) == 1u8)) by (bit_vector)
        requires r < 8;
}

impl Bitfield {
    /// Wraps the raw bytes of a `bitfield` message.
    pub fn new(data: Vec<u8>) -> (r: Bitfield)
        ensures
            r@ == data@,
    {
        Bitfield { data: data }
    }

    /// A bitfield with no piece set, able to hold `pieces` pieces (`ceil(pieces / 8)` bytes).
    pub fn empty(pieces: usize) -> (r: Bitfield)
        ensures
            r@.len() == (pieces as int + 7) / 8,
            forall|i: int| !bit_at(r@, i),
    {
        let n: usize = pieces / 8 + if pieces % 8 == 0 { 0 } else { 1 };
        let mut data: Vec<u8> = Vec::new();
        let mut k: usize = 0;
        while k < n
            invariant
                k <= n,
                data@.len() == k,
                forall|j: int| 0 <= j < k ==> data@[j] == 0u8,
            decreases n - k,
        {
            data.push(0u8);
            k = k + 1;
        }
        assert forall|i: int| !bit_at(data@, i) by {
            if 0 <= i && i / 8 < data@.len() {
                let r: u8 = (i % 8) as u8;
                assert(((0u8 >> ((7 - r) as u8)) & 1u8) == 0u8) by (bit_vector);
            }
        }
        Bitfield { data: data }
    }

    /// Byte index that holds piece `piece`.
    fn chunk(piece: usize) -> (r: usize)
        ensures
            r == piece / 8,
    {
        piece / 8
    }

    /// Bit position of piece `piece` within its byte.
    fn bit(piece: usize) -> (r: usize)
        ensures
            r == piece % 8,
    {
        piece % 8
    }

    /// Whether piece `piece` is marked; indices past the end read as unmarked.
    pub fn get(&self, piece: usize) -> (r: bool)
        ensures
            r == bit_at(self@, piece as int),
    {
        let idx = Bitfield::chunk(piece);
        if idx >= self.data.len() {
            false
        } else {
            let bit = Bitfield::bit(piece);
            let sh: u8 = (7 - bit) as u8;
            let mask: u8 = 1u8 << sh;
            proof {
                lemma_mask(self.data@[idx as int], bit as u8);
            }
            self.data[idx] & mask != 0
        }
    }

    /// Marks piece `piece`; every other piece keeps its state.
    pub fn set(&mut self, piece: usize)
        requires
            (piece as int) / 8 < old(self)@.len(),
        ensures
            final(self)@.len() == old(self)@.len(),
            final(self)@ == old(self)@.update(
                piece as int / 8,
                old(self)@[piece as int / 8] | mask_of(piece as int % 8),
            ),
            bit_at(final(self)@, piece as int),
            forall|j: int| j != piece ==> bit_at(final(self)@, j) == bit_at(old(self)@, j),
    {
        let idx = Bitfield::chunk(piece);
        let bit = Bitfield::bit(piece);
        let sh: u8 = (7 - bit) as u8;
        let mask: u8 = 1u8 << sh;
        let old_byte = self.data[idx];
        proof {
            lemma_mask(old_byte, bit as u8);
        }
        self.data.set(idx, old_byte | mask);
        proof {
            assert forall|j: int| j != piece implies bit_at(self@, j) == bit_at(old(self)@, j) by {
                if 0 <= j && j / 8 == idx as int {
                    assert((j % 8) as u8 != bit as u8);
                }
            }
        }
    }

    /// A copy with the same bytes.
    pub fn copy(&self) -> (r: Bitfield)
        ensures
            r@ == self@,
    {
        Bitfield { data: vstd::slice::slice_to_vec(self.data.as_slice()) }
    }

    /// Number of bytes held.
    pub fn len(&self) -> (r: usize)
        ensures
            r == self@.len(),
    {
        self.data.len()
    }
}

} // verus!
