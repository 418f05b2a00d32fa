use vstd::prelude::*;

verus! {

/// Relies on `rand::RngCore::fill_bytes` of `rand::thread_rng()`: it overwrites the buffer
/// with random bytes and keeps its length.
#[verifier::external_body]
fn random_bytes(n: usize) -> (r: Vec<u8>)
    ensures
        r@.len() == n,
{
    let mut buf = vec![0u8; n];
    rand::RngCore::fill_bytes(&mut rand::thread_rng(), &mut buf);
    buf
}

/// The client's peer id: the prefix `rT` followed by the first 18 bytes of `random`.
pub open spec fn peer_id_spec(random: Seq<u8>) -> Seq<u8> {
    seq![114u8, 84u8] + random.subrange(0, 18)
}

/// Builds a peer id from 18 or more random bytes.
pub fn peer_id_from(random: &[u8]) -> (r: Vec<u8>)
    requires
        random@.len() >= 18,
    ensures
        r@ == peer_id_spec(random@),
{
    let mut id: Vec<u8> = Vec::new();
    id.push(114u8);
    id.push(84u8);
    let mut i: usize = 0;
    while i < 18
        invariant
            i <= 18,
            random@.len() >= 18,
            id@ == seq![114u8, 84u8] + random@.subrange(0, i as int),
        decreases 18 - i,
    {
        id.push(random[i]);
        i = i + 1;
        assert(id@ =~= seq![114u8, 84u8] + random@.subrange(0, i as int));
    }
    id
}

/// A fresh peer id: 20 bytes, `rT` and then 18 random bytes.
pub fn gen_peer_id() -> (r: Vec<u8>)
    ensures
        r@.len() == 20,
        r@[0] == 114u8,
        r@[1] == 84u8,
{
    let random = random_bytes(18);
    peer_id_from(random.as_slice())
}

} // verus!
