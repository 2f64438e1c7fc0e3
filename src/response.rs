use vstd::prelude::*;

verus! {

/// Exclusive-or of all bytes of `s`.
pub open spec fn xor_fold(s: Seq<u8>) -> u8
    decreases s.len(),
{
    if s.len() == 0 {
        0
    } else {
        xor_fold(s.drop_last()) ^ s.last()
    }
}

/// Exclusive-or of all bytes, reduced modulo 255.
pub fn get_checksum(val: &[u8]) -> (r: u8)
    ensures
        r == xor_fold(val@) % 255,
{
    let mut c: u8 = 0;
    let mut i: usize = 0;
    while i < val.len()
        invariant
            i <= val@.len(),
            c == xor_fold(val@.take(i as int)),
        decreases val@.len() - i,
    {
        assert(val@.take(i as int + 1).drop_last() == val@.take(i as int));
        c = c ^ val[i];
        i = i + 1;
    }
    assert(val@.take(val@.len() as int) == val@);
    c % 255
}

/// The answer address for a query: `11.b3.b4.sum` once a message completed,
/// `10.b0.b1.b2` otherwise, where `b` are the little-endian bytes of the
/// seconds since the epoch and `sum` the checksum of `b[0..5]`.
pub open spec fn address_spec(complete: bool, time_bytes: Seq<u8>) -> Seq<u8> {
    if complete {
        seq![11u8, time_bytes[3], time_bytes[4], xor_fold(time_bytes.take(5)) % 255]
    } else {
        seq![10u8, time_bytes[0], time_bytes[1], time_bytes[2]]
    }
}

/// Computes the answer address from the completion flag and the time bytes.
pub fn response_address(complete: bool, time_bytes: &[u8; 8]) -> (r: [u8; 4])
    ensures
        r@ == address_spec(complete, time_bytes@),
{
    if complete {
        let head = [time_bytes[0], time_bytes[1], time_bytes[2], time_bytes[3], time_bytes[4]];
        assert(head@ =~= time_bytes@.take(5));
        let sum = get_checksum(&head);
        let r = [11u8, time_bytes[3], time_bytes[4], sum];
        assert(r@ =~= address_spec(complete, time_bytes@));
        r
    } else {
        let r = [10u8, time_bytes[0], time_bytes[1], time_bytes[2]];
        assert(r@ =~= address_spec(complete, time_bytes@));
        r
    }
}

} // verus!
