//! Byte-wise XOR of two plaintexts, which is what a reused keystream leaks.
use vstd::prelude::*;
use vstd::string::StringSliceAdditionalSpecFns;

verus! {

/// The byte-wise XOR of `a` and `b`, as long as the shorter of the two.
pub open spec fn xor_seq(a: Seq<u8>, b: Seq<u8>) -> Seq<u8> {
    Seq::new(
        if a.len() <= b.len() {
            a.len()
        } else {
            b.len()
        },
        |i: int| a[i] ^ b[i],
    )
}

/// XORs `a` and `b` byte by byte, stopping at the end of the shorter one.
pub fn xor(a: Vec<u8>, b: Vec<u8>) -> (r: Vec<u8>)
    ensures
        r@ == xor_seq(a@, b@),
{
    let n: usize = if a.len() <= b.len() {
        a.len()
    } else {
        b.len()
    };
    let mut r: Vec<u8> = Vec::with_capacity(n);
    let mut i: usize = 0;
    while i < n
        invariant
            n <= a.len(),
            n <= b.len(),
            n == xor_seq(a@, b@).len(),
            i <= n,
            r@ == xor_seq(a@, b@).subrange(0, i as int),
        decreases n - i,
    {
        r.push(a[i] ^ b[i]);
        i += 1;
        assert(r@ =~= xor_seq(a@, b@).subrange(0, i as int));
    }
    assert(r@ =~= xor_seq(a@, b@));
    r
}

/// The ciphertext that two known plaintexts of equal length give under one
/// keystream; `None` where their lengths differ.
pub fn xor_strings(a: &str, b: &str) -> (r: Option<Vec<u8>>)
    ensures
        r is Some <==> a.spec_bytes().len() == b.spec_bytes().len(),
        r matches Some(v) ==> v@ == xor_seq(a.spec_bytes(), b.spec_bytes()),
{
    let x = a.as_bytes();
    let y = b.as_bytes();
    if x.len() != y.len() {
        return None;
    }
    let mut r: Vec<u8> = Vec::with_capacity(x.len());
    let mut i: usize = 0;
    while i < x.len()
        invariant
            x@ == a.spec_bytes(),
            y@ == b.spec_bytes(),
            x.len() == y.len(),
            i <= x.len(),
            r@ == xor_seq(x@, y@).subrange(0, i as int),
        decreases x.len() - i,
    {
        r.push(x[i] ^ y[i]);
        i += 1;
        assert(r@ =~= xor_seq(x@, y@).subrange(0, i as int));
    }
    assert(r@ =~= xor_seq(x@, y@));
    Some(r)
}

} // verus!
