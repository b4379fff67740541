//! Big-endian byte strings as numbers.

use vstd::prelude::*;

verus! {

/// The number that a big-endian byte string denotes; the empty string is 0.
pub open spec fn be_nat(bytes: Seq<u8>) -> nat
    decreases bytes.len(),
{
    if bytes.len() == 0 {
        0
    } else {
        be_nat(bytes.drop_last()) * 256 + bytes.last() as nat
    }
}

/// The shortest big-endian byte string of `n`: no leading zero byte, and the
/// single byte 0 for zero.
pub open spec fn be_bytes(n: nat) -> Seq<u8>
    decreases n,
{
    if n < 256 {
        seq![n as u8]
    } else {
        be_bytes(n / 256).push((n % 256) as u8)
    }
}

/// The byte string is the shortest one of its number: it is not empty, and
/// it starts with a zero byte only if that is all of it.
pub open spec fn is_shortest(bytes: Seq<u8>) -> bool {
    bytes.len() == 1 || (bytes.len() > 1 && bytes[0] != 0)
}

/// A byte string that starts with a byte other than zero is not zero.
proof fn lemma_be_nat_positive(bytes: Seq<u8>)
    requires
        bytes.len() >= 1,
        bytes[0] != 0,
    ensures
        be_nat(bytes) >= 1,
    decreases bytes.len(),
{
    if bytes.len() == 1 {
        assert(bytes.drop_last().len() == 0);
        assert(be_nat(bytes.drop_last()) == 0);
    } else {
        assert(bytes.drop_last()[0] == bytes[0]);
        lemma_be_nat_positive(bytes.drop_last());
    }
}

/// Writing out the number of a shortest byte string gives the string back.
pub proof fn lemma_be_bytes_of_be_nat(bytes: Seq<u8>)
    requires
        is_shortest(bytes),
    ensures
        be_bytes(be_nat(bytes)) == bytes,
    decreases bytes.len(),
{
    let head = bytes.drop_last();
    let n = be_nat(bytes);
    if bytes.len() == 1 {
        assert(head.len() == 0);
        assert(be_nat(head) == 0);
        assert(n == bytes[0]);
        assert(be_bytes(n) =~= bytes);
    } else {
        assert(head[0] == bytes[0]);
        lemma_be_nat_positive(head);
        lemma_be_bytes_of_be_nat(head);
        let h = be_nat(head);
        assert(n == h * 256 + bytes.last() as nat);
        assert(n >= 256 && n / 256 == h && n % 256 == bytes.last() as nat) by (nonlinear_arith)
            requires
                n == h * 256 + bytes.last() as nat,
                h >= 1,
                bytes.last() < 256,
        ;
        assert(be_bytes(n) == be_bytes(h).push((n % 256) as u8));
        assert(head.push(bytes.last()) =~= bytes);
    }
}

/// The shortest byte string of a number denotes that number.
pub proof fn lemma_be_nat_of_be_bytes(n: nat)
    ensures
        be_nat(be_bytes(n)) == n,
    decreases n,
{
    let bytes = be_bytes(n);
    if n < 256 {
        assert(bytes.drop_last() =~= Seq::<u8>::empty());
        assert(be_nat(bytes.drop_last()) == 0);
    } else {
        lemma_be_nat_of_be_bytes(n / 256);
        assert(bytes.drop_last() =~= be_bytes(n / 256));
        assert(bytes.last() == (n % 256) as u8);
    }
}

} // verus!
