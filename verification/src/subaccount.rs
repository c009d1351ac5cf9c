//! How the pool numbers its subaccounts: a counter, written big-endian
//! into the last eight of 32 bytes.

use vstd::prelude::*;
use vstd::arithmetic::div_mod::lemma_div_denominator;
use crate::types::Subaccount;

verus! {

/// Byte `i` of the subaccount with number `id`.
pub open spec fn subaccount_byte(id: u64, i: int) -> u8 {
    if i == 24 {
        (id / 0x100_0000_0000_0000 % 0x100) as u8
    } else if i == 25 {
        (id / 0x1_0000_0000_0000 % 0x100) as u8
    } else if i == 26 {
        (id / 0x100_0000_0000 % 0x100) as u8
    } else if i == 27 {
        (id / 0x1_0000_0000 % 0x100) as u8
    } else if i == 28 {
        (id / 0x100_0000 % 0x100) as u8
    } else if i == 29 {
        (id / 0x1_0000 % 0x100) as u8
    } else if i == 30 {
        (id / 0x100 % 0x100) as u8
    } else if i == 31 {
        (id % 0x100) as u8
    } else {
        0u8
    }
}

/// The 32 bytes of the subaccount with number `id`: 24 zero bytes, then
/// `id` with its most significant byte first.
pub open spec fn subaccount_bytes(id: u64) -> Seq<u8> {
    Seq::new(32, |i: int| subaccount_byte(id, i))
}

/// The number that the last eight bytes of a subaccount spell.
pub open spec fn subaccount_number(bytes: Seq<u8>) -> int {
    bytes[24] * 0x100_0000_0000_0000 + bytes[25] * 0x1_0000_0000_0000 + bytes[26]
        * 0x100_0000_0000 + bytes[27] * 0x1_0000_0000 + bytes[28] * 0x100_0000 + bytes[29]
        * 0x1_0000 + bytes[30] * 0x100 + bytes[31]
}

/// Whether `bytes` is the subaccount of some number below `next`.
pub open spec fn issued_before(bytes: Seq<u8>, next: u64) -> bool {
    &&& 0 <= subaccount_number(bytes) < next
    &&& bytes == subaccount_bytes(subaccount_number(bytes) as u64)
}

/// A subaccount spells the number it was made from.
pub proof fn lemma_subaccount_number(id: u64)
    ensures
        subaccount_number(subaccount_bytes(id)) == id,
        subaccount_bytes(id).len() == 32,
{
    let q0: int = id as int;
    let q1: int = q0 / 0x100;
    let q2: int = q1 / 0x100;
    let q3: int = q2 / 0x100;
    let q4: int = q3 / 0x100;
    let q5: int = q4 / 0x100;
    let q6: int = q5 / 0x100;
    let q7: int = q6 / 0x100;
    assert(q2 == q0 / 0x1_0000) by {
        lemma_div_denominator(q0, 0x100, 0x100);
    }
    assert(q3 == q0 / 0x100_0000) by {
        lemma_div_denominator(q0, 0x1_0000, 0x100);
    }
    assert(q4 == q0 / 0x1_0000_0000) by {
        lemma_div_denominator(q0, 0x100_0000, 0x100);
    }
    assert(q5 == q0 / 0x100_0000_0000) by {
        lemma_div_denominator(q0, 0x1_0000_0000, 0x100);
    }
    assert(q6 == q0 / 0x1_0000_0000_0000) by {
        lemma_div_denominator(q0, 0x100_0000_0000, 0x100);
    }
    assert(q7 == q0 / 0x100_0000_0000_0000) by {
        lemma_div_denominator(q0, 0x1_0000_0000_0000, 0x100);
    }
    assert(q7 < 0x100);
    let b = subaccount_bytes(id);
    assert(b[31] == q0 % 0x100);
    assert(b[30] == q1 % 0x100);
    assert(b[29] == q2 % 0x100);
    assert(b[28] == q3 % 0x100);
    assert(b[27] == q4 % 0x100);
    assert(b[26] == q5 % 0x100);
    assert(b[25] == q6 % 0x100);
    assert(b[24] == q7 % 0x100);
    assert(q0 == 0x100 * q1 + b[31]);
    assert(q1 == 0x100 * q2 + b[30]);
    assert(q2 == 0x100 * q3 + b[29]);
    assert(q3 == 0x100 * q4 + b[28]);
    assert(q4 == 0x100 * q5 + b[27]);
    assert(q5 == 0x100 * q6 + b[26]);
    assert(q6 == 0x100 * q7 + b[25]);
    assert(q7 == b[24]);
}

/// Subaccounts are issued in strictly increasing order, so no two numbers
/// share one.
pub proof fn lemma_subaccounts_increase(earlier: u64, later: u64)
    requires
        earlier < later,
    ensures
        subaccount_number(subaccount_bytes(earlier)) < subaccount_number(subaccount_bytes(later)),
        subaccount_bytes(earlier) != subaccount_bytes(later),
{
    lemma_subaccount_number(earlier);
    lemma_subaccount_number(later);
}

/// A subaccount issued before `next` is not the one with number `next`.
pub proof fn lemma_issued_is_not_next(bytes: Seq<u8>, next: u64)
    requires
        issued_before(bytes, next),
    ensures
        bytes != subaccount_bytes(next),
{
    lemma_subaccount_number(next);
}

/// The subaccount with number `id`.
pub fn subaccount_of(id: u64) -> (subaccount: Subaccount)
    ensures
        subaccount@ == subaccount_bytes(id),
{
    let mut subaccount: Subaccount = [0u8; 32];
    subaccount[24] = (id / 0x100_0000_0000_0000 % 0x100) as u8;
    subaccount[25] = (id / 0x1_0000_0000_0000 % 0x100) as u8;
    subaccount[26] = (id / 0x100_0000_0000 % 0x100) as u8;
    subaccount[27] = (id / 0x1_0000_0000 % 0x100) as u8;
    subaccount[28] = (id / 0x100_0000 % 0x100) as u8;
    subaccount[29] = (id / 0x1_0000 % 0x100) as u8;
    subaccount[30] = (id / 0x100 % 0x100) as u8;
    subaccount[31] = (id % 0x100) as u8;
    assert(subaccount@ =~= subaccount_bytes(id));
    subaccount
}

} // verus!
