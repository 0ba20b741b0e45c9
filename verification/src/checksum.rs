//! The Internet checksum: the ones' complement of the ones' complement sum
//! of the data, taken as 16-bit words with the high byte first.

use vstd::prelude::*;
use vstd::arithmetic::div_mod::{
    lemma_fundamental_div_mod, lemma_mod_multiples_vanish, lemma_small_mod,
};

verus! {

/// What a byte at place `i` counts for in its word: 256-fold at an even
/// place, once at an odd place.
pub open spec fn weight(i: int) -> int {
    if i % 2 == 0 {
        256
    } else {
        1
    }
}

/// The sum of the 16-bit words of `s`, high byte first, a last odd byte
/// counted as the high byte of a word.
pub open spec fn weighted_sum(s: Seq<u8>) -> nat
    decreases s.len(),
{
    if s.len() == 0 {
        0
    } else {
        (weighted_sum(s.drop_last()) + weight(s.len() - 1) * s.last()) as nat
    }
}

/// A sum brought into 16 bits by adding what is carried out of them back
/// in: 0 for 0, and otherwise the number from 1 to 65535 that leaves the
/// same remainder on division by 65535.
pub open spec fn fold(x: nat) -> nat {
    if x == 0 {
        0
    } else {
        ((x - 1) % 65535 + 1) as nat
    }
}

/// The checksum of data whose words sum to `sum`.
pub open spec fn checksum_of(sum: nat) -> nat {
    (65535 - fold(sum)) as nat
}

/// Whether data whose words, checksum included, sum to `sum` carries a
/// right checksum.
pub open spec fn sums_to_valid(sum: nat) -> bool {
    fold(sum) == 65535
}

/// A folded sum fits 16 bits, is zero only for zero, and leaves what fits
/// 16 bits as it is.
pub proof fn lemma_fold_bounds(x: nat)
    ensures
        fold(x) <= 65535,
        x > 0 ==> fold(x) >= 1,
        x <= 65535 ==> fold(x) == x,
{
    if 0 < x <= 65535 {
        lemma_small_mod((x - 1) as nat, 65535);
    }
}

/// Adding the carry back in leaves the folded sum as it is.
pub proof fn lemma_fold_carry(x: nat)
    ensures
        fold((x % 65536 + x / 65536) as nat) == fold(x),
        x >= 65536 ==> x % 65536 + x / 65536 < x,
{
    let lo = x % 65536;
    let hi = x / 65536;
    lemma_fundamental_div_mod(x as int, 65536);
    if x > 0 {
        // x - 1 == (lo + hi - 1) + 65535 * hi
        assert(x - 1 == 65535 * hi + (lo + hi - 1));
        lemma_mod_multiples_vanish(hi as int, (lo + hi - 1) as int, 65535);
    }
}

/// Writing the checksum into data makes the data sum to a valid total.
pub proof fn lemma_checksum_validates(sum: nat)
    ensures
        sums_to_valid(sum + checksum_of(sum)),
        fold(sum) == 65535 ==> sums_to_valid(sum + 65535),
{
    lemma_fold_bounds(sum);
    if sum > 0 {
        let r = (sum - 1) % 65535;
        lemma_fundamental_div_mod(sum - 1, 65535);
        let q = (sum - 1) / 65535;
        // sum + checksum - 1 == 65535 * q + 65534
        assert(sum + checksum_of(sum) - 1 == 65535 * q + 65534);
        lemma_mod_multiples_vanish(q, 65534, 65535);
        lemma_small_mod(65534, 65535);
        if fold(sum) == 65535 {
            assert(sum + 65535 - 1 == 65535 * 1 + (sum - 1));
            lemma_mod_multiples_vanish(1, sum - 1, 65535);
        }
    }
}

/// Replacing one byte changes the sum by what the byte counts for.
pub proof fn lemma_sum_update(s: Seq<u8>, i: int, v: u8)
    requires
        0 <= i < s.len(),
    ensures
        weighted_sum(s.update(i, v)) == weighted_sum(s) - weight(i) * s[i] + weight(i) * v,
        weighted_sum(s) >= weight(i) * s[i],
    decreases s.len(),
{
    let t = s.update(i, v);
    if i == s.len() - 1 {
        assert(t.drop_last() =~= s.drop_last());
    } else {
        assert(t.drop_last() =~= s.drop_last().update(i, v));
        lemma_sum_update(s.drop_last(), i, v);
    }
}

/// No byte counts for more than 255 times 256.
pub proof fn lemma_sum_bound(s: Seq<u8>)
    ensures
        weighted_sum(s) <= 65280 * s.len(),
    decreases s.len(),
{
    if s.len() > 0 {
        lemma_sum_bound(s.drop_last());
    }
}

/// The sum of the 16-bit words of `data[from..to]`.
pub fn sum_range(data: &Vec<u8>, from: usize, to: usize) -> (sum: u64)
    requires
        from <= to <= data.len(),
        to - from <= 0xffff_ffff,
    ensures
        sum == weighted_sum(data@.subrange(from as int, to as int)),
{
    let ghost part = data@.subrange(from as int, to as int);
    let mut sum: u64 = 0;
    let mut i: usize = from;
    assert(part.take(0) =~= Seq::<u8>::empty());
    while i < to
        invariant
            from <= i <= to <= data.len(),
            to - from <= 0xffff_ffff,
            part == data@.subrange(from as int, to as int),
            sum == weighted_sum(part.take(i - from)),
            sum <= 65280 * (i - from),
        decreases to - i,
    {
        proof {
            assert(part.take(i - from + 1).drop_last() =~= part.take(i - from));
        }
        let byte = data[i] as u64;
        if (i - from) % 2 == 0 {
            sum = sum + byte * 256;
        } else {
            sum = sum + byte;
        }
        i += 1;
    }
    assert(part.take(to - from) =~= part);
    sum
}

/// Brings a sum into 16 bits by adding the carry back in.
pub fn fold16(sum: u64) -> (folded: u16)
    ensures
        folded == fold(sum as nat),
{
    let mut x: u64 = sum;
    while x >= 65536
        invariant
            fold(x as nat) == fold(sum as nat),
        decreases x,
    {
        proof {
            lemma_fold_carry(x as nat);
        }
        x = x % 65536 + x / 65536;
    }
    proof {
        lemma_fold_bounds(x as nat);
    }
    x as u16
}

/// The Internet checksum of `data[from..to]`.
pub fn checksum(data: &Vec<u8>, from: usize, to: usize) -> (c: u16)
    requires
        from <= to <= data.len(),
        to - from <= 0xffff_ffff,
    ensures
        c == checksum_of(weighted_sum(data@.subrange(from as int, to as int))),
{
    let folded = fold16(sum_range(data, from, to));
    proof {
        lemma_fold_bounds(weighted_sum(data@.subrange(from as int, to as int)));
    }
    65535 - folded
}

} // verus!
