//! Sets of indices below 64 as the bits of a machine word.

use vstd::prelude::*;

verus! {

/// Bit `i` of `x` is set.
pub open spec fn bit(x: u64, i: u64) -> bool {
    (x >> i) & 1 == 1
}

/// The set that an identifier stands for: the positions of its set bits.
pub open spec fn members_of(x: u64) -> Set<usize> {
    Set::new(|i: usize| i < 64 && bit(x, i as u64))
}

/// The identifier of the members of `s` below `n`: each sets its own bit.
pub open spec fn identifier_below(s: Set<usize>, n: nat) -> u64
    decreases n,
{
    if n == 0 {
        0
    } else {
        let rest = identifier_below(s, (n - 1) as nat);
        if s.contains((n - 1) as usize) {
            rest | (1u64 << ((n - 1) as u64))
        } else {
            rest
        }
    }
}

/// The identifier that stands for a set of indices below 64.
pub open spec fn identifier_of(s: Set<usize>) -> u64 {
    identifier_below(s, 64)
}

/// A bit of `a | b` is set when it is set in `a` or in `b`.
pub proof fn lemma_bit_or(a: u64, b: u64, i: u64)
    by (bit_vector)
    requires
        i < 64,
    ensures
        bit(a | b, i) == (bit(a, i) || bit(b, i)),
{
}

/// `1 << i` has bit `i` and no other.
pub proof fn lemma_bit_single(i: u64, j: u64)
    by (bit_vector)
    requires
        i < 64,
        j < 64,
    ensures
        bit(1u64 << i, j) == (i == j),
{
}

/// Zero has no bit.
pub proof fn lemma_bit_zero(i: u64)
    by (bit_vector)
    requires
        i < 64,
    ensures
        !bit(0, i),
{
}

/// The part of `x` below bit `n`.
spec fn low(x: u64, n: u64) -> u64 {
    x & (((1u64 << n) - 1) as u64)
}

/// Below bit 0 there is nothing to differ in.
proof fn lemma_low_none(a: u64, b: u64)
    by (bit_vector)
    ensures
        low(a, 0) == low(b, 0),
{
}

/// Two words that agree below bit `n` and in bit `n` agree below bit `n + 1`.
proof fn lemma_low_step(a: u64, b: u64, n: u64)
    by (bit_vector)
    requires
        n < 63,
        low(a, n) == low(b, n),
        bit(a, n) == bit(b, n),
    ensures
        low(a, (n + 1) as u64) == low(b, (n + 1) as u64),
{
}

/// Two words that agree below bit 63 and in bit 63 are equal.
proof fn lemma_low_all(a: u64, b: u64)
    by (bit_vector)
    requires
        low(a, 63) == low(b, 63),
        bit(a, 63) == bit(b, 63),
    ensures
        a == b,
{
}

/// Two words with the same bits agree below every bit.
proof fn lemma_low_agree(a: u64, b: u64, n: u64)
    requires
        n <= 63,
        forall|i: u64| i < 64 ==> bit(a, i) == bit(b, i),
    ensures
        low(a, n) == low(b, n),
    decreases n,
{
    if n == 0 {
        lemma_low_none(a, b);
    } else {
        lemma_low_agree(a, b, (n - 1) as u64);
        lemma_low_step(a, b, (n - 1) as u64);
    }
}

/// Two words with the same bits are the same word.
pub proof fn lemma_bits_determine(a: u64, b: u64)
    requires
        forall|i: u64| i < 64 ==> bit(a, i) == bit(b, i),
    ensures
        a == b,
{
    lemma_low_agree(a, b, 63);
    lemma_low_all(a, b);
}

/// Two identifiers that stand for the same set are equal.
pub proof fn lemma_members_determine(a: u64, b: u64)
    requires
        members_of(a) == members_of(b),
    ensures
        a == b,
{
    assert forall|i: u64| i < 64 implies bit(a, i) == bit(b, i) by {
        let k = i as usize;
        assert(k as u64 == i);
        assert(members_of(a).contains(k) == bit(a, i));
        assert(members_of(b).contains(k) == bit(b, i));
    }
    lemma_bits_determine(a, b);
}

/// The bits of `identifier_below`: those of the members below `n`.
proof fn lemma_identifier_below(s: Set<usize>, n: nat, i: u64)
    requires
        n <= 64,
        i < 64,
    ensures
        bit(identifier_below(s, n), i) == (i < n && s.contains(i as usize)),
    decreases n,
{
    if n == 0 {
        lemma_bit_zero(i);
    } else {
        let rest = identifier_below(s, (n - 1) as nat);
        lemma_identifier_below(s, (n - 1) as nat, i);
        if s.contains((n - 1) as usize) {
            lemma_bit_or(rest, 1u64 << ((n - 1) as u64), i);
            lemma_bit_single((n - 1) as u64, i);
        }
    }
}

/// The identifier of a set stands for the part of the set below 64.
pub proof fn lemma_members_of_identifier(s: Set<usize>)
    ensures
        forall|i: usize| members_of(identifier_of(s)).contains(i) == (i < 64 && s.contains(i)),
        (forall|i: usize| s.contains(i) ==> i < 64) ==> members_of(identifier_of(s)) == s,
{
    assert forall|i: usize| members_of(identifier_of(s)).contains(i) == (i < 64 && s.contains(i)) by {
        if i < 64 {
            lemma_identifier_below(s, 64, i as u64);
        }
    }
    if forall|i: usize| s.contains(i) ==> i < 64 {
        assert(members_of(identifier_of(s)) =~= s);
    }
}

/// An identifier is the identifier of the set it stands for.
pub proof fn lemma_identifier_of_members(x: u64)
    ensures
        identifier_of(members_of(x)) == x,
{
    lemma_members_of_identifier(members_of(x));
    lemma_members_determine(identifier_of(members_of(x)), x);
}

/// Bit `i` is set exactly when masking with it leaves something.
pub proof fn lemma_bit_mask(x: u64, i: u64)
    by (bit_vector)
    requires
        i < 64,
    ensures
        bit(x, i) == (x & (1u64 << i) != 0),
{
}

/// A bit of `x & !a` is set when it is set in `x` and not in `a`.
proof fn lemma_bit_outside(x: u64, a: u64, i: u64)
    by (bit_vector)
    requires
        i < 64,
    ensures
        bit(x & !a, i) == (bit(x, i) && !bit(a, i)),
{
}

/// One set is part of another exactly when its identifier has no bit that
/// the other lacks.
pub proof fn lemma_subset_mask(x: u64, a: u64)
    ensures
        members_of(x).subset_of(members_of(a)) <==> x & !a == 0,
{
    let extra = x & !a;
    if members_of(x).subset_of(members_of(a)) {
        assert forall|i: u64| i < 64 implies bit(extra, i) == bit(0, i) by {
            lemma_bit_outside(x, a, i);
            lemma_bit_zero(i);
            let k = i as usize;
            assert(k as u64 == i);
            assert(members_of(x).contains(k) ==> members_of(a).contains(k));
        }
        lemma_bits_determine(extra, 0);
    }
    if extra == 0 {
        assert forall|k: usize| members_of(x).contains(k) implies members_of(a).contains(k) by {
            lemma_bit_outside(x, a, k as u64);
            lemma_bit_zero(k as u64);
        }
    }
}

/// The next identifier after `cur`, in increasing order, that has no bit
/// outside `all`.
pub open spec fn next_part(cur: u64, all: u64) -> u64 {
    (((cur | !all) + 1) as u64) & all
}

/// `next_part` can be computed without overflow, and gives a larger part of `all`.
pub proof fn lemma_next_part(cur: u64, all: u64)
    by (bit_vector)
    requires
        cur & !all == 0,
        cur != all,
    ensures
        (cur | !all) < 0xffff_ffff_ffff_ffffu64,
        next_part(cur, all) & !all == 0,
        next_part(cur, all) > cur,
{
}

/// No part of `all` lies between `cur` and `next_part`.
pub proof fn lemma_next_part_is_next(cur: u64, all: u64, y: u64)
    by (bit_vector)
    requires
        cur & !all == 0,
        y & !all == 0,
        y > cur,
    ensures
        y >= next_part(cur, all),
{
}

/// Nothing, and all of it, are parts of `all`.
pub proof fn lemma_trivial_parts(all: u64)
    by (bit_vector)
    ensures
        0u64 & !all == 0,
        all & !all == 0,
{
}

/// A part of `all` is at most `all`.
pub proof fn lemma_part_le(y: u64, all: u64)
    by (bit_vector)
    requires
        y & !all == 0,
    ensures
        y <= all,
{
}

/// Setting one more bit in two identifiers that lack it keeps their order.
pub proof fn lemma_order_with_bit(a: u64, b: u64, s: u64)
    by (bit_vector)
    requires
        s < 64,
        a & (1u64 << s) == 0,
        b & (1u64 << s) == 0,
    ensures
        (a < b) == ((a | (1u64 << s)) < (b | (1u64 << s))),
{
}

/// An identifier within `all` that has bit `s` is that bit and a part of
/// the rest of `all`.
pub proof fn lemma_without_bit(y: u64, all: u64, s: u64)
    by (bit_vector)
    requires
        s < 64,
        y & !all == 0,
        y & (1u64 << s) != 0,
    ensures
        (y & !(1u64 << s)) & !(all & !(1u64 << s)) == 0,
        (y & !(1u64 << s)) & (1u64 << s) == 0,
        (y & !(1u64 << s)) | (1u64 << s) == y,
        (all & !(1u64 << s)) | (1u64 << s) == all,
        y >= (1u64 << s),
        y <= all,
{
}

/// A part of `all` without bit `s`, with that bit set, is within `all` with the bit.
pub proof fn lemma_with_bit(part: u64, all: u64, s: u64)
    by (bit_vector)
    requires
        s < 64,
        all & (1u64 << s) != 0,
        part & !(all & !(1u64 << s)) == 0,
    ensures
        (part | (1u64 << s)) & !all == 0,
        (part | (1u64 << s)) & (1u64 << s) != 0,
        part & (1u64 << s) == 0,
{
}

} // verus!
