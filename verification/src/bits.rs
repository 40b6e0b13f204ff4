//! The set bits of a one-byte mask.
use vstd::prelude::*;

verus! {

/// How many bits of `m` are set.
pub open spec fn ones(m: u8) -> u32 {
    ((m & 1) + ((m >> 1u8) & 1) + ((m >> 2u8) & 1) + ((m >> 3u8) & 1) + ((m >> 4u8) & 1) + ((m
        >> 5u8) & 1) + ((m >> 6u8) & 1) + ((m >> 7u8) & 1)) as u32
}

/// The lowest set bit of `m`; nothing when there is none.
pub open spec fn lowest(m: u8) -> u8 {
    if m & 1 != 0 {
        1
    } else if m & 2 != 0 {
        2
    } else if m & 4 != 0 {
        4
    } else if m & 8 != 0 {
        8
    } else if m & 16 != 0 {
        16
    } else if m & 32 != 0 {
        32
    } else if m & 64 != 0 {
        64
    } else if m & 128 != 0 {
        128
    } else {
        0
    }
}

/// The `n`-th set bit of `m`, counted from zero and from the lowest; nothing
/// when there are not as many.
pub open spec fn nth(m: u8, n: nat) -> u8
    decreases n,
{
    if n == 0 {
        lowest(m)
    } else {
        nth(m & !lowest(m), (n - 1) as nat)
    }
}

/// What taking the lowest bit out of a mask does.
proof fn lemma_lowest(m: u8)
    ensures
        ones(m) <= 8,
        m == 0 <==> ones(m) == 0,
        m == 0 <==> lowest(m) == 0,
        m != 0 ==> ones(m & !lowest(m)) == ones(m) - 1,
        m != 0 ==> ones(lowest(m)) == 1,
        lowest(m) & m == lowest(m),
        m & !lowest(m) & m == m & !lowest(m),
        m & !lowest(m) != 0 ==> lowest(m) < lowest(m & !lowest(m)),
{
    assert(ones(m) <= 8 && (m == 0 <==> ones(m) == 0) && (m == 0 <==> lowest(m) == 0) && (m != 0
        ==> ones(m & !lowest(m)) + 1 == ones(m)) && (m != 0 ==> ones(lowest(m)) == 1) && (lowest(m)
        & m == lowest(m)) && (m & !lowest(m) & m == m & !lowest(m)) && (m & !lowest(m) != 0
        ==> lowest(m) < lowest(m & !lowest(m)))) by (bit_vector);
}

/// How many bits are set.
pub fn count_ones(m: u8) -> (r: u32)
    ensures
        r == ones(m),
        r <= 8,
{
    proof {
        assert((m & 1) <= 1 && ((m >> 1u8) & 1) <= 1 && ((m >> 2u8) & 1) <= 1 && ((m >> 3u8) & 1)
            <= 1 && ((m >> 4u8) & 1) <= 1 && ((m >> 5u8) & 1) <= 1 && ((m >> 6u8) & 1) <= 1 && ((m
            >> 7u8) & 1) <= 1) by (bit_vector);
    }
    ((m & 1) + ((m >> 1u8) & 1) + ((m >> 2u8) & 1) + ((m >> 3u8) & 1) + ((m >> 4u8) & 1) + ((m
        >> 5u8) & 1) + ((m >> 6u8) & 1) + ((m >> 7u8) & 1)) as u32
}

/// Isolate the lowest set bit.
pub fn lowest_set_bit(m: u8) -> (r: u8)
    ensures
        r == lowest(m),
{
    let neg: u8 = 0u8.wrapping_sub(m);
    proof {
        if m > 0 {
            assert(m & ((256 - m) as u8) == lowest(m)) by (bit_vector)
                requires
                    m > 0,
            ;
        } else {
            assert(0u8 & 0u8 == lowest(0u8)) by (bit_vector);
        }
    }
    m & neg
}

/// Isolate the `n`-th (zero-indexed) set bit of `mask` as a single-bit `u8`.
pub fn nth_set_bit(mask: u8, n: u32) -> (r: u8)
    requires
        n <= ones(mask),
    ensures
        r == nth(mask, n as nat),
{
    let mut m: u8 = mask;
    let mut i: u32 = 0;
    while i < n
        invariant
            i <= n,
            n - i <= ones(m),
            nth(mask, n as nat) == nth(m, (n - i) as nat),
        decreases n - i,
    {
        proof {
            lemma_lowest(m);
            assert(m & ((m - 1) as u8) == m & !lowest(m)) by (bit_vector)
                requires
                    m != 0,
            ;
        }
        m = m & (m - 1);
        i = i + 1;
    }
    lowest_set_bit(m)
}

/// The `n`-th set bit is one bit, and one of the mask.
pub proof fn law_nth_is_a_member(m: u8, n: nat)
    requires
        n < ones(m),
    ensures
        nth(m, n) != 0,
        ones(nth(m, n)) == 1,
        nth(m, n) & m == nth(m, n),
    decreases n,
{
    lemma_lowest(m);
    if n > 0 {
        let rest = m & !lowest(m);
        law_nth_is_a_member(rest, (n - 1) as nat);
        let b = nth(m, n);
        assert(b & m == b) by (bit_vector)
            requires
                b & rest == b,
                rest & m == rest,
        ;
    }
}

/// The set bits are counted upwards, so that no two of them are the same.
pub proof fn law_nth_goes_up(m: u8, i: nat, j: nat)
    requires
        i < j < ones(m),
    ensures
        nth(m, i) < nth(m, j),
    decreases j,
{
    lemma_lowest(m);
    let rest = m & !lowest(m);
    if i > 0 {
        law_nth_goes_up(rest, (i - 1) as nat, (j - 1) as nat);
    } else {
        lemma_lowest(rest);
        assert(nth(rest, 0) == lowest(rest));
        if j > 1 {
            law_nth_goes_up(rest, 0, (j - 1) as nat);
        }
    }
}

/// Setting one more bit of a mask makes one more set bit; an empty mask has none.
pub proof fn law_each_bit_counts_once(m: u8, b: u8)
    requires
        b == 1 || b == 2 || b == 4 || b == 8 || b == 16 || b == 32 || b == 64 || b == 128,
        m & b == 0,
    ensures
        ones(0) == 0,
        ones(m | b) == ones(m) + 1,
{
    assert(ones(0) == 0) by (bit_vector);
    assert(ones(m | b) == ones(m) + 1) by (bit_vector)
        requires
            b == 1 || b == 2 || b == 4 || b == 8 || b == 16 || b == 32 || b == 64 || b == 128,
            m & b == 0,
    ;
}

/// The lowest set bit of a mask is a single bit of it, and the mask has none
/// below.
pub proof fn law_lowest_is_lowest(m: u8)
    requires
        m != 0,
    ensures
        lowest(m) != 0,
        lowest(m) & m == lowest(m),
        lowest(m) & (lowest(m) - 1) as u8 == 0,
        m & (lowest(m) - 1) as u8 == 0,
{
    lemma_lowest(m);
    let b = lowest(m);
    assert(b & ((b - 1) as u8) == 0 && m & ((b - 1) as u8) == 0) by (bit_vector)
        requires
            b == lowest(m),
            m != 0,
    ;
}

/// The `n`-th set bit has exactly `n` set bits of the mask below it.
pub proof fn law_nth_has_n_below(m: u8, n: nat)
    requires
        n < ones(m),
    ensures
        nth(m, n) != 0,
        ones(m & (nth(m, n) - 1) as u8) == n,
    decreases n,
{
    law_nth_is_a_member(m, n);
    lemma_lowest(m);
    let b = nth(m, n);
    if n == 0 {
        law_lowest_is_lowest(m);
        assert(ones(0) == 0) by (bit_vector);
    } else {
        let low = lowest(m);
        let rest = m & !low;
        law_nth_has_n_below(rest, (n - 1) as nat);
        law_nth_goes_up(m, 0, n);
        assert(ones(m & ((b - 1) as u8)) == ones(rest & ((b - 1) as u8)) + 1) by (bit_vector)
            requires
                low == lowest(m),
                rest == m & !low,
                low < b,
                m != 0,
                ones(b) == 1,
        ;
    }
}

/// A set bit is known by how many set bits of the mask are below it.
pub proof fn law_member_is_known_by_its_place(m: u8, b: u8, n: nat)
    requires
        n < ones(m),
        b != 0,
        ones(b) == 1,
        b & m == b,
        ones(m & (b - 1) as u8) == n,
    ensures
        nth(m, n) == b,
{
    law_nth_is_a_member(m, n);
    law_nth_has_n_below(m, n);
    let c = nth(m, n);
    assert(b == c) by (bit_vector)
        requires
            b != 0,
            c != 0,
            ones(b) == 1,
            ones(c) == 1,
            b & m == b,
            c & m == c,
            ones(m & ((b - 1) as u8)) == ones(m & ((c - 1) as u8)),
    ;
}

} // verus!
