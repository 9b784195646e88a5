//! Addresses as 128-bit numbers, and the blocks that a prefix length cuts them
//! into.

use vstd::arithmetic::div_mod::{
    lemma_div_denominator, lemma_div_is_ordered, lemma_fundamental_div_mod,
    lemma_fundamental_div_mod_converse, lemma_mod_decreases,
};
use vstd::arithmetic::power2::{
    lemma2_to64, lemma2_to64_rest, lemma_pow2_adds, lemma_pow2_pos, lemma_pow2_strictly_increases,
    lemma_pow2_unfold, pow2,
};
use vstd::prelude::*;

verus! {

/// The number that octets in network order write.
pub open spec fn be(o: Seq<u8>) -> int
    decreases o.len(),
{
    if o.len() == 0 {
        0
    } else {
        256 * be(o.drop_last()) + o.last()
    }
}

/// How many addresses share their leading `bits` bits.
pub open spec fn block(bits: int) -> int {
    pow2((128 - bits) as nat) as int
}

/// `x` agrees with `base` on the leading `bits` bits.
pub open spec fn covers(base: int, bits: int, x: int) -> bool {
    base / block(bits) == x / block(bits)
}

pub proof fn lemma_be_bound(o: Seq<u8>)
    ensures
        0 <= be(o) < pow2(8 * o.len()),
    decreases o.len(),
{
    if o.len() == 0 {
        lemma2_to64();
    } else {
        lemma_be_bound(o.drop_last());
        lemma2_to64();
        lemma_pow2_adds(8, 8 * o.drop_last().len());
        assert(8 + 8 * o.drop_last().len() == 8 * o.len());
    }
}

pub proof fn lemma_pow2_128()
    ensures
        pow2(128) == u128::MAX + 1,
{
    lemma2_to64();
    lemma2_to64_rest();
    lemma_pow2_adds(64, 64);
    assert(pow2(64) * pow2(64) == 0x1_0000_0000_0000_0000 * 0x1_0000_0000_0000_0000);
}

/// Two addresses of one length that write the same number are the same.
pub proof fn law_be_is_injective(a: Seq<u8>, b: Seq<u8>)
    requires
        a.len() == b.len(),
        be(a) == be(b),
    ensures
        a == b,
    decreases a.len(),
{
    if a.len() > 0 {
        law_be_is_injective(a.drop_last(), b.drop_last());
        assert(a =~= a.drop_last().push(a.last()));
        assert(b =~= b.drop_last().push(b.last()));
    } else {
        assert(a =~= b);
    }
}

/// The number that an address writes.
pub fn number_of(o: &[u8; 16]) -> (r: u128)
    ensures
        r == be(o@),
{
    let mut acc: u128 = 0;
    let mut i: usize = 0;
    while i < 16
        invariant
            i <= 16,
            acc == be(o@.take(i as int)),
        decreases 16 - i,
    {
        proof {
            assert(o@.take(i + 1).drop_last() =~= o@.take(i as int));
            lemma_be_bound(o@.take(i + 1));
            lemma_pow2_128();
            if i + 1 < 16 {
                lemma_pow2_strictly_increases((8 * (i + 1)) as nat, 128);
            }
        }
        acc = 256 * acc + o[i] as u128;
        i += 1;
    }
    assert(o@.take(16) =~= o@);
    acc
}

/// The block of `base` is a run of numbers.
pub proof fn lemma_block_is_range(base: int, bits: int, x: int)
    requires
        0 <= bits <= 128,
        0 <= base,
        0 <= x,
    ensures
        block(bits) > 0,
        covers(base, bits, x) <==> base - base % block(bits) <= x < base - base % block(bits)
            + block(bits),
{
    let m = block(bits);
    lemma_pow2_pos((128 - bits) as nat);
    lemma_fundamental_div_mod(base, m);
    lemma_fundamental_div_mod(x, m);
    let s = base - base % m;
    if s <= x < s + m {
        lemma_fundamental_div_mod_converse(x, m, base / m, x - s);
    }
}

/// Of two blocks that share an address, the one with the longer prefix lies
/// inside the other.
pub proof fn law_blocks_nest(a: int, abits: int, b: int, bbits: int, x: int, y: int)
    requires
        0 <= bbits <= abits <= 128,
        0 <= a,
        0 <= b,
        0 <= x,
        0 <= y,
        covers(a, abits, x),
        covers(b, bbits, x),
        covers(a, abits, y),
    ensures
        covers(b, bbits, y),
{
    let m = block(abits);
    let k = pow2((abits - bbits) as nat) as int;
    lemma_pow2_pos((128 - abits) as nat);
    lemma_pow2_pos((abits - bbits) as nat);
    lemma_pow2_adds((128 - abits) as nat, (abits - bbits) as nat);
    assert((128 - abits) as nat + (abits - bbits) as nat == (128 - bbits) as nat);
    lemma_div_denominator(x, m, k);
    lemma_div_denominator(y, m, k);
}

/// The first and last address that agree with `addr` on the leading `bits` bits.
pub fn range_of(addr: u128, bits: u8) -> (r: (u128, u128))
    requires
        bits <= 128,
    ensures
        r.0 <= addr <= r.1,
        r.0 == addr - addr as int % block(bits as int),
        r.1 == r.0 + block(bits as int) - 1,
        forall|x: u128|
            #![trigger covers(addr as int, bits as int, x as int)]
            covers(addr as int, bits as int, x as int) <==> r.0 <= x <= r.1,
{
    proof {
        lemma_pow2_128();
        lemma_block_is_range(addr as int, bits as int, addr as int);
    }
    if bits == 0 {
        proof {
            lemma_fundamental_div_mod_converse(addr as int, block(0), 0, addr as int);
            assert forall|x: u128|
                #![trigger covers(addr as int, bits as int, x as int)]
                covers(addr as int, bits as int, x as int) <==> 0 <= x <= u128::MAX by {
                lemma_block_is_range(addr as int, 0, x as int);
            }
        }
        return (0, u128::MAX);
    }
    let host: u8 = 128 - bits;
    let mut size: u128 = 1;
    let mut i: u8 = 0;
    proof {
        lemma2_to64();
    }
    while i < host
        invariant
            i <= host <= 127,
            size == pow2(i as nat),
        decreases host - i,
    {
        proof {
            lemma_pow2_unfold((i + 1) as nat);
            lemma_pow2_128();
            if i + 1 < 128 {
                lemma_pow2_strictly_increases((i + 1) as nat, 128);
            }
        }
        size = 2 * size;
        i += 1;
    }
    proof {
        assert(size == block(bits as int));
        lemma_mod_decreases(addr as nat, size as nat);
    }
    let start = addr - addr % size;
    proof {
        // The block ends at the latest with the last address.
        let q = addr as int / size as int;
        lemma_fundamental_div_mod(addr as int, size as int);
        lemma_pow2_adds(host as nat, bits as nat);
        assert((host as nat + bits as nat) as nat == 128);
        lemma_pow2_pos(bits as nat);
        let p = pow2(bits as nat) as int;
        lemma_div_is_ordered(addr as int, u128::MAX as int, size as int);
        assert(u128::MAX as int / size as int == p - 1) by {
            assert(size as int * p == u128::MAX + 1);
            assert(u128::MAX as int == size * (p - 1) + (size - 1)) by (nonlinear_arith)
                requires
                    size as int * p == u128::MAX + 1,
            ;
            lemma_fundamental_div_mod_converse(u128::MAX as int, size as int, p - 1, size - 1);
        }
        assert(size * q + size <= size * p) by (nonlinear_arith)
            requires
                q <= p - 1,
                size > 0,
        ;
        assert forall|x: u128|
            #![trigger covers(addr as int, bits as int, x as int)]
            covers(addr as int, bits as int, x as int) <==> start <= x <= start + size - 1 by {
            lemma_block_is_range(addr as int, bits as int, x as int);
        }
    }
    (start, start + (size - 1))
}

/// Octets write a number in base 256, the first of them counting most.
pub proof fn law_octets_count_in_network_order(o: Seq<u8>, b: u8)
    ensures
        be(seq![]) == 0,
        be(o.push(b)) == 256 * be(o) + b,
{
    assert(o.push(b).drop_last() =~= o);
}

/// One address has all the bits, and each bit less makes a block of twice as many.
pub proof fn law_blocks_double(bits: int)
    requires
        0 <= bits < 128,
    ensures
        block(128) == 1,
        block(bits) == 2 * block(bits + 1),
{
    lemma2_to64();
    lemma_pow2_unfold((128 - bits) as nat);
    assert((128 - bits) as nat - 1 == (128 - (bits + 1)) as nat);
}

/// A block is the run of addresses from a multiple of its size on, so many of them.
pub proof fn law_blocks_are_runs(base: int, bits: int, x: int)
    requires
        0 <= bits <= 128,
        base >= 0,
        x >= 0,
    ensures
        covers(base, bits, x) <==> base - base % block(bits) <= x < base - base % block(bits)
            + block(bits),
        covers(base, bits, base),
{
    lemma_block_is_range(base, bits, x);
    lemma_block_is_range(base, bits, base);
}

} // verus!
