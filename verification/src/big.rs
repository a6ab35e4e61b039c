//! Whole numbers of many digits: forty limbs of thirty-two bits, the least
//! significant first.

use vstd::prelude::*;
use vstd::arithmetic::power2::{lemma2_to64, lemma_pow2_adds, lemma_pow2_pos, pow2};

verus! {

/// How many limbs a number has.
pub const LIMBS: usize = 40;

/// The weight of the limb `i`.
pub open spec fn base_to(i: nat) -> nat {
    pow2(32 * i)
}

/// What the first `i` limbs are worth.
pub open spec fn prefix_value(limbs: Seq<u32>, i: nat) -> nat
    decreases i,
{
    if i == 0 {
        0
    } else {
        prefix_value(limbs, (i - 1) as nat) + limbs[i - 1] as nat * base_to((i - 1) as nat)
    }
}

/// The number that the limbs write.
pub open spec fn big_value(limbs: Seq<u32>) -> nat {
    prefix_value(limbs, limbs.len())
}

pub proof fn lemma_base_step(i: nat)
    ensures
        base_to(i + 1) == 0x1_0000_0000 * base_to(i),
        base_to(i) > 0,
        base_to(0) == 1,
{
    lemma2_to64();
    lemma_pow2_adds(32, 32 * i);
    lemma_pow2_pos(32 * i);
    assert(32 * (i + 1) == 32 + 32 * i);
}

pub proof fn lemma_prefix_agree(a: Seq<u32>, b: Seq<u32>, i: nat)
    requires
        forall|j: int| 0 <= j < i ==> a[j] == b[j],
    ensures
        prefix_value(a, i) == prefix_value(b, i),
    decreases i,
{
    if i > 0 {
        lemma_prefix_agree(a, b, (i - 1) as nat);
    }
}

pub proof fn lemma_prefix_bound(a: Seq<u32>, i: nat)
    ensures
        prefix_value(a, i) < base_to(i),
    decreases i,
{
    lemma_base_step(0);
    if i > 0 {
        lemma_prefix_bound(a, (i - 1) as nat);
        lemma_base_step((i - 1) as nat);
        let p = base_to((i - 1) as nat);
        let limb = a[i - 1] as nat;
        assert(prefix_value(a, (i - 1) as nat) + limb * p < 0x1_0000_0000 * p)
            by (nonlinear_arith)
            requires
                prefix_value(a, (i - 1) as nat) < p,
                limb <= 0xFFFF_FFFF,
        ;
    }
}

/// What the limbs from `k` up to `n` are worth hangs on those limbs alone.
pub proof fn lemma_upper_agree(a: Seq<u32>, b: Seq<u32>, k: nat, n: nat)
    requires
        k <= n,
        forall|j: int| k <= j < n ==> a[j] == b[j],
    ensures
        prefix_value(a, n) - prefix_value(a, k) == prefix_value(b, n) - prefix_value(b, k),
    decreases n,
{
    if n > k {
        lemma_upper_agree(a, b, k, (n - 1) as nat);
    }
}

pub proof fn lemma_zero_upper(a: Seq<u32>, k: nat, n: nat)
    requires
        k <= n,
        forall|j: int| k <= j < n ==> a[j] == 0,
    ensures
        prefix_value(a, n) == prefix_value(a, k),
    decreases n,
{
    if n > k {
        lemma_zero_upper(a, k, (n - 1) as nat);
    }
}

/// The number `v` in limbs.
pub fn big_from(v: u64) -> (limbs: Vec<u32>)
    ensures
        limbs@.len() == LIMBS,
        big_value(limbs@) == v,
{
    let mut limbs: Vec<u32> = Vec::new();
    limbs.push((v % 0x1_0000_0000) as u32);
    limbs.push((v / 0x1_0000_0000) as u32);
    while limbs.len() < LIMBS
        invariant
            2 <= limbs@.len() <= LIMBS,
            limbs@[0] == v % 0x1_0000_0000,
            limbs@[1] == v / 0x1_0000_0000,
            forall|j: int| 2 <= j < limbs@.len() ==> limbs@[j] == 0,
        decreases LIMBS - limbs@.len(),
    {
        limbs.push(0);
    }
    proof {
        lemma_zero_upper(limbs@, 2, LIMBS as nat);
        lemma_base_step(0);
        reveal_with_fuel(prefix_value, 3);
        assert(base_to(1) == 0x1_0000_0000);
        assert(prefix_value(limbs@, 2) == limbs@[0] as nat * base_to(0) + limbs@[1] as nat
            * base_to(1));
        let low = limbs@[0] as nat;
        let high = limbs@[1] as nat;
        assert(low * 1 + high * 0x1_0000_0000 == v) by (nonlinear_arith)
            requires
                low == v % 0x1_0000_0000,
                high == v / 0x1_0000_0000,
        ;
    }
    limbs
}

/// Multiplies by a small number.
pub fn big_times(limbs: &mut Vec<u32>, m: u32)
    requires
        old(limbs)@.len() == LIMBS,
        big_value(old(limbs)@) * m < base_to(LIMBS as nat),
    ensures
        final(limbs)@.len() == LIMBS,
        big_value(final(limbs)@) == big_value(old(limbs)@) * m,
{
    let ghost before = limbs@;
    let mut carry: u64 = 0;
    let mut i: usize = 0;
    proof {
        lemma_base_step(0);
        assert(prefix_value(before, 0) == 0);
        assert(prefix_value(before, 0) * m == 0) by (nonlinear_arith)
            requires
                prefix_value(before, 0) == 0,
        ;
        assert(carry * base_to(0) == 0) by (nonlinear_arith)
            requires
                carry == 0,
        ;
    }
    while i < LIMBS
        invariant
            0 <= i <= LIMBS,
            limbs@.len() == LIMBS,
            before.len() == LIMBS,
            carry <= 0xFFFF_FFFF,
            forall|j: int| i <= j < LIMBS ==> limbs@[j] == before[j],
            prefix_value(limbs@, i as nat) + carry * base_to(i as nat) == prefix_value(
                before,
                i as nat,
            ) * m,
        decreases LIMBS - i,
    {
        let ghost now = limbs@;
        proof {
            let x = limbs@[i as int] as int;
            assert(x * m <= 0xFFFF_FFFF * 0xFFFF_FFFF) by (nonlinear_arith)
                requires
                    0 <= x <= 0xFFFF_FFFF,
                    0 <= m <= 0xFFFF_FFFF,
            ;
        }
        let total: u64 = (limbs[i] as u64) * (m as u64) + carry;
        let low = (total % 0x1_0000_0000) as u32;
        let high = total / 0x1_0000_0000;
        limbs[i] = low;
        proof {
            lemma_prefix_agree(limbs@, now, i as nat);
            lemma_base_step(i as nat);
            let p = base_to(i as nat);
            let done = prefix_value(now, i as nat);
            let old_done = prefix_value(before, i as nat);
            let limb = before[i as int] as nat;
            assert(done + low * p + high * (0x1_0000_0000 * p) == (old_done + limb * p) * m)
                by (nonlinear_arith)
                requires
                    done + carry * p == old_done * m,
                    low + high * 0x1_0000_0000 == limb * m + carry,
            ;
        }
        carry = high;
        i = i + 1;
    }
    proof {
        lemma_prefix_bound(limbs@, LIMBS as nat);
        lemma_base_step(LIMBS as nat);
        if carry > 0 {
            assert(carry * base_to(LIMBS as nat) >= base_to(LIMBS as nat)) by (nonlinear_arith)
                requires
                    carry >= 1,
                    base_to(LIMBS as nat) > 0,
            ;
        }
    }
}

/// The sum of two numbers.
pub fn big_sum(a: &Vec<u32>, b: &Vec<u32>) -> (sum: Vec<u32>)
    requires
        a@.len() == LIMBS,
        b@.len() == LIMBS,
        big_value(a@) + big_value(b@) < base_to(LIMBS as nat),
    ensures
        sum@.len() == LIMBS,
        big_value(sum@) == big_value(a@) + big_value(b@),
{
    let mut sum: Vec<u32> = Vec::new();
    let mut carry: u64 = 0;
    let mut i: usize = 0;
    while i < LIMBS
        invariant
            0 <= i <= LIMBS,
            a@.len() == LIMBS,
            b@.len() == LIMBS,
            sum@.len() == i,
            carry <= 1,
            prefix_value(sum@, i as nat) + carry * base_to(i as nat) == prefix_value(
                a@,
                i as nat,
            ) + prefix_value(b@, i as nat),
        decreases LIMBS - i,
    {
        let ghost now = sum@;
        let total: u64 = (a[i] as u64) + (b[i] as u64) + carry;
        let low = (total % 0x1_0000_0000) as u32;
        let high = total / 0x1_0000_0000;
        sum.push(low);
        proof {
            lemma_prefix_agree(sum@, now, i as nat);
            lemma_base_step(i as nat);
            let p = base_to(i as nat);
            let done = prefix_value(now, i as nat);
            let pa = prefix_value(a@, i as nat);
            let pb = prefix_value(b@, i as nat);
            let la = a@[i as int] as nat;
            let lb = b@[i as int] as nat;
            assert(done + low * p + high * (0x1_0000_0000 * p) == (pa + la * p) + (pb + lb
                * p)) by (nonlinear_arith)
                requires
                    done + carry * p == pa + pb,
                    low + high * 0x1_0000_0000 == la + lb + carry,
            ;
        }
        carry = high;
        i = i + 1;
    }
    proof {
        lemma_prefix_bound(sum@, LIMBS as nat);
        if carry > 0 {
            assert(carry * base_to(LIMBS as nat) >= base_to(LIMBS as nat)) by (nonlinear_arith)
                requires
                    carry >= 1,
                    base_to(LIMBS as nat) > 0,
            ;
        }
    }
    sum
}

/// Takes `b` away from `a`.
pub fn big_minus(a: &mut Vec<u32>, b: &Vec<u32>)
    requires
        old(a)@.len() == LIMBS,
        b@.len() == LIMBS,
        big_value(b@) <= big_value(old(a)@),
    ensures
        final(a)@.len() == LIMBS,
        big_value(final(a)@) == big_value(old(a)@) - big_value(b@),
{
    let ghost before = a@;
    let mut borrow: u64 = 0;
    let mut i: usize = 0;
    while i < LIMBS
        invariant
            0 <= i <= LIMBS,
            a@.len() == LIMBS,
            b@.len() == LIMBS,
            before.len() == LIMBS,
            borrow <= 1,
            forall|j: int| i <= j < LIMBS ==> a@[j] == before[j],
            prefix_value(a@, i as nat) + prefix_value(b@, i as nat) == prefix_value(
                before,
                i as nat,
            ) + borrow * base_to(i as nat),
        decreases LIMBS - i,
    {
        let ghost now = a@;
        let have: u64 = a[i] as u64;
        let take: u64 = (b[i] as u64) + borrow;
        let (low, next): (u32, u64) = if have >= take {
            ((have - take) as u32, 0)
        } else {
            ((have + 0x1_0000_0000 - take) as u32, 1)
        };
        a[i] = low;
        proof {
            lemma_prefix_agree(a@, now, i as nat);
            lemma_base_step(i as nat);
            let p = base_to(i as nat);
            let done = prefix_value(now, i as nat);
            let pb = prefix_value(b@, i as nat);
            let pa = prefix_value(before, i as nat);
            let la = before[i as int] as nat;
            let lb = b@[i as int] as nat;
            assert((done + low * p) + (pb + lb * p) == (pa + la * p) + next * (0x1_0000_0000
                * p)) by (nonlinear_arith)
                requires
                    done + pb == pa + borrow * p,
                    low + lb + borrow == la + next * 0x1_0000_0000,
            ;
        }
        borrow = next;
        i = i + 1;
    }
    proof {
        lemma_prefix_bound(a@, LIMBS as nat);
        if borrow > 0 {
            assert(borrow * base_to(LIMBS as nat) >= base_to(LIMBS as nat)) by (nonlinear_arith)
                requires
                    borrow >= 1,
                    base_to(LIMBS as nat) > 0,
            ;
        }
    }
}

/// Whether `a` is less than `b`.
pub fn big_less(a: &Vec<u32>, b: &Vec<u32>) -> (less: bool)
    requires
        a@.len() == LIMBS,
        b@.len() == LIMBS,
    ensures
        less == (big_value(a@) < big_value(b@)),
{
    let mut i: usize = LIMBS;
    while i > 0
        invariant
            0 <= i <= LIMBS,
            a@.len() == LIMBS,
            b@.len() == LIMBS,
            forall|j: int| i <= j < LIMBS ==> a@[j] == b@[j],
        decreases i,
    {
        let k = i - 1;
        if a[k] != b[k] {
            proof {
                lemma_upper_agree(a@, b@, i as nat, LIMBS as nat);
                lemma_prefix_bound(a@, k as nat);
                lemma_prefix_bound(b@, k as nat);
                let p = base_to(k as nat);
                let la = a@[k as int] as nat;
                let lb = b@[k as int] as nat;
                let pa = prefix_value(a@, k as nat);
                let pb = prefix_value(b@, k as nat);
                if la < lb {
                    assert(pa + la * p < pb + lb * p) by (nonlinear_arith)
                        requires
                            pa < p,
                            la < lb,
                            pb >= 0,
                    ;
                } else {
                    assert(pb + lb * p < pa + la * p) by (nonlinear_arith)
                        requires
                            pb < p,
                            lb < la,
                            pa >= 0,
                    ;
                }
            }
            return a[k] < b[k];
        }
        i = k;
    }
    proof {
        lemma_prefix_agree(a@, b@, LIMBS as nat);
    }
    false
}

} // verus!
