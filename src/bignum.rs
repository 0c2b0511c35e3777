use vstd::prelude::*;
use vstd::arithmetic::power2::{pow2, lemma_pow2_adds, lemma2_to64, lemma_pow2_pos};

verus! {

/// Value of little-endian 32-bit limbs.
pub open spec fn limbs_value(s: Seq<u32>) -> nat
    decreases s.len(),
{
    if s.len() == 0 {
        0
    } else {
        (limbs_value(s.drop_last()) + s.last() * pow2((32 * (s.len() - 1)) as nat)) as nat
    }
}

/// An arbitrary-precision unsigned integer: little-endian 32-bit limbs.
pub struct Bigint {
    pub limbs: Vec<u32>,
}

impl View for Bigint {
    type V = nat;

    open spec fn view(&self) -> nat {
        limbs_value(self.limbs@)
    }
}

pub proof fn lemma_limbs_value_bound(s: Seq<u32>)
    ensures
        limbs_value(s) < pow2((32 * s.len()) as nat),
    decreases s.len(),
{
    lemma2_to64();
    if s.len() == 0 {
        lemma_pow2_pos(0);
    } else {
        let n = s.len() - 1;
        lemma_limbs_value_bound(s.drop_last());
        let p = pow2((32 * n) as nat);
        lemma_pow2_adds((32 * n) as nat, 32);
        assert(32 * n + 32 == 32 * s.len());
        assert(limbs_value(s.drop_last()) + s.last() * p < pow2(32) * p) by (nonlinear_arith)
            requires
                limbs_value(s.drop_last()) < p,
                s.last() < pow2(32),
                pow2(32) == 0x1_0000_0000,
        ;
    }
}

/// `value(s) == value(s[..i]) + value(s[i..]) * 2^(32 i)`.
pub proof fn lemma_limbs_value_split(s: Seq<u32>, i: int)
    requires
        0 <= i <= s.len(),
    ensures
        limbs_value(s) == limbs_value(s.take(i)) + limbs_value(s.skip(i)) * pow2((32 * i) as nat),
    decreases s.len(),
{
    if i == s.len() {
        assert(s.take(i) =~= s);
        assert(s.skip(i) =~= Seq::<u32>::empty());
        lemma_limbs_value_empty();
    } else {
        let t = s.drop_last();
        let n = t.len();
        let last = s.last();
        lemma_limbs_value_split(t, i);
        assert(s =~= t.push(last));
        assert(t.take(i) =~= s.take(i));
        assert(s.skip(i) =~= t.skip(i).push(last));
        lemma_limbs_value_push(t, last);
        lemma_limbs_value_push(t.skip(i), last);
        lemma_pow2_adds((32 * i) as nat, (32 * (n - i)) as nat);
        assert((32 * i) as nat + (32 * (n - i)) as nat == (32 * n) as nat);
        let a = limbs_value(t.skip(i));
        let pi = pow2((32 * i) as nat);
        let ph = pow2((32 * (n - i)) as nat);
        assert((a + last * ph) * pi == a * pi + last * (ph * pi)) by (nonlinear_arith);
    }
}

pub proof fn lemma_limbs_value_empty()
    ensures
        limbs_value(Seq::<u32>::empty()) == 0,
{
}

/// Limbs that are all zero have the value zero.
pub proof fn lemma_zero_limbs(s: Seq<u32>)
    requires
        forall|i: int| 0 <= i < s.len() ==> #[trigger] s[i] == 0,
    ensures
        limbs_value(s) == 0,
    decreases s.len(),
{
    if s.len() > 0 {
        let t = s.drop_last();
        assert forall|i: int| 0 <= i < t.len() implies #[trigger] t[i] == 0 by {
            assert(t[i] == s[i]);
        }
        lemma_zero_limbs(t);
        assert(s =~= t.push(0));
        lemma_limbs_value_push(t, 0);
    }
}

/// Appending a limb adds it at the next position.
pub proof fn lemma_limbs_value_push(s: Seq<u32>, x: u32)
    ensures
        limbs_value(s.push(x)) == limbs_value(s) + x * pow2((32 * s.len()) as nat),
{
    assert(s.push(x).drop_last() =~= s);
    assert(s.push(x).last() == x);
    assert((32 * (s.push(x).len() - 1)) as nat == (32 * s.len()) as nat);
}

impl Bigint {
    /// The integer `x`.
    pub fn from_u64(x: u64) -> (r: Bigint)
        ensures
            r@ == x,
    {
        let lo = (x % 0x1_0000_0000) as u32;
        let hi = (x / 0x1_0000_0000) as u32;
        let mut limbs: Vec<u32> = Vec::new();
        proof {
            lemma2_to64();
            lemma_limbs_value_empty();
            lemma_limbs_value_push(Seq::<u32>::empty(), lo);
            lemma_limbs_value_push(Seq::<u32>::empty().push(lo), hi);
            assert(Seq::<u32>::empty().push(lo).len() == 1);
        }
        limbs.push(lo);
        limbs.push(hi);
        proof {
            assert(limbs@ =~= Seq::<u32>::empty().push(lo).push(hi));
            assert((32 * 0nat) as nat == 0);
            assert((32 * 1nat) as nat == 32);
            assert(x == lo + hi * 0x1_0000_0000);
            let e = Seq::<u32>::empty();
            assert(limbs_value(e.push(lo)) == lo * pow2(0));
            assert(e.push(lo).len() == 1);
            assert(limbs_value(e.push(lo).push(hi)) == limbs_value(e.push(lo)) + hi * pow2(32));
        }
        Bigint { limbs }
    }

    /// Whether the value is zero.
    pub fn is_zero(&self) -> (r: bool)
        ensures
            r == (self@ == 0),
    {
        let mut i: usize = 0;
        proof {
            assert(self.limbs@.take(0) =~= Seq::<u32>::empty());
            lemma_limbs_value_empty();
        }
        while i < self.limbs.len()
            invariant
                i <= self.limbs.len(),
                limbs_value(self.limbs@.take(i as int)) == 0,
            decreases self.limbs.len() - i,
        {
            let ghost s = self.limbs@;
            proof {
                assert(s.take(i + 1) =~= s.take(i as int).push(s[i as int]));
                lemma_limbs_value_push(s.take(i as int), s[i as int]);
                lemma_pow2_pos((32 * i) as nat);
            }
            if self.limbs[i] != 0 {
                proof {
                    lemma_limbs_value_split(s, i + 1);
                    assert(limbs_value(s.take(i + 1)) > 0) by (nonlinear_arith)
                        requires
                            limbs_value(s.take(i + 1)) == limbs_value(s.take(i as int)) + s[i as int]
                                * pow2((32 * i) as nat),
                            s[i as int] != 0,
                            pow2((32 * i) as nat) > 0,
                    ;
                }
                return false;
            }
            i = i + 1;
        }
        proof {
            assert(self.limbs@.take(i as int) =~= self.limbs@);
        }
        true
    }

    /// The value times `c`.
    pub fn mul_small(&self, c: u64) -> (r: Bigint)
        ensures
            r@ == self@ * c,
    {
        self.mul_add(c, 0)
    }

    /// The value times `c`, plus `d`.
    pub fn mul_add(&self, c: u64, d: u64) -> (r: Bigint)
        ensures
            r@ == self@ * c + d,
    {
        let ghost a = self.limbs@;
        let mut out: Vec<u32> = Vec::new();
        let mut carry: u64 = d;
        let mut i: usize = 0;
        proof {
            lemma2_to64();
            assert(a.take(0) =~= Seq::<u32>::empty());
            assert(out@ =~= Seq::<u32>::empty());
            lemma_limbs_value_empty();
            assert((32 * 0usize) as nat == 0);
            assert(carry * pow2(0) == d);
        }
        while i < self.limbs.len()
            invariant
                a == self.limbs@,
                i <= a.len(),
                out@.len() == i,
                pow2(32) == 0x1_0000_0000,
                limbs_value(out@) + carry * pow2((32 * i) as nat) == limbs_value(a.take(i as int))
                    * c + d,
            decreases a.len() - i,
        {
            proof {
                assert((self.limbs[i as int] as u128) * (c as u128) <= 0xFFFF_FFFFu128
                    * 0xFFFF_FFFF_FFFF_FFFFu128) by (nonlinear_arith);
            }
            let x: u128 = (self.limbs[i] as u128) * (c as u128) + (carry as u128);
            let lo = (x % 0x1_0000_0000) as u32;
            let hi = (x / 0x1_0000_0000) as u64;
            proof {
                let p = pow2((32 * i) as nat);
                lemma_pow2_adds((32 * i) as nat, 32);
                assert(32 * i + 32 == 32 * (i + 1));
                assert(a.take(i + 1) =~= a.take(i as int).push(a[i as int]));
                lemma_limbs_value_push(a.take(i as int), a[i as int]);
                lemma_limbs_value_push(out@, lo);
                let v_out = limbs_value(out@);
                let v_take = limbs_value(a.take(i as int));
                let v_take1 = limbs_value(a.take(i + 1));
                let ai = a[i as int];
                assert(x == lo + hi * 0x1_0000_0000);
                assert(v_out + lo * p + hi * (p * 0x1_0000_0000) == v_take1 * c + d)
                    by (nonlinear_arith)
                    requires
                        v_out + carry * p == v_take * c + d,
                        v_take1 == v_take + ai * p,
                        lo + hi * 0x1_0000_0000 == ai * c + carry,
                ;
            }
            out.push(lo);
            carry = hi;
            i = i + 1;
        }
        let n = i;
        let lo = (carry % 0x1_0000_0000) as u32;
        let hi = (carry / 0x1_0000_0000) as u32;
        proof {
            assert(a.take(n as int) =~= a);
            let p = pow2((32 * n) as nat);
            lemma_pow2_adds((32 * n) as nat, 32);
            assert(32 * n + 32 == 32 * (n + 1));
            let s1 = out@.push(lo);
            lemma_limbs_value_push(out@, lo);
            lemma_limbs_value_push(s1, hi);
            assert(limbs_value(s1.push(hi)) == limbs_value(out@) + lo * p + hi * (p * 0x1_0000_0000));
            assert(lo * p + hi * (p * 0x1_0000_0000) == carry * p) by (nonlinear_arith)
                requires
                    carry == lo + hi * 0x1_0000_0000,
            ;
        }
        out.push(lo);
        out.push(hi);
        while out.len() > 0 && out[out.len() - 1] == 0
            invariant
                limbs_value(out@) == limbs_value(a) * c + d,
            decreases out@.len(),
        {
            proof {
                assert(out@ =~= out@.drop_last().push(0));
                lemma_limbs_value_push(out@.drop_last(), 0);
            }
            out.pop();
        }
        Bigint { limbs: out }
    }

    /// The value times `2^k`: whole limbs of zeros below the value, then a
    /// multiplication by the rest.
    pub fn shl(&self, k: u32) -> (r: Bigint)
        ensures
            r@ == self@ * pow2(k as nat),
    {
        let j = (k / 32) as usize;
        let mut limbs: Vec<u32> = Vec::new();
        while limbs.len() < j
            invariant
                limbs@.len() <= j,
                forall|i: int| 0 <= i < limbs@.len() ==> #[trigger] limbs@[i] == 0,
            decreases j - limbs@.len(),
        {
            limbs.push(0);
        }
        let mut i: usize = 0;
        while i < self.limbs.len()
            invariant
                i <= self.limbs.len(),
                limbs@.len() == j + i,
                forall|q: int| 0 <= q < j ==> #[trigger] limbs@[q] == 0,
                limbs@.skip(j as int) =~= self.limbs@.take(i as int),
            decreases self.limbs.len() - i,
        {
            limbs.push(self.limbs[i]);
            proof {
                assert(limbs@.skip(j as int) =~= self.limbs@.take(i + 1));
            }
            i = i + 1;
        }
        let shifted = Bigint { limbs };
        proof {
            let s = shifted.limbs@;
            assert(self.limbs@.take(i as int) =~= self.limbs@);
            lemma_limbs_value_split(s, j as int);
            lemma_zero_limbs(s.take(j as int));
            assert(shifted@ == self@ * pow2((32 * j) as nat));
        }
        let rest: u64 = (k % 32) as u64;
        proof {
            vstd::bits::lemma_u64_pow2_no_overflow(rest as nat);
            vstd::bits::lemma_u64_shl_is_mul(1, rest);
        }
        let next = shifted.mul_small(1u64 << rest);
        proof {
            lemma_pow2_adds((32 * j) as nat, rest as nat);
            assert(32 * j + rest == k);
            assert(self@ * pow2((32 * j) as nat) * pow2(rest as nat) == self@ * (pow2(
                (32 * j) as nat,
            ) * pow2(rest as nat))) by (nonlinear_arith);
        }
        next
    }

    /// The limbs, with zero limbs appended up to length `n`.
    fn padded(&self, n: usize) -> (r: Vec<u32>)
        requires
            self.limbs.len() <= n,
        ensures
            r@.len() == n,
            limbs_value(r@) == self@,
    {
        let mut v = self.limbs.clone();
        proof {
            assert(v@ =~= self.limbs@);
        }
        while v.len() < n
            invariant
                v@.len() <= n,
                limbs_value(v@) == self@,
            decreases n - v@.len(),
        {
            proof {
                lemma_limbs_value_push(v@, 0);
            }
            v.push(0);
        }
        v
    }

    /// Compare the values: -1 where `self` is smaller, 0 where equal, 1 where
    /// larger.
    pub fn compare(&self, other: &Bigint) -> (r: i8)
        ensures
            r == (if self@ < other@ { -1i8 } else if self@ == other@ { 0i8 } else { 1i8 }),
    {
        let n = if self.limbs.len() < other.limbs.len() {
            other.limbs.len()
        } else {
            self.limbs.len()
        };
        let a = self.padded(n);
        let b = other.padded(n);
        let mut i = n;
        proof {
            assert(a@.skip(n as int) =~= b@.skip(n as int));
        }
        while i > 0
            invariant
                a@.len() == n,
                b@.len() == n,
                i <= n,
                a@.skip(i as int) == b@.skip(i as int),
                limbs_value(a@) == self@,
                limbs_value(b@) == other@,
            decreases i,
        {
            let j = i - 1;
            if a[j] != b[j] {
                proof {
                    let q = pow2((32 * j) as nat);
                    lemma_limbs_value_split(a@, i as int);
                    lemma_limbs_value_split(b@, i as int);
                    assert(a@.take(i as int) =~= a@.take(j as int).push(a@[j as int]));
                    assert(b@.take(i as int) =~= b@.take(j as int).push(b@[j as int]));
                    lemma_limbs_value_push(a@.take(j as int), a@[j as int]);
                    lemma_limbs_value_push(b@.take(j as int), b@[j as int]);
                    lemma_limbs_value_bound(a@.take(j as int));
                    lemma_limbs_value_bound(b@.take(j as int));
                    let la = limbs_value(a@.take(j as int));
                    let lb = limbs_value(b@.take(j as int));
                    let x = a@[j as int];
                    let y = b@[j as int];
                    assert(a@.take(j as int).len() == j);
                    assert(la < q);
                    assert(lb < q);
                    assert(limbs_value(a@.take(i as int)) == la + x * q);
                    assert(limbs_value(b@.take(i as int)) == lb + y * q);
                    let h = limbs_value(a@.skip(i as int)) * pow2((32 * i) as nat);
                    assert(self@ == la + x * q + h);
                    assert(other@ == lb + y * q + h);
                    if x < y {
                        assert(la + x * q < lb + y * q) by (nonlinear_arith)
                            requires
                                la < q,
                                lb >= 0,
                                x < y,
                        ;
                    } else {
                        assert(lb + y * q < la + x * q) by (nonlinear_arith)
                            requires
                                lb < q,
                                la >= 0,
                                y < x,
                        ;
                    }
                }
                return if a[j] < b[j] {
                    -1
                } else {
                    1
                };
            }
            proof {
                assert(a@.skip(j as int) =~= seq![a@[j as int]] + a@.skip(i as int));
                assert(b@.skip(j as int) =~= seq![b@[j as int]] + b@.skip(i as int));
            }
            i = j;
        }
        proof {
            assert(a@ =~= a@.skip(0));
            assert(b@ =~= b@.skip(0));
        }
        0
    }
}

} // verus!
