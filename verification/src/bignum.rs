use vstd::prelude::*;
use vstd::arithmetic::div_mod::{lemma_fundamental_div_mod, lemma_fundamental_div_mod_converse, lemma_div_is_ordered};
use vstd::arithmetic::mul::{lemma_mul_inequality, lemma_mul_upper_bound};
use vstd::arithmetic::power::{pow, lemma_pow_positive, lemma_pow_increases};

verus! {

/// Radix of the limb representation: each limb holds one base-2^64 digit.
const BASE: u128 = 0x1_0000_0000_0000_0000;

/// Value denoted by a little-endian limb sequence.
spec fn val_of(s: Seq<u64>) -> int
    decreases s.len(),
{
    if s.len() == 0 {
        0
    } else {
        val_of(s.drop_last()) + s.last() * pow(BASE as int, (s.len() - 1) as nat)
    }
}

/// An unsigned integer of unbounded size, used to compare products of counts
/// exactly. Little-endian base-2^64 limbs with no leading zero limb.
pub struct BigNat {
    limbs: Vec<u64>,
}

/// One-step unfolding of the opaque `pow` from vstd.
pub proof fn lemma_pow_unfold(b: int, e: nat)
    ensures
        pow(b, 0) == 1,
        e > 0 ==> pow(b, e) == b * pow(b, (e - 1) as nat),
{
    reveal(pow);
}

proof fn lemma_val_nonneg(s: Seq<u64>)
    ensures
        val_of(s) >= 0,
    decreases s.len(),
{
    if s.len() > 0 {
        lemma_val_nonneg(s.drop_last());
        lemma_pow_positive(BASE as int, (s.len() - 1) as nat);
        lemma_mul_inequality(0, s.last() as int, pow(BASE as int, (s.len() - 1) as nat));
    }
}

proof fn lemma_val_upper(s: Seq<u64>)
    ensures
        val_of(s) < pow(BASE as int, s.len()),
    decreases s.len(),
{
    if s.len() == 0 {
        lemma_pow_unfold(BASE as int, 0);
    } else {
        let p = pow(BASE as int, (s.len() - 1) as nat);
        lemma_val_upper(s.drop_last());
        lemma_pow_positive(BASE as int, (s.len() - 1) as nat);
        lemma_mul_inequality(s.last() as int, BASE as int - 1, p);
        lemma_pow_unfold(BASE as int, s.len());
        assert(val_of(s) <= p - 1 + (BASE as int - 1) * p);
        assert((BASE as int - 1) * p == (BASE as int) * p - p) by (nonlinear_arith);
    }
}

proof fn lemma_val_lower(s: Seq<u64>)
    requires
        s.len() > 0,
        s.last() != 0,
    ensures
        val_of(s) >= pow(BASE as int, (s.len() - 1) as nat),
{
    let p = pow(BASE as int, (s.len() - 1) as nat);
    lemma_val_nonneg(s.drop_last());
    lemma_pow_positive(BASE as int, (s.len() - 1) as nat);
    lemma_mul_inequality(1, s.last() as int, p);
}

/// One limb extends a prefix of the sequence by its place value.
proof fn lemma_val_take_succ(s: Seq<u64>, i: int)
    requires
        0 <= i < s.len(),
    ensures
        val_of(s.take(i + 1)) == val_of(s.take(i)) + s[i] * pow(BASE as int, i as nat),
{
    let t = s.take(i + 1);
    assert(t.drop_last() =~= s.take(i));
    assert(t.last() == s[i]);
}

impl BigNat {
    pub closed spec fn val(self) -> int {
        val_of(self.limbs@)
    }

    pub closed spec fn wf(self) -> bool {
        self.limbs@.len() > 0 ==> self.limbs@.last() != 0
    }

    pub fn from_u64(x: u64) -> (r: BigNat)
        ensures
            r.wf(),
            r.val() == x,
    {
        let mut limbs: Vec<u64> = Vec::new();
        if x > 0 {
            limbs.push(x);
            proof {
                assert(limbs@.drop_last() =~= Seq::<u64>::empty());
                lemma_pow_unfold(BASE as int, 0);
                assert(val_of(limbs@.drop_last()) == 0);
                assert(val_of(limbs@) == 0 + x * 1);
            }
        }
        BigNat { limbs }
    }

    /// Multiply in place by a nonzero one-limb factor.
    pub fn mul_u64(&mut self, m: u64)
        requires
            old(self).wf(),
            m >= 1,
        ensures
            final(self).wf(),
            final(self).val() == old(self).val() * m,
    {
        let ghost orig = self.limbs@;
        let n = self.limbs.len();
        let mut out: Vec<u64> = Vec::new();
        let mut carry: u64 = 0;
        let mut i: usize = 0;
        proof {
            assert(orig.take(0) =~= Seq::<u64>::empty());
            lemma_pow_unfold(BASE as int, 0);
        }
        while i < n
            invariant
                i <= n,
                n == orig.len(),
                self.limbs@ == orig,
                m >= 1,
                out@.len() == i,
                val_of(out@) + carry * pow(BASE as int, i as nat) == val_of(orig.take(i as int)) * m,
            decreases n - i,
        {
            let limb = self.limbs[i];
            proof {
                lemma_mul_upper_bound(limb as int, BASE as int - 1, m as int, BASE as int - 1);
            }
            let prod: u128 = limb as u128 * m as u128 + carry as u128;
            let lo: u64 = (prod % BASE) as u64;
            let hi: u64 = (prod / BASE) as u64;
            proof {
                lemma_fundamental_div_mod(prod as int, BASE as int);
                lemma_fundamental_div_mod_converse(
                    (BASE as int) * (BASE as int) - 1,
                    BASE as int,
                    BASE as int - 1,
                    BASE as int - 1,
                );
                lemma_div_is_ordered(prod as int, (BASE as int) * (BASE as int) - 1, BASE as int);
                assert(hi as int == prod as int / BASE as int);
                assert(lo as int == prod as int % BASE as int);
                let p = pow(BASE as int, i as nat);
                lemma_pow_unfold(BASE as int, (i + 1) as nat);
                lemma_mul_step(
                    val_of(out@),
                    val_of(orig.take(i as int)),
                    limb as int,
                    m as int,
                    carry as int,
                    hi as int,
                    lo as int,
                    p,
                );
                lemma_val_take_succ(orig, i as int);
                assert(out@.push(lo).drop_last() =~= out@);
                assert(val_of(out@.push(lo)) == val_of(out@) + lo * p);
            }
            out.push(lo);
            carry = hi;
            i += 1;
        }
        proof {
            assert(orig.take(n as int) =~= orig);
        }
        if carry > 0 {
            proof {
                assert(out@.push(carry).drop_last() =~= out@);
            }
            out.push(carry);
        } else {
            proof {
                if out@.len() > 0 && out@.last() == 0 {
                    lemma_val_upper(out@.drop_last());
                    assert(val_of(out@) == val_of(out@.drop_last()));
                    assert(val_of(out@) < pow(BASE as int, (n - 1) as nat));
                    lemma_val_lower(orig);
                    lemma_pow_positive(BASE as int, (n - 1) as nat);
                    assert(val_of(orig) * m >= pow(BASE as int, (n - 1) as nat))
                        by (nonlinear_arith)
                        requires
                            val_of(orig) >= pow(BASE as int, (n - 1) as nat),
                            m >= 1,
                            pow(BASE as int, (n - 1) as nat) >= 1,
                    ;
                    assert(false);
                }
            }
        }
        self.limbs = out;
    }

    /// Exact comparison of the denoted values.
    pub fn lt(&self, other: &BigNat) -> (r: bool)
        requires
            self.wf(),
            other.wf(),
        ensures
            r == (self.val() < other.val()),
    {
        let a = &self.limbs;
        let b = &other.limbs;
        if a.len() < b.len() {
            proof {
                lemma_val_upper(a@);
                lemma_val_lower(b@);
                lemma_pow_increases(BASE as nat, a@.len(), (b@.len() - 1) as nat);
            }
            return true;
        }
        if b.len() < a.len() {
            proof {
                lemma_val_upper(b@);
                lemma_val_lower(a@);
                lemma_pow_increases(BASE as nat, b@.len(), (a@.len() - 1) as nat);
            }
            return false;
        }
        let n = a.len();
        let mut i: usize = n;
        proof {
            assert(a@.take(n as int) =~= a@);
            assert(b@.take(n as int) =~= b@);
        }
        while i > 0
            invariant
                i <= n,
                n == a@.len(),
                n == b@.len(),
                a@ == self.limbs@,
                b@ == other.limbs@,
                val_of(a@) - val_of(b@) == val_of(a@.take(i as int)) - val_of(b@.take(i as int)),
            decreases i,
        {
            let x = a[i - 1];
            let y = b[i - 1];
            proof {
                lemma_val_take_succ(a@, i - 1);
                lemma_val_take_succ(b@, i - 1);
            }
            if x < y {
                proof {
                    lemma_cmp_decides(a@, b@, i as int, x as int, y as int);
                }
                return true;
            }
            if y < x {
                proof {
                    lemma_cmp_decides(b@, a@, i as int, y as int, x as int);
                }
                return false;
            }
            i -= 1;
        }
        proof {
            assert(a@.take(0) =~= Seq::<u64>::empty());
            assert(b@.take(0) =~= Seq::<u64>::empty());
        }
        false
    }
}

/// If the top limbs of two equal-length prefixes differ, the prefix with the
/// smaller top limb denotes the smaller value.
proof fn lemma_cmp_decides(a: Seq<u64>, b: Seq<u64>, i: int, x: int, y: int)
    requires
        0 < i <= a.len(),
        i <= b.len(),
        x == a[i - 1],
        y == b[i - 1],
        x < y,
    ensures
        val_of(a.take(i)) < val_of(b.take(i)),
{
    let p = pow(BASE as int, (i - 1) as nat);
    lemma_val_take_succ(a, i - 1);
    lemma_val_take_succ(b, i - 1);
    lemma_val_upper(a.take(i - 1));
    lemma_val_nonneg(b.take(i - 1));
    lemma_pow_positive(BASE as int, (i - 1) as nat);
    assert(val_of(a.take(i)) < p + x * p);
    lemma_mul_inequality(x + 1, y, p);
    assert((x + 1) * p == x * p + p) by (nonlinear_arith);
}

proof fn lemma_mul_step(
    vout: int,
    vtake: int,
    limb: int,
    m: int,
    carry: int,
    hi: int,
    lo: int,
    p: int,
)
    requires
        vout + carry * p == vtake * m,
        limb * m + carry == lo + hi * (BASE as int),
    ensures
        (vout + lo * p) + hi * ((BASE as int) * p) == (vtake + limb * p) * m,
{
    assert((vout + lo * p) + hi * ((BASE as int) * p) == (vtake + limb * p) * m) by (nonlinear_arith)
        requires
            vout + carry * p == vtake * m,
            limb * m + carry == lo + hi * (BASE as int),
    ;
}

} // verus!
