use vstd::prelude::*;

verus! {

/// Euclid's greatest common divisor.
pub open spec fn gcd_spec(a: nat, b: nat) -> nat
    decreases b,
{
    if b == 0 {
        a
    } else {
        gcd_spec(b, a % b)
    }
}

/// The least common multiple, through the greatest common divisor.
pub open spec fn lcm_spec(a: nat, b: nat) -> nat {
    (a / gcd_spec(a, b)) * b
}

/// The larger of two naturals.
pub open spec fn nmax(a: nat, b: nat) -> nat {
    if a >= b {
        a
    } else {
        b
    }
}

pub proof fn lemma_gcd_pos(a: nat, b: nat)
    requires
        a >= 1 || b >= 1,
    ensures
        gcd_spec(a, b) >= 1,
    decreases b,
{
    if b != 0 {
        lemma_gcd_pos(b, a % b);
    }
}

pub proof fn lemma_gcd_le_second(a: nat, b: nat)
    requires
        b >= 1,
    ensures
        gcd_spec(a, b) <= b,
    decreases b,
{
    if a % b == 0 {
        assert(gcd_spec(b, 0) == b);
    } else {
        lemma_gcd_le_second(b, a % b);
    }
}

pub proof fn lemma_gcd_le_first(a: nat, b: nat)
    requires
        a >= 1,
    ensures
        gcd_spec(a, b) <= a,
{
    if b == 0 {
    } else if b <= a {
        lemma_gcd_le_second(a, b);
    } else {
        assert(a % b == a) by (nonlinear_arith)
            requires
                0 < a < b,
        ;
        lemma_gcd_le_second(b, a % b);
    }
}

pub fn gcd(a: u64, b: u64) -> (g: u64)
    ensures
        g as nat == gcd_spec(a as nat, b as nat),
{
    let mut x = a;
    let mut y = b;
    while y != 0
        invariant
            gcd_spec(x as nat, y as nat) == gcd_spec(a as nat, b as nat),
        decreases y,
    {
        let r = x % y;
        x = y;
        y = r;
    }
    x
}

pub fn lcm(a: u64, b: u64) -> (m: u64)
    requires
        1 <= a <= 100,
        1 <= b <= 100,
    ensures
        m as nat == lcm_spec(a as nat, b as nat),
        1 <= m <= 10000,
{
    let g = gcd(a, b);
    proof {
        lemma_gcd_pos(a as nat, b as nat);
        lemma_gcd_le_first(a as nat, b as nat);
    }
    let q = a / g;
    assert(1 <= q <= 100) by (nonlinear_arith)
        requires
            1 <= g <= a <= 100,
            q == a / g,
    ;
    assert(1 <= q * b <= 10000) by (nonlinear_arith)
        requires
            1 <= q <= 100,
            1 <= b <= 100,
    ;
    q * b
}

/// The largest least common multiple of `x` with any entry of `s`,
/// or 1 when `s` is empty.
pub open spec fn max_lcm_with(x: nat, s: Seq<u64>) -> nat
    decreases s.len(),
{
    if s.len() == 0 {
        1
    } else {
        nmax(max_lcm_with(x, s.drop_last()), lcm_spec(s.last() as nat, x))
    }
}

/// The largest least common multiple over all unordered pairs of entries,
/// or 1 when there is no pair.
pub open spec fn pair_scale(s: Seq<u64>) -> nat
    decreases s.len(),
{
    if s.len() < 2 {
        1
    } else {
        nmax(pair_scale(s.drop_last()), max_lcm_with(s.last() as nat, s.drop_last()))
    }
}

/// The integer scale of a denominator list: the single denominator when
/// there is exactly one, else the largest pairwise least common multiple.
pub open spec fn scale_spec(s: Seq<u64>) -> nat {
    if s.len() == 1 {
        s[0] as nat
    } else {
        pair_scale(s)
    }
}

pub fn scale_of(dens: &Vec<u64>) -> (sc: u64)
    requires
        forall|k: int| 0 <= k < dens@.len() ==> 1 <= #[trigger] dens@[k] <= 100,
    ensures
        sc as nat == scale_spec(dens@),
        1 <= sc <= 10000,
{
    if dens.len() == 0 {
        assert(pair_scale(dens@) == 1);
        return 1;
    }
    if dens.len() == 1 {
        return dens[0];
    }
    let mut acc: u64 = 1;
    let mut j: usize = 1;
    assert(pair_scale(dens@.take(1)) == 1);
    while j < dens.len()
        invariant
            1 <= j <= dens@.len(),
            2 <= dens@.len(),
            forall|k: int| 0 <= k < dens@.len() ==> 1 <= #[trigger] dens@[k] <= 100,
            acc as nat == pair_scale(dens@.take(j as int)),
            1 <= acc <= 10000,
        decreases dens@.len() - j,
    {
        let mut inner: u64 = 1;
        let mut i: usize = 0;
        while i < j
            invariant
                0 <= i <= j < dens@.len(),
                forall|k: int| 0 <= k < dens@.len() ==> 1 <= #[trigger] dens@[k] <= 100,
                inner as nat == max_lcm_with(dens@[j as int] as nat, dens@.take(i as int)),
                1 <= inner <= 10000,
            decreases j - i,
        {
            let l = lcm(dens[i], dens[j]);
            assert(dens@.take(i as int + 1).drop_last() =~= dens@.take(i as int));
            assert(dens@.take(i as int + 1).last() == dens@[i as int]);
            if l > inner {
                inner = l;
            }
            i = i + 1;
        }
        assert(dens@.take(j as int + 1).drop_last() =~= dens@.take(j as int));
        assert(dens@.take(j as int + 1).last() == dens@[j as int]);
        if inner > acc {
            acc = inner;
        }
        j = j + 1;
    }
    proof {
        assert(dens@.take(dens@.len() as int) =~= dens@);
    }
    acc
}

/// The absolute difference of two naturals.
pub open spec fn dist(x: nat, y: nat) -> nat {
    if x >= y {
        (x - y) as nat
    } else {
        (y - x) as nat
    }
}

pub fn abs_diff(x: u128, y: u128) -> (r: u128)
    ensures
        r as nat == dist(x as nat, y as nat),
{
    if x >= y {
        x - y
    } else {
        y - x
    }
}

/// The exact product of two machine words, widened.
pub fn mul_u64(x: u64, y: u64) -> (r: u128)
    ensures
        r as nat == (x as nat) * (y as nat),
{
    proof {
        assert((x as int) * (y as int) < 0x100000000000000000000000000000000) by (nonlinear_arith)
            requires
                0 <= x <= 0xFFFFFFFFFFFFFFFFu64,
                0 <= y <= 0xFFFFFFFFFFFFFFFFu64,
        ;
    }
    (x as u128) * (y as u128)
}

/// Whether `a * b <= c * d`, computed exactly by splitting each product
/// into a high and a low 64-bit limb.
pub fn mul_le(a: u128, b: u64, c: u128, d: u64) -> (r: bool)
    ensures
        r == ((a as nat) * (b as nat) <= (c as nat) * (d as nat)),
{
    let (x1, y1) = mul_limbs(a, b);
    let (x2, y2) = mul_limbs(c, d);
    proof {
        lemma_limb_le(x1 as nat, y1 as nat, x2 as nat, y2 as nat);
    }
    x1 < x2 || (x1 == x2 && y1 <= y2)
}

/// The product `a * b` as `(hi, lo)` with value `hi * 2^64 + lo` and
/// `lo < 2^64`.
fn mul_limbs(a: u128, b: u64) -> (r: (u128, u128))
    ensures
        (a as nat) * (b as nat) == (r.0 as nat) * 0x1_0000_0000_0000_0000 + (r.1 as nat),
        r.1 < 0x1_0000_0000_0000_0000,
{
    let ah = a / 0x1_0000_0000_0000_0000u128;
    let al = a % 0x1_0000_0000_0000_0000u128;
    assert(ah * (b as u128) <= 0xFFFF_FFFF_FFFF_FFFFu128 * 0xFFFF_FFFF_FFFF_FFFFu128 && al * (
    b as u128) <= 0xFFFF_FFFF_FFFF_FFFFu128 * 0xFFFF_FFFF_FFFF_FFFFu128) by (nonlinear_arith)
        requires
            ah <= 0xFFFF_FFFF_FFFF_FFFFu128,
            al <= 0xFFFF_FFFF_FFFF_FFFFu128,
            b <= 0xFFFF_FFFF_FFFF_FFFFu64,
    ;
    let hi = ah * (b as u128);
    let lo = al * (b as u128);
    let x = hi + lo / 0x1_0000_0000_0000_0000u128;
    let y = lo % 0x1_0000_0000_0000_0000u128;
    proof {
        lemma_limb_value(a as nat, b as nat, ah as nat, al as nat, x as nat, y as nat);
    }
    (x, y)
}

proof fn lemma_limb_value(a: nat, b: nat, ah: nat, al: nat, x: nat, y: nat)
    requires
        ah == a / 0x1_0000_0000_0000_0000,
        al == a % 0x1_0000_0000_0000_0000,
        x == ah * b + (al * b) / 0x1_0000_0000_0000_0000,
        y == (al * b) % 0x1_0000_0000_0000_0000,
    ensures
        a * b == x * 0x1_0000_0000_0000_0000 + y,
{
    let m: nat = 0x1_0000_0000_0000_0000;
    assert(a == ah * m + al) by (nonlinear_arith)
        requires
            ah == a / m,
            al == a % m,
            m == 0x1_0000_0000_0000_0000,
    ;
    assert(al * b == ((al * b) / m) * m + (al * b) % m) by (nonlinear_arith)
        requires
            m == 0x1_0000_0000_0000_0000,
    ;
    assert((ah * m + al) * b == ah * b * m + al * b) by (nonlinear_arith);
    assert(a * b == ah * b * m + ((al * b) / m) * m + y) by (nonlinear_arith)
        requires
            a == ah * m + al,
            al * b == ((al * b) / m) * m + y,
            m == 0x1_0000_0000_0000_0000,
    ;
    assert((ah * b + (al * b) / m) * m == ah * b * m + ((al * b) / m) * m) by (nonlinear_arith);
}

proof fn lemma_limb_le(x1: nat, y1: nat, x2: nat, y2: nat)
    requires
        y1 < 0x1_0000_0000_0000_0000,
        y2 < 0x1_0000_0000_0000_0000,
    ensures
        (x1 * 0x1_0000_0000_0000_0000 + y1 <= x2 * 0x1_0000_0000_0000_0000 + y2) == (x1 < x2 || (x1
            == x2 && y1 <= y2)),
{
    let m: nat = 0x1_0000_0000_0000_0000;
    if x1 < x2 {
        assert(x1 * m + y1 < x2 * m + y2) by (nonlinear_arith)
            requires
                x1 < x2,
                y1 < m,
                m == 0x1_0000_0000_0000_0000,
        ;
    } else if x1 > x2 {
        assert(x1 * m + y1 > x2 * m + y2) by (nonlinear_arith)
            requires
                x1 > x2,
                y2 < m,
                m == 0x1_0000_0000_0000_0000,
        ;
    }
}

} // verus!
