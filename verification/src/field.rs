//! Arithmetic modulo the prime `P = 2^64 - 2^32 + 1`.
//!
//! `P - 1 = 2^32 * (2^32 - 1)`, so there are roots of unity of every order
//! `2^m` up to `2^32`; seven generates the multiplicative group.
use crate::group;
use crate::limbs::{high_limb, low_limb, mul_wide};
use vstd::arithmetic::div_mod::*;
use vstd::arithmetic::mul::*;
use vstd::arithmetic::power2::*;
use vstd::arithmetic::power;
use vstd::prelude::*;

verus! {

/// The modulus.
pub const P: u64 = 0xFFFF_FFFF_0000_0001;

/// `2^32 - 1`, which is `2^64` modulo `P`.
pub const EPSILON: u64 = 0xFFFF_FFFF;

/// A generator of the multiplicative group.
pub const GENERATOR: u64 = 7;

/// `x` modulo `P`.
pub open spec fn residue(x: int) -> int {
    x % (P as int)
}

/// Reduce a number below `2 * P`.
pub fn canonicalize(x: u64) -> (r: u64)
    ensures
        r as int == residue(x as int),
        r < P,
{
    proof {
        lemma_residue_small(x as int);
    }
    if x >= P {
        x - P
    } else {
        x
    }
}

proof fn lemma_residue_small(x: int)
    requires
        0 <= x < 2 * P,
    ensures
        residue(x) == if x >= P {
            x - P
        } else {
            x
        },
{
    if x >= P {
        lemma_fundamental_div_mod_converse(x, P as int, 1, x - P);
    } else {
        lemma_small_mod(x as nat, P as nat);
    }
}

/// `(a + b) mod P`.
pub fn add(a: u64, b: u64) -> (r: u64)
    requires
        a < P,
        b < P,
    ensures
        r as int == residue(a + b),
        r < P,
{
    proof {
        lemma_residue_small(a + b);
    }
    let gap: u64 = P - b;
    if a >= gap {
        a - gap
    } else {
        a + b
    }
}

/// `(a - b) mod P`.
pub fn sub(a: u64, b: u64) -> (r: u64)
    requires
        a < P,
        b < P,
    ensures
        r as int == residue(a - b),
        r < P,
{
    proof {
        if a >= b {
            lemma_residue_small(a - b);
        } else {
            lemma_residue_small(a - b + P);
            lemma_mod_add_multiples_vanish(a - b, P as int);
        }
    }
    if a >= b {
        a - b
    } else {
        a + (P - b)
    }
}

/// `x mod P`, by folding the upper limb: with `x = l + 2^64 * (h * 2^32 + m)`,
/// `x` is `l - h + m * (2^32 - 1)` modulo `P`.
pub fn reduce128(x: u128) -> (r: u64)
    ensures
        r as int == residue(x as int),
        r < P,
{
    let lo: u64 = low_limb(x);
    let hi: u64 = high_limb(x);
    let hi_hi: u64 = hi / 0x1_0000_0000;
    let hi_lo: u64 = hi % 0x1_0000_0000;
    let t0: u64 = canonicalize(if lo >= hi_hi { lo - hi_hi } else { lo + (P - hi_hi) });
    let t1: u64 = hi_lo * EPSILON;
    proof {
        assert(hi_lo * EPSILON < P) by (nonlinear_arith)
            requires
                0 <= hi_lo < 0x1_0000_0000,
                EPSILON == 0xFFFF_FFFF,
                P == 0xFFFF_FFFF_0000_0001,
        ;
    }
    let r: u64 = self::add(t0, t1);
    proof {
        let p = P as int;
        let l = lo as int;
        let hh = hi_hi as int;
        let hl = hi_lo as int;
        lemma_fundamental_div_mod(x as int, 0x1_0000_0000_0000_0000);
        assert(hi == hh * 0x1_0000_0000 + hl);
        // x - (l - hh + hl * (2^32 - 1)) is a multiple of P.
        let y = l - hh + hl * 0xFFFF_FFFF;
        assert(x == y + p * (hl + hh * 0x1_0000_0001 - 0 * hh)) by (nonlinear_arith)
            requires
                x == 0x1_0000_0000_0000_0000 * (hh * 0x1_0000_0000 + hl) + l,
                y == l - hh + hl * 0xFFFF_FFFF,
                p == 0xFFFF_FFFF_0000_0001,
        ;
        lemma_mod_multiples_vanish(hl + hh * 0x1_0000_0001 - 0 * hh, y, p);
        let s = if lo >= hi_hi { l - hh } else { l - hh + p };
        assert(residue(s) == residue(l - hh)) by {
            if lo < hi_hi {
                lemma_mod_add_multiples_vanish(l - hh, p);
            }
        }
        lemma_add_mod_noop(l - hh, hl * 0xFFFF_FFFF, p);
        lemma_add_mod_noop(t0 as int, t1 as int, p);
        lemma_mod_twice(l - hh, p);
    }
    r
}

/// `(a * b) mod P`.
pub fn mul(a: u64, b: u64) -> (r: u64)
    ensures
        r as int == residue(a * b),
        r < P,
{
    reduce128(mul_wide(a, b))
}

/// Residues of equal powers of equal residues.
pub proof fn lemma_pow_residue(a: int, b: int, e: nat)
    requires
        residue(a) == residue(b),
    ensures
        residue(power::pow(a, e)) == residue(power::pow(b, e)),
    decreases e,
{
    reveal(power::pow);
    if e > 0 {
        lemma_pow_residue(a, b, (e - 1) as nat);
        lemma_product_residue(
            a,
            b,
            power::pow(a, (e - 1) as nat),
            power::pow(b, (e - 1) as nat),
        );
    }
}

/// Residues of products of equal residues.
pub proof fn lemma_product_residue(a: int, b: int, x: int, y: int)
    requires
        residue(a) == residue(b),
        residue(x) == residue(y),
    ensures
        residue(a * x) == residue(b * y),
{
    lemma_mul_mod_noop_general(a, x, P as int);
    lemma_mul_mod_noop_general(b, y, P as int);
}

/// Residues of sums of equal residues.
pub proof fn lemma_sum_residue(a: int, b: int, x: int, y: int)
    requires
        residue(a) == residue(b),
        residue(x) == residue(y),
    ensures
        residue(a + x) == residue(b + y),
        residue(a - x) == residue(b - y),
{
    lemma_add_mod_noop(a, x, P as int);
    lemma_add_mod_noop(b, y, P as int);
    lemma_sub_mod_noop(a, x, P as int);
    lemma_sub_mod_noop(b, y, P as int);
}

/// `base^exp mod P`, by squaring and multiplying.
pub fn pow(base: u64, exp: u64) -> (r: u64)
    ensures
        r as int == residue(power::pow(base as int, exp as nat)),
        r < P,
{
    let mut acc: u64 = 1;
    let mut b: u64 = canonicalize(base);
    let mut e: u64 = exp;
    let ghost mut done: nat = 0;
    let ghost mut step: nat = 1;
    proof {
        power::lemma_pow0(base as int);
        power::lemma_pow1(base as int);
        lemma_small_mod(1, P as nat);
        lemma_mod_twice(base as int, P as int);
    }
    while e > 0
        invariant
            acc < P,
            b < P,
            acc as int == residue(power::pow(base as int, done)),
            e > 0 ==> b as int == residue(power::pow(base as int, step)),
            done + step * e == exp,
        decreases e,
    {
        let bit: u64 = e % 2;
        let half: u64 = e / 2;
        let ghost x = base as int;
        let ghost done0 = done;
        if bit == 1 {
            proof {
                power::lemma_pow_adds(x, done, step);
                lemma_mod_twice(power::pow(x, done), P as int);
                lemma_mod_twice(power::pow(x, step), P as int);
                lemma_product_residue(
                    acc as int,
                    power::pow(x, done),
                    b as int,
                    power::pow(x, step),
                );
                done = done + step;
            }
            acc = self::mul(acc, b);
        }
        e = half;
        if e > 0 {
            proof {
                power::lemma_pow_adds(x, step, step);
                lemma_mod_twice(power::pow(x, step), P as int);
                lemma_product_residue(
                    b as int,
                    power::pow(x, step),
                    b as int,
                    power::pow(x, step),
                );
            }
            b = self::mul(b, b);
        }
        proof {
            let s0 = step as int;
            step = step + step;
            assert(done + step * half == exp) by (nonlinear_arith)
                requires
                    exp == done0 + s0 * (2 * half + bit),
                    done == done0 + s0 * bit,
                    step == 2 * s0,
            ;
        }
    }
    proof {
        assert(step * 0 == 0);
    }
    acc
}

/// `a^(P - 2) mod P`, the inverse of `a` unless `P` divides it.
pub fn inv(a: u64) -> (r: u64)
    ensures
        r as int == residue(power::pow(a as int, (P - 2) as nat)),
        r < P,
        residue(a as int) != 0 ==> residue(a * r) == 1,
{
    proof {
        if residue(a as int) != 0 {
            group::law_inverse(a as int);
        }
    }
    self::pow(a, P - 2)
}

/// The root of unity that seven gives for `n`.  It is primitive where `n`
/// divides `P - 1`.
pub fn primitive_root_of_unity(n: u64) -> (r: u64)
    requires
        n > 0,
    ensures
        r as int == residue(power::pow(GENERATOR as int, ((P - 1) / n as int) as nat)),
        r < P,
        (P - 1) % (n as int) == 0 ==> forall|d: nat|
            0 < d < n ==> residue(#[trigger] power::pow(r as int, d)) != 1,
        (P - 1) % (n as int) == 0 ==> residue(power::pow(r as int, n as nat)) == 1,
{
    proof {
        if (P - 1) % (n as int) == 0 {
            let root = residue(power::pow(7, ((P - 1) / n as int) as nat));
            assert forall|d: nat| 0 < d < n implies residue(#[trigger] power::pow(root, d)) != 1 by {
                group::law_primitive_root(n as nat, d);
            }
            if n > 1 {
                group::law_primitive_root(n as nat, 1);
            } else {
                group::law_fermat(7);
                lemma_pow_residue(root, power::pow(7, (P - 1) as nat), 1);
                lemma_mod_twice(power::pow(7, (P - 1) as nat), P as int);
                power::lemma_pow1(root);
                power::lemma_pow1(power::pow(7, (P - 1) as nat));
                lemma_div_basics((P - 1) as int);
            }
        }
    }
    self::pow(GENERATOR, (P - 1) / n)
}

/// One squaring in a chain of powers of seven.
proof fn lemma_square_step(e: nat, x: int, y: int)
    requires
        residue(power::pow(7, e)) == x,
        residue(x * x) == y,
    ensures
        residue(power::pow(7, 2 * e)) == y,
{
    power::lemma_pow_adds(7, e, e);
    lemma_mod_twice(power::pow(7, e), P as int);
    lemma_product_residue(power::pow(7, e), x, power::pow(7, e), x);
}

/// One factor of seven in a chain of powers of seven.
proof fn lemma_factor_step(e: nat, x: int, y: int)
    requires
        residue(power::pow(7, e)) == x,
        residue(x * 7) == y,
    ensures
        residue(power::pow(7, e + 1)) == y,
{
    power::lemma_pow_adds(7, e, 1);
    power::lemma_pow1(7);
    lemma_mod_twice(power::pow(7, e), P as int);
    lemma_product_residue(power::pow(7, e), x, 7, 7);
}

/// Seven is no square modulo `P`: its power `(P - 1) / 2` is minus one.
pub proof fn lemma_generator_half()
    ensures
        residue(power::pow(7, 0x7FFF_FFFF_8000_0000)) == P - 1,
{
    power::lemma_pow1(7);
    lemma_square_step(1, 7, 49);
    lemma_factor_step(2, 49, 343);
    lemma_square_step(3, 343, 117649);
    lemma_factor_step(6, 117649, 823543);
    lemma_square_step(7, 823543, 678223072849);
    lemma_factor_step(14, 678223072849, 4747561509943);
    lemma_square_step(15, 4747561509943, 1582037354089406189);
    lemma_factor_step(30, 1582037354089406189, 11074261478625843323);
    lemma_square_step(31, 11074261478625843323, 14911712358349047125);
    lemma_factor_step(62, 14911712358349047125, 12148266161370408270);
    lemma_square_step(63, 12148266161370408270, 14177331716484271384);
    lemma_factor_step(126, 14177331716484271384, 7007601668316978083);
    lemma_square_step(127, 7007601668316978083, 1160753142525841411);
    lemma_factor_step(254, 1160753142525841411, 8125271997680889877);
    lemma_square_step(255, 8125271997680889877, 10915923311382173605);
    lemma_factor_step(510, 10915923311382173605, 2624486902016877951);
    lemma_square_step(511, 2624486902016877951, 1179017105118043277);
    lemma_factor_step(1022, 1179017105118043277, 8253119735826302939);
    lemma_square_step(1023, 8253119735826302939, 13682469552810377440);
    lemma_factor_step(2046, 13682469552810377440, 3543566522599720475);
    lemma_square_step(2047, 3543566522599720475, 12252646851770615269);
    lemma_factor_step(4094, 12252646851770615269, 11981551684735969599);
    lemma_square_step(4095, 11981551684735969599, 9343193256669382154);
    lemma_factor_step(8190, 9343193256669382154, 10062120588441922115);
    lemma_square_step(8191, 10062120588441922115, 4133221502128927102);
    lemma_factor_step(16382, 4133221502128927102, 10485806445487905393);
    lemma_square_step(16383, 10485806445487905393, 5861853314594190514);
    lemma_factor_step(32766, 5861853314594190514, 4139485063330164956);
    lemma_square_step(32767, 4139485063330164956, 7004045467739516513);
    lemma_factor_step(65534, 7004045467739516513, 12134830135347446949);
    lemma_square_step(65535, 12134830135347446949, 618113109518621269);
    lemma_factor_step(131070, 618113109518621269, 4326791766630348883);
    lemma_square_step(131071, 4326791766630348883, 13205783127219969319);
    lemma_factor_step(262142, 13205783127219969319, 206761543466863628);
    lemma_square_step(262143, 206761543466863628, 14617186517222294718);
    lemma_factor_step(524286, 14617186517222294718, 10086585273483141421);
    lemma_square_step(524287, 10086585273483141421, 5535602650859329748);
    lemma_factor_step(1048574, 5535602650859329748, 1855730417186139594);
    lemma_square_step(1048575, 1855730417186139594, 3724741596018185032);
    lemma_factor_step(2097150, 3724741596018185032, 7626447102712710903);
    lemma_square_step(2097151, 7626447102712710903, 11653985196031332500);
    lemma_factor_step(4194302, 11653985196031332500, 7790920094560990216);
    lemma_square_step(4194303, 7790920094560990216, 16654626667483233145);
    lemma_factor_step(8388606, 16654626667483233145, 5901922255895126089);
    lemma_square_step(8388607, 5901922255895126089, 9182212999444825067);
    lemma_factor_step(16777214, 9182212999444825067, 8935258787870022506);
    lemma_square_step(16777215, 8935258787870022506, 17682034324931514088);
    lemma_factor_step(33554430, 17682034324931514088, 13093775858033092690);
    lemma_square_step(33554431, 13093775858033092690, 9511995656157268947);
    lemma_factor_step(67108862, 9511995656157268947, 11243737384857129666);
    lemma_square_step(67108863, 11243737384857129666, 16106297366990222687);
    lemma_factor_step(134217726, 16106297366990222687, 2063617152444052883);
    lemma_square_step(134217727, 2063617152444052883, 4501656151559876649);
    lemma_factor_step(268435454, 4501656151559876649, 13064848991504552222);
    lemma_square_step(268435455, 13064848991504552222, 2370486178716065012);
    lemma_factor_step(536870910, 2370486178716065012, 16593403251012455084);
    lemma_square_step(536870911, 16593403251012455084, 14013264900002007546);
    lemma_factor_step(1073741822, 14013264900002007546, 5859133952941131217);
    lemma_square_step(1073741823, 5859133952941131217, 10142762553374040318);
    lemma_factor_step(2147483646, 10142762553374040318, 15659105665374529263);
    lemma_square_step(2147483647, 15659105665374529263, 16062014221418238814);
    lemma_factor_step(4294967294, 16062014221418238814, 1753635133440165772);
    lemma_square_step(4294967295, 1753635133440165772, 4614640910117430873);
    lemma_square_step(8589934590, 4614640910117430873, 9123114210336311365);
    lemma_square_step(17179869180, 9123114210336311365, 16116352524544190054);
    lemma_square_step(34359738360, 16116352524544190054, 6414415596519834757);
    lemma_square_step(68719476720, 6414415596519834757, 1213594585890690845);
    lemma_square_step(137438953440, 1213594585890690845, 17096174751763063430);
    lemma_square_step(274877906880, 17096174751763063430, 5456943929260765144);
    lemma_square_step(549755813760, 5456943929260765144, 9713644485405565297);
    lemma_square_step(1099511627520, 9713644485405565297, 16905767614792059275);
    lemma_square_step(2199023255040, 16905767614792059275, 5416168637041100469);
    lemma_square_step(4398046510080, 5416168637041100469, 17654865857378133588);
    lemma_square_step(8796093020160, 17654865857378133588, 3511170319078647661);
    lemma_square_step(17592186040320, 3511170319078647661, 18146160046829613826);
    lemma_square_step(35184372080640, 18146160046829613826, 9306717745644682924);
    lemma_square_step(70368744161280, 9306717745644682924, 12380578893860276750);
    lemma_square_step(140737488322560, 12380578893860276750, 6115771955107415310);
    lemma_square_step(281474976645120, 6115771955107415310, 17776499369601055404);
    lemma_square_step(562949953290240, 17776499369601055404, 16207902636198568418);
    lemma_square_step(1125899906580480, 16207902636198568418, 1532612707718625687);
    lemma_square_step(2251799813160960, 1532612707718625687, 17492915097719143606);
    lemma_square_step(4503599626321920, 17492915097719143606, 455906449640507599);
    lemma_square_step(9007199252643840, 455906449640507599, 11353340290879379826);
    lemma_square_step(18014398505287680, 11353340290879379826, 1803076106186727246);
    lemma_square_step(36028797010575360, 1803076106186727246, 13797081185216407910);
    lemma_square_step(72057594021150720, 13797081185216407910, 17870292113338400769);
    lemma_square_step(144115188042301440, 17870292113338400769, 549755813888);
    lemma_square_step(288230376084602880, 549755813888, 70368744161280);
    lemma_square_step(576460752169205760, 70368744161280, 17293822564807737345);
    lemma_square_step(1152921504338411520, 17293822564807737345, 18446744069397807105);
    lemma_square_step(2305843008676823040, 18446744069397807105, 281474976710656);
    lemma_square_step(4611686017353646080, 281474976710656, 18446744069414584320);
}

/// The field has `2^64 - 2^32 + 1` elements, each the remainder of a number, and its
/// generator is seven.
pub proof fn law_field(x: int)
    ensures
        P == 18_446_744_073_709_551_616 - 4_294_967_296 + 1,
        GENERATOR == 7,
        0 <= residue(x) < 18_446_744_069_414_584_321,
        (x - residue(x)) % 18_446_744_069_414_584_321 == 0,
{
    let p = P as int;
    lemma_fundamental_div_mod(x, p);
    lemma_mod_bound(x, p);
    lemma_mod_multiples_basic(x / p, p);
    lemma_mul_is_commutative(p, x / p);
}

} // verus!
