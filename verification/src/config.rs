//! The parameters of the curve: coefficients, cofactor and generator.
use crate::curve::{
    coeff_a, coeff_b, cofactor, cofactor_inv, curve_rhs, ec_mul, generator, generator_x,
    generator_y, jac_from, jac_mul, scalar_modulus, Point,
};
use crate::fq::{fq_mul, is_field, lemma_value_13, modulus, Fq};
use crate::g1::G1Affine;
use crate::limbs::{lemma_value_take_step, limbs_value, radix_pow};
use vstd::arithmetic::div_mod::lemma_fundamental_div_mod_converse;
use vstd::prelude::*;

verus! {

proof fn lemma_value_6(s: Seq<u64>)
    requires
        s.len() == 6,
    ensures
        limbs_value(s) == (s[0] as nat) * 0x1nat + (s[1] as nat) * 0x10000000000000000nat + (s[2] as nat) * 0x100000000000000000000000000000000nat + (s[3] as nat) * 0x1000000000000000000000000000000000000000000000000nat + (s[4] as nat) * 0x10000000000000000000000000000000000000000000000000000000000000000nat + (s[5] as nat) * 0x100000000000000000000000000000000000000000000000000000000000000000000000000000000nat,
{
    reveal_with_fuel(radix_pow, 7);
    assert(limbs_value(s.take(0)) == 0);
    lemma_value_take_step(s, 0);
    lemma_value_take_step(s, 1);
    lemma_value_take_step(s, 2);
    lemma_value_take_step(s, 3);
    lemma_value_take_step(s, 4);
    lemma_value_take_step(s, 5);
    assert(s.take(6) =~= s);
}

proof fn lemma_value_7(s: Seq<u64>)
    requires
        s.len() == 7,
    ensures
        limbs_value(s) == (s[0] as nat) * 0x1nat + (s[1] as nat) * 0x10000000000000000nat + (s[2] as nat) * 0x100000000000000000000000000000000nat + (s[3] as nat) * 0x1000000000000000000000000000000000000000000000000nat + (s[4] as nat) * 0x10000000000000000000000000000000000000000000000000000000000000000nat + (s[5] as nat) * 0x100000000000000000000000000000000000000000000000000000000000000000000000000000000nat + (s[6] as nat) * 0x1000000000000000000000000000000000000000000000000000000000000000000000000000000000000000000000000nat,
{
    reveal_with_fuel(radix_pow, 8);
    assert(limbs_value(s.take(0)) == 0);
    lemma_value_take_step(s, 0);
    lemma_value_take_step(s, 1);
    lemma_value_take_step(s, 2);
    lemma_value_take_step(s, 3);
    lemma_value_take_step(s, 4);
    lemma_value_take_step(s, 5);
    lemma_value_take_step(s, 6);
    assert(s.take(7) =~= s);
}

/// The cofactor and its inverse modulo the subgroup order are inverse to
/// each other: `cofactor_inv() * cofactor() = 1 (mod r)`.
pub proof fn law_cofactor_inverse()
    ensures
        (cofactor_inv() * cofactor()) % scalar_modulus() == 1,
{
    assert(cofactor_inv() * cofactor() == 54590206693307570683141825660430237481531392447804245108008624512141085513984793105809319817916288902001292659301875195119nat * scalar_modulus() + 1);
    lemma_fundamental_div_mod_converse(
        (cofactor_inv() * cofactor()) as int,
        scalar_modulus() as int,
        54590206693307570683141825660430237481531392447804245108008624512141085513984793105809319817916288902001292659301875195119int,
        1,
    );
}

/// The generator satisfies the curve equation and is not the point at
/// infinity.
pub proof fn law_generator_on_curve()
    ensures
        generator().on_curve(),
        generator().reduced(),
        generator() != Point::Infinity,
{
    let x = generator_x();
    let y = generator_y();
    let q = modulus() as int;
    let xx = 13198805761859701785155820348625888265965691712820827763268066867136324123487311709577750743656739573230197034595295554687374962040608379656163146664745921086263015529312209580381382497699068942787774875413950227045195294270859864650929nat;
    let xxx = 13064094591436052482570131540214489642564155179066425193865599515258047836418209036118593018866788511566160149180797788548566145016722511729656372989177537455056093584263622938884312469810112396725104953454325594877286340455357008575758nat;
    let ax = 5185944825732232509231210422363366385029273609307835121043260591053647235086929666462395557037996268268384777525362866601522698702498173816588970543490352778712633200837745201071663369222331401453184628829111161548915474951535113442653nat;
    let yy = 13644480236944267099740928825371892599619297441223788382611699524200729074408388310815281749000209087969333587650096010839330062833437900417262121645101551937592353551546243178890961159831119871104197533083688118384013515708230007249248nat;
    assert(x * x == 1357760276133999493932725123074979048114583072794070934992298274814872603965919787094920009642568693709885308417020644426154994055225955246980685609097801961451109500310649274065408021705370961880921627580996259906168503042189583493531nat * modulus() + xx);
    lemma_fundamental_div_mod_converse((x * x) as int, q, 1357760276133999493932725123074979048114583072794070934992298274814872603965919787094920009642568693709885308417020644426154994055225955246980685609097801961451109500310649274065408021705370961880921627580996259906168503042189583493531int, xx as int);
    assert(xx * x == 3251729530307808214275709086246027828856618318255603545170768965100620177967290361093177834790867509584412685429967199741411842505509285352790084636152338471532546974753420267617010659756271592726682718549768405114644864067027837737888nat * modulus() + xxx);
    lemma_fundamental_div_mod_converse((xx * x) as int, q, 3251729530307808214275709086246027828856618318255603545170768965100620177967290361093177834790867509584412685429967199741411842505509285352790084636152338471532546974753420267617010659756271592726682718549768405114644864067027837737888int, xxx as int);
    assert(coeff_a() * x == 1nat * modulus() + ax);
    lemma_fundamental_div_mod_converse((coeff_a() * x) as int, q, 1int, ax as int);
    assert(y * y == 2799189816421392078222284217291879131532963803911880793745560716681294521310299376209327712809511876446701911728497070604026548848660089413031064649521899069764905176891972920027203880615862604169117763732030911343632634148246425862513nat * modulus() + yy);
    lemma_fundamental_div_mod_converse((y * y) as int, q, 2799189816421392078222284217291879131532963803911880793745560716681294521310299376209327712809511876446701911728497070604026548848660089413031064649521899069764905176891972920027203880615862604169117763732030911343632634148246425862513int, yy as int);
    assert(fq_mul(x, x) == xx);
    assert(fq_mul(xx, x) == xxx);
    assert(fq_mul(coeff_a(), x) == ax);
    assert(fq_mul(y, y) == yy);
    lemma_fundamental_div_mod_converse((xxx + ax) as int, q, 0int, 18250039417168284991801341962577856027593428788374260314908860106311695071505138702580988575904784779834544926706160655150088843719220685546245343532667890233768726785101368139955975839032443798178289582283436756426201815406892122018411int);
    lemma_fundamental_div_mod_converse((18250039417168284991801341962577856027593428788374260314908860106311695071505138702580988575904784779834544926706160655150088843719220685546245343532667890233768726785101368139955975839032443798178289582283436756426201815406892122018411nat + coeff_b()) as int, q, 1int, yy as int);
    assert(curve_rhs(x) == yy);
}

/// The x-coordinate of the generator of G1.
pub fn g1_generator_x() -> (r: Fq)
    ensures
        r@ == generator_x(),
{
    let limbs: [u64; 13] = [
        0x290019736917c00e,
        0x6b9bd5d34ee12b44,
        0x25b3f5edfbdf5e1c,
        0x0f3927578e4efbe3,
        0x0dedade9abebef66,
        0xdbd0cea8e77f4753,
        0x19416580e5b67c43,
        0x7d361af3a2ea0ebe,
        0xa4fb86c6714af477,
        0x6e7976ce0336b848,
        0x9b7406a68b031815,
        0xd29680c771759a01,
        0x0000000000000ddd,
    ];
    proof {
        lemma_value_13(limbs@);
    }
    Fq::from_limbs(limbs).unwrap()
}

/// The y-coordinate of the generator of G1.
pub fn g1_generator_y() -> (r: Fq)
    ensures
        r@ == generator_y(),
{
    let limbs: [u64; 13] = [
        0xd2e1f08d97bf422b,
        0x08a33075c0687a2d,
        0x66365f0753358f10,
        0xf55c37d2389d3e4c,
        0x8d0671603ff5c29c,
        0xf448cd5f193566f8,
        0x11a4224b5936abe8,
        0x720355eb6bca3314,
        0x7ae0c40f642e1cf1,
        0xc87f0324a13b407b,
        0x883af4aad5dd1917,
        0xf5ea095b73a443f4,
        0x00000000000013e8,
    ];
    proof {
        lemma_value_13(limbs@);
    }
    Fq::from_limbs(limbs).unwrap()
}

/// The parameters of the curve whose subgroup G1 this crate implements.
#[derive(Clone, Copy, Debug, Default, PartialEq, Eq)]
pub struct Config;

/// A relation between the parameters of the curve fails.
#[derive(Clone, Copy, Debug, PartialEq, Eq)]
pub struct InvalidConfiguration;

impl Config {
    /// The cofactor, as little-endian limbs.
    pub fn cofactor() -> (r: [u64; 7])
        ensures
            limbs_value(r@) == cofactor(),
    {
        let r: [u64; 7] = [
            0x5657b9b57b942344,
            0x84f9a65f3bd54eaf,
            0x05ea4214e35cd127,
            0xe3cbcbc14ec1501d,
            0xf196cb845a3092ab,
            0x7e14627ad0e19017,
            0x0000000000217db4,
        ];
        proof {
            lemma_value_7(r@);
        }
        r
    }

    /// The inverse of the cofactor modulo the subgroup order, as
    /// little-endian limbs.
    pub fn cofactor_inv() -> (r: [u64; 6])
        ensures
            limbs_value(r@) == cofactor_inv(),
    {
        let r: [u64; 6] = [
            0x8ab71af5000c227c,
            0x904dde8909beaafb,
            0x8ac3516add3c230a,
            0xe32f1c4fd2536e65,
            0x6297eada7a5a97d3,
            0x010f92a023250aba,
        ];
        proof {
            lemma_value_6(r@);
        }
        r
    }

    /// The subgroup order `r`, as little-endian limbs.
    pub fn scalar_modulus() -> (r: [u64; 6])
        ensures
            limbs_value(r@) == scalar_modulus(),
    {
        let r: [u64; 6] = [
            0x8508c00000000001,
            0x170b5d4430000000,
            0x1ef3622fba094800,
            0x1a22d9f300f5138f,
            0xc63b05c06ca1493b,
            0x01ae3a4617c510ea,
        ];
        proof {
            lemma_value_6(r@);
        }
        r
    }

    /// The curve coefficient `a = 5`.
    pub fn coeff_a() -> (r: Fq)
        ensures
            r@ == coeff_a(),
    {
        Fq::from_u64(5)
    }

    /// The curve coefficient `b`.
    pub fn coeff_b() -> (r: Fq)
        ensures
            r@ == coeff_b(),
    {
        let limbs: [u64; 13] = [
            0xaefe9e08c2e171de,
            0x919605cd5f4c4aac,
            0xb7e11a732e201cf2,
            0x8c34a82cdcf1b9fc,
            0x1f3e383f77a1f36d,
            0xb29a26000e3f51b3,
            0xb629b6afdadce8d8,
            0x9058a68fc984aed1,
            0x61dbf155b5f68692,
            0x487938eab7833f55,
            0x156f35a693ad0e1d,
            0x42783886aa09fc09,
            0x0000000000002cb2,
        ];
        proof {
            lemma_value_13(limbs@);
        }
        Fq::from_limbs(limbs).unwrap()
    }

    /// Checks that the generator has the order of G1, that is, that `r` times
    /// the generator is the point at infinity. The other relations between
    /// the parameters need no check: [`law_generator_on_curve`] proves that
    /// the generator is a point of the curve other than the point at
    /// infinity, and [`law_cofactor_inverse`] the relation between the
    /// cofactor and its inverse.
    pub fn validate() -> (r: Result<(), InvalidConfiguration>)
        ensures
            r is Ok <==> jac_mul(scalar_modulus(), jac_from(generator())).z == 0,
            is_field() ==> (r is Ok <==> ec_mul(scalar_modulus(), generator())
                == Point::Infinity),
    {
        if Config::generator().is_in_correct_subgroup_assuming_on_curve() {
            Ok(())
        } else {
            Err(InvalidConfiguration)
        }
    }

    /// The generator of G1.
    pub fn generator() -> (r: G1Affine)
        ensures
            r@ == generator(),
            r@.on_curve(),
    {
        proof {
            law_generator_on_curve();
        }
        G1Affine::new_unchecked(g1_generator_x(), g1_generator_y())
    }
}

} // verus!
