//! The named constants are what the builders make of their decimals: each
//! literal word is proved equal to the builder's result.

use vstd::prelude::*;
use vstd::arithmetic::power2::{pow2, lemma2_to64, lemma2_to64_rest};
use crate::bits::{two63, trunc_div, lead_bits};
use crate::builder::{scale_down, spec_pdc2, spec_pdc10};
use crate::laws::lemma_lead_bits_unique;
use crate::pseudo_double::{PseudoDouble, normal_mantissa, trunc16, lemma_pack};

verus! {

/// One turn of the scaling loop on a value whose normalizing shift is `k`.
#[verifier::spinoff_prover]
#[verifier::rlimit(40)]
pub proof fn lemma_scale_down_step(d: int, e: nat, nexp: int, k: nat, d2: int)
    requires
        e > 0,
        -two63() <= d < two63(),
        d != 0,
        k <= 63,
        normal_mantissa(d * pow2(k)),
        d2 == trunc_div(d * pow2(k), 10),
    ensures
        scale_down(d, e, nexp) == scale_down(d2, (e - 1) as nat, nexp - k),
{
    lemma_lead_bits_unique(d, k);
    lemma2_to64();
    if k == 0 {
        assert(d * pow2(0) == d);
    }
}

/// The word that the binary builder makes of a value whose normalizing
/// shift is `k`.
#[verifier::spinoff_prover]
#[verifier::rlimit(40)]
pub proof fn lemma_pdc2_word(d: int, e: int, k: nat, word: int)
    requires
        -two63() <= d < two63(),
        d != 0,
        k <= 63,
        normal_mantissa(d * pow2(k)),
        0 <= 32832 - k + e <= 65535,
        word == trunc16(d * pow2(k)) + (32832 - k + e),
    ensures
        spec_pdc2(d, e) == PseudoDouble(word as i64),
        -two63() <= word < two63(),
{
    lemma_lead_bits_unique(d, k);
    lemma_pack(d * pow2(k), 32832 - k + e);
}

/// Half a turn in radians is the full turn with its exponent one lower.
#[verifier::spinoff_prover]
#[verifier::rlimit(40)]
pub proof fn lemma_word_of_pi()
    ensures
        PseudoDouble(crate::pseudo_double::PD_TAU_BITS).spec_ldexp(-1) == PseudoDouble(
            crate::pseudo_double::PD_PI_BITS,
        ),
{
    crate::bits::lemma_wrap64_id(crate::pseudo_double::PD_TAU_BITS - 1);
}

/// The word of one is what the decimal builder makes of `1e0`.
#[verifier::spinoff_prover]
#[verifier::rlimit(100)]
pub proof fn lemma_word_of_one()
    ensures
        spec_pdc10(1, 0) == PseudoDouble(crate::pseudo_double::PD_ONE_BITS),
{
    lemma2_to64();
    lemma2_to64_rest();
    lemma_pdc2_word(1, 0, 62, 4611686018427420674);
}

/// The word of minus one is what the decimal builder makes of `-1e0`.
#[verifier::spinoff_prover]
#[verifier::rlimit(100)]
pub proof fn lemma_word_of_neg_one()
    ensures
        spec_pdc10(-1, 0) == PseudoDouble(crate::pseudo_double::PD_NEG_ONE_BITS),
{
    lemma2_to64();
    lemma2_to64_rest();
    lemma_pdc2_word((-1), 0, 63, (-9223372036854743039));
}

/// The word of three is what the decimal builder makes of `3e0`.
#[verifier::spinoff_prover]
#[verifier::rlimit(100)]
pub proof fn lemma_word_of_three()
    ensures
        spec_pdc10(3, 0) == PseudoDouble(crate::pseudo_double::PD_THREE_BITS),
{
    lemma2_to64();
    lemma2_to64_rest();
    lemma_pdc2_word(3, 0, 61, 6917529027641114627);
}

/// The word of two is what the decimal builder makes of `2e0`.
#[verifier::spinoff_prover]
#[verifier::rlimit(100)]
pub proof fn lemma_word_of_two()
    ensures
        spec_pdc10(2, 0) == PseudoDouble(crate::scalar::PD_TWO_BITS),
{
    lemma2_to64();
    lemma2_to64_rest();
    lemma_pdc2_word(2, 0, 61, 4611686018427420675);
}

/// The word of six is what the decimal builder makes of `6e0`.
#[verifier::spinoff_prover]
#[verifier::rlimit(100)]
pub proof fn lemma_word_of_six()
    ensures
        spec_pdc10(6, 0) == PseudoDouble(crate::scalar::PD_SIX_BITS),
{
    lemma2_to64();
    lemma2_to64_rest();
    lemma_pdc2_word(6, 0, 60, 6917529027641114628);
}

/// The word of ten is what the decimal builder makes of `10e0`.
#[verifier::spinoff_prover]
#[verifier::rlimit(100)]
pub proof fn lemma_word_of_ten()
    ensures
        spec_pdc10(10, 0) == PseudoDouble(crate::scalar::PD_TEN_BITS),
{
    lemma2_to64();
    lemma2_to64_rest();
    lemma_pdc2_word(10, 0, 59, 5764607523034267653);
}

/// The word of `log2(e)` is what the decimal builder makes of `1442695040888963407e-18`.
#[verifier::spinoff_prover]
#[verifier::rlimit(100)]
pub proof fn lemma_word_of_log_2_e()
    ensures
        spec_pdc10(1442695040888963407, -18) == PseudoDouble(crate::pseudo_double::PD_LOG_2_E_BITS),
{
    lemma2_to64();
    lemma2_to64_rest();
    lemma_scale_down_step(1442695040888963407, 18, 0, 2, 577078016355585362);
    lemma_scale_down_step(577078016355585362, 17, (-2), 3, 461662413084468289);
    lemma_scale_down_step(461662413084468289, 16, (-5), 4, 738659860935149262);
    lemma_scale_down_step(738659860935149262, 15, (-9), 3, 590927888748119409);
    lemma_scale_down_step(590927888748119409, 14, (-12), 3, 472742310998495527);
    lemma_scale_down_step(472742310998495527, 13, (-15), 4, 756387697597592843);
    lemma_scale_down_step(756387697597592843, 12, (-19), 3, 605110158078074274);
    lemma_scale_down_step(605110158078074274, 11, (-22), 3, 484088126462459419);
    lemma_scale_down_step(484088126462459419, 10, (-25), 4, 774541002339935070);
    lemma_scale_down_step(774541002339935070, 9, (-29), 3, 619632801871948056);
    lemma_scale_down_step(619632801871948056, 8, (-32), 3, 495706241497558444);
    lemma_scale_down_step(495706241497558444, 7, (-35), 4, 793129986396093510);
    lemma_scale_down_step(793129986396093510, 6, (-39), 3, 634503989116874808);
    lemma_scale_down_step(634503989116874808, 5, (-42), 3, 507603191293499846);
    lemma_scale_down_step(507603191293499846, 4, (-45), 4, 812165106069599753);
    lemma_scale_down_step(812165106069599753, 3, (-49), 3, 649732084855679802);
    lemma_scale_down_step(649732084855679802, 2, (-52), 3, 519785667884543841);
    lemma_scale_down_step(519785667884543841, 1, (-55), 4, 831657068615270145);
    assert(scale_down(1442695040888963407, 18, 0) == (831657068615270145int, -59int));
    lemma_pdc2_word(831657068615270145, (-59), 3, 6653256548922130434);
}

/// The word of `log2(10)` is what the decimal builder makes of `3321928094887362347e-18`.
#[verifier::spinoff_prover]
#[verifier::rlimit(100)]
pub proof fn lemma_word_of_log_2_10()
    ensures
        spec_pdc10(3321928094887362347, -18) == PseudoDouble(crate::pseudo_double::PD_LOG_2_10_BITS),
{
    lemma2_to64();
    lemma2_to64_rest();
    lemma_scale_down_step(3321928094887362347, 18, 0, 1, 664385618977472469);
    lemma_scale_down_step(664385618977472469, 17, (-1), 3, 531508495181977975);
    lemma_scale_down_step(531508495181977975, 16, (-4), 4, 850413592291164760);
    lemma_scale_down_step(850413592291164760, 15, (-8), 3, 680330873832931808);
    lemma_scale_down_step(680330873832931808, 14, (-11), 3, 544264699066345446);
    lemma_scale_down_step(544264699066345446, 13, (-14), 4, 870823518506152713);
    lemma_scale_down_step(870823518506152713, 12, (-18), 3, 696658814804922170);
    lemma_scale_down_step(696658814804922170, 11, (-21), 3, 557327051843937736);
    lemma_scale_down_step(557327051843937736, 10, (-24), 4, 891723282950300377);
    lemma_scale_down_step(891723282950300377, 9, (-28), 3, 713378626360240301);
    lemma_scale_down_step(713378626360240301, 8, (-31), 3, 570702901088192240);
    lemma_scale_down_step(570702901088192240, 7, (-34), 4, 913124641741107584);
    lemma_scale_down_step(913124641741107584, 6, (-38), 3, 730499713392886067);
    lemma_scale_down_step(730499713392886067, 5, (-41), 3, 584399770714308853);
    lemma_scale_down_step(584399770714308853, 4, (-44), 3, 467519816571447082);
    lemma_scale_down_step(467519816571447082, 3, (-47), 4, 748031706514315331);
    lemma_scale_down_step(748031706514315331, 2, (-51), 3, 598425365211452264);
    lemma_scale_down_step(598425365211452264, 1, (-54), 3, 478740292169161811);
    assert(scale_down(3321928094887362347, 18, 0) == (478740292169161811int, -57int));
    lemma_pdc2_word(478740292169161811, (-57), 4, 7659844674706571267);
}

/// The word of `1 / log2(e)` is what the decimal builder makes of `6931471805599453094e-19`.
#[verifier::spinoff_prover]
#[verifier::rlimit(100)]
pub proof fn lemma_word_of_inv_log_2_e()
    ensures
        spec_pdc10(6931471805599453094, -19) == PseudoDouble(crate::pseudo_double::PD_INV_LOG_2_E_BITS),
{
    lemma2_to64();
    lemma2_to64_rest();
    lemma_scale_down_step(6931471805599453094, 19, 0, 0, 693147180559945309);
    lemma_scale_down_step(693147180559945309, 18, 0, 3, 554517744447956247);
    lemma_scale_down_step(554517744447956247, 17, (-3), 4, 887228391116729995);
    lemma_scale_down_step(887228391116729995, 16, (-7), 3, 709782712893383996);
    lemma_scale_down_step(709782712893383996, 15, (-10), 3, 567826170314707196);
    lemma_scale_down_step(567826170314707196, 14, (-13), 4, 908521872503531513);
    lemma_scale_down_step(908521872503531513, 13, (-17), 3, 726817498002825210);
    lemma_scale_down_step(726817498002825210, 12, (-20), 3, 581453998402260168);
    lemma_scale_down_step(581453998402260168, 11, (-23), 3, 465163198721808134);
    lemma_scale_down_step(465163198721808134, 10, (-26), 4, 744261117954893014);
    lemma_scale_down_step(744261117954893014, 9, (-30), 3, 595408894363914411);
    lemma_scale_down_step(595408894363914411, 8, (-33), 3, 476327115491131528);
    lemma_scale_down_step(476327115491131528, 7, (-36), 4, 762123384785810444);
    lemma_scale_down_step(762123384785810444, 6, (-40), 3, 609698707828648355);
    lemma_scale_down_step(609698707828648355, 5, (-43), 3, 487758966262918684);
    lemma_scale_down_step(487758966262918684, 4, (-46), 4, 780414346020669894);
    lemma_scale_down_step(780414346020669894, 3, (-50), 3, 624331476816535915);
    lemma_scale_down_step(624331476816535915, 2, (-53), 3, 499465181453228732);
    lemma_scale_down_step(499465181453228732, 1, (-56), 4, 799144290325165971);
    assert(scale_down(6931471805599453094, 19, 0) == (799144290325165971int, -60int));
    lemma_pdc2_word(799144290325165971, (-60), 3, 6393154322601312257);
}

/// The word of `1 / log2(10)` is what the decimal builder makes of `3010299956639811952e-19`.
#[verifier::spinoff_prover]
#[verifier::rlimit(100)]
pub proof fn lemma_word_of_inv_log_2_10()
    ensures
        spec_pdc10(3010299956639811952, -19) == PseudoDouble(crate::pseudo_double::PD_INV_LOG_2_10_BITS),
{
    lemma2_to64();
    lemma2_to64_rest();
    lemma_scale_down_step(3010299956639811952, 19, 0, 1, 602059991327962390);
    lemma_scale_down_step(602059991327962390, 18, (-1), 3, 481647993062369912);
    lemma_scale_down_step(481647993062369912, 17, (-4), 4, 770636788899791859);
    lemma_scale_down_step(770636788899791859, 16, (-8), 3, 616509431119833487);
    lemma_scale_down_step(616509431119833487, 15, (-11), 3, 493207544895866789);
    lemma_scale_down_step(493207544895866789, 14, (-14), 4, 789132071833386862);
    lemma_scale_down_step(789132071833386862, 13, (-18), 3, 631305657466709489);
    lemma_scale_down_step(631305657466709489, 12, (-21), 3, 505044525973367591);
    lemma_scale_down_step(505044525973367591, 11, (-24), 4, 808071241557388145);
    lemma_scale_down_step(808071241557388145, 10, (-28), 3, 646456993245910516);
    lemma_scale_down_step(646456993245910516, 9, (-31), 3, 517165594596728412);
    lemma_scale_down_step(517165594596728412, 8, (-34), 4, 827464951354765459);
    lemma_scale_down_step(827464951354765459, 7, (-38), 3, 661971961083812367);
    lemma_scale_down_step(661971961083812367, 6, (-41), 3, 529577568867049893);
    lemma_scale_down_step(529577568867049893, 5, (-44), 4, 847324110187279828);
    lemma_scale_down_step(847324110187279828, 4, (-48), 3, 677859288149823862);
    lemma_scale_down_step(677859288149823862, 3, (-51), 3, 542287430519859089);
    lemma_scale_down_step(542287430519859089, 2, (-54), 4, 867659888831774542);
    lemma_scale_down_step(867659888831774542, 1, (-58), 3, 694127911065419633);
    assert(scale_down(3010299956639811952, 19, 0) == (694127911065419633int, -61int));
    lemma_pdc2_word(694127911065419633, (-61), 3, 5553023288523325440);
}

/// The word of a full turn in radians is what the decimal builder makes of `6283185307179586477e-18`.
#[verifier::spinoff_prover]
#[verifier::rlimit(100)]
pub proof fn lemma_word_of_tau()
    ensures
        spec_pdc10(6283185307179586477, -18) == PseudoDouble(crate::pseudo_double::PD_TAU_BITS),
{
    lemma2_to64();
    lemma2_to64_rest();
    lemma_scale_down_step(6283185307179586477, 18, 0, 0, 628318530717958647);
    lemma_scale_down_step(628318530717958647, 17, 0, 3, 502654824574366917);
    lemma_scale_down_step(502654824574366917, 16, (-3), 4, 804247719318987067);
    lemma_scale_down_step(804247719318987067, 15, (-7), 3, 643398175455189653);
    lemma_scale_down_step(643398175455189653, 14, (-10), 3, 514718540364151722);
    lemma_scale_down_step(514718540364151722, 13, (-13), 4, 823549664582642755);
    lemma_scale_down_step(823549664582642755, 12, (-17), 3, 658839731666114204);
    lemma_scale_down_step(658839731666114204, 11, (-20), 3, 527071785332891363);
    lemma_scale_down_step(527071785332891363, 10, (-23), 4, 843314856532626180);
    lemma_scale_down_step(843314856532626180, 9, (-27), 3, 674651885226100944);
    lemma_scale_down_step(674651885226100944, 8, (-30), 3, 539721508180880755);
    lemma_scale_down_step(539721508180880755, 7, (-33), 4, 863554413089409208);
    lemma_scale_down_step(863554413089409208, 6, (-37), 3, 690843530471527366);
    lemma_scale_down_step(690843530471527366, 5, (-40), 3, 552674824377221892);
    lemma_scale_down_step(552674824377221892, 4, (-43), 4, 884279719003555027);
    lemma_scale_down_step(884279719003555027, 3, (-47), 3, 707423775202844021);
    lemma_scale_down_step(707423775202844021, 2, (-50), 3, 565939020162275216);
    lemma_scale_down_step(565939020162275216, 1, (-53), 4, 905502432259640345);
    assert(scale_down(6283185307179586477, 18, 0) == (905502432259640345int, -57int));
    lemma_pdc2_word(905502432259640345, (-57), 3, 7244019458077130756);
}

/// The word of one radian in turns is what the decimal builder makes of `1591549430918953358e-19`.
#[verifier::spinoff_prover]
#[verifier::rlimit(100)]
pub proof fn lemma_word_of_inv_tau()
    ensures
        spec_pdc10(1591549430918953358, -19) == PseudoDouble(crate::pseudo_double::PD_INV_TAU_BITS),
{
    lemma2_to64();
    lemma2_to64_rest();
    lemma_scale_down_step(1591549430918953358, 19, 0, 2, 636619772367581343);
    lemma_scale_down_step(636619772367581343, 18, (-2), 3, 509295817894065074);
    lemma_scale_down_step(509295817894065074, 17, (-5), 4, 814873308630504118);
    lemma_scale_down_step(814873308630504118, 16, (-9), 3, 651898646904403294);
    lemma_scale_down_step(651898646904403294, 15, (-12), 3, 521518917523522635);
    lemma_scale_down_step(521518917523522635, 14, (-15), 4, 834430268037636216);
    lemma_scale_down_step(834430268037636216, 13, (-19), 3, 667544214430108972);
    lemma_scale_down_step(667544214430108972, 12, (-22), 3, 534035371544087177);
    lemma_scale_down_step(534035371544087177, 11, (-25), 4, 854456594470539483);
    lemma_scale_down_step(854456594470539483, 10, (-29), 3, 683565275576431586);
    lemma_scale_down_step(683565275576431586, 9, (-32), 3, 546852220461145268);
    lemma_scale_down_step(546852220461145268, 8, (-35), 4, 874963552737832428);
    lemma_scale_down_step(874963552737832428, 7, (-39), 3, 699970842190265942);
    lemma_scale_down_step(699970842190265942, 6, (-42), 3, 559976673752212753);
    lemma_scale_down_step(559976673752212753, 5, (-45), 4, 895962678003540404);
    lemma_scale_down_step(895962678003540404, 4, (-49), 3, 716770142402832323);
    lemma_scale_down_step(716770142402832323, 3, (-52), 3, 573416113922265858);
    lemma_scale_down_step(573416113922265858, 2, (-55), 4, 917465782275625372);
    lemma_scale_down_step(917465782275625372, 1, (-59), 3, 733972625820500297);
    assert(scale_down(1591549430918953358, 19, 0) == (733972625820500297int, -62int));
    lemma_pdc2_word(733972625820500297, (-62), 3, 5871781006564032511);
}

/// The word of one half is what the binary builder makes of `1 * 2^-1`.
#[verifier::spinoff_prover]
#[verifier::rlimit(100)]
pub proof fn lemma_word_of_half()
    ensures
        spec_pdc2(1, -1) == PseudoDouble(crate::trig::PD_HALF_BITS),
{
    lemma2_to64();
    lemma2_to64_rest();
    lemma_pdc2_word(1, (-1), 62, 4611686018427420673);
}

/// The word of one quarter is what the binary builder makes of `1 * 2^-2`.
#[verifier::spinoff_prover]
#[verifier::rlimit(100)]
pub proof fn lemma_word_of_quarter()
    ensures
        spec_pdc2(1, -2) == PseudoDouble(crate::trig::PD_QUARTER_BITS),
{
    lemma2_to64();
    lemma2_to64_rest();
    lemma_pdc2_word(1, (-2), 62, 4611686018427420672);
}

/// The word of three quarters is what the binary builder makes of `3 * 2^-2`.
#[verifier::spinoff_prover]
#[verifier::rlimit(100)]
pub proof fn lemma_word_of_three_quarters()
    ensures
        spec_pdc2(3, -2) == PseudoDouble(crate::trig::PD_THREE_QUARTERS_BITS),
{
    lemma2_to64();
    lemma2_to64_rest();
    lemma_pdc2_word(3, (-2), 61, 6917529027641114625);
}

} // verus!
