//! The settings of the Morse decoder.
use vstd::prelude::*;
use crate::cw::{config_fault, period_of, CwAnalyzerConfig};

verus! {

/// Settings can be used with rates above zero and a tone that is a finite number above zero,
/// as the bits of a single-precision number say.
pub proof fn law_usable_settings(c: CwAnalyzerConfig)
    ensures
        config_fault(c) is None <==> c.sample_rate > 0 && c.envelope_rate_hz > 0 && 0
            < c.tone_hz.bits < 0x7F80_0000,
{
}

/// An envelope sample is made of as many whole samples as fit in its time, and of one where
/// the envelope is the faster of the two.
pub proof fn law_samples_of_an_envelope(c: CwAnalyzerConfig)
    requires
        config_fault(c) is None,
    ensures
        c.sample_rate < c.envelope_rate_hz ==> period_of(c) == 1,
        c.sample_rate >= c.envelope_rate_hz ==> period_of(c) * c.envelope_rate_hz <= c.sample_rate
            && c.sample_rate < (period_of(c) + 1) * c.envelope_rate_hz,
{
    let s = c.sample_rate as int;
    let e = c.envelope_rate_hz as int;
    let q = s / e;
    vstd::arithmetic::div_mod::lemma_fundamental_div_mod(s, e);
    vstd::arithmetic::div_mod::lemma_div_pos_is_pos(s, e);
    assert(e * q == q * e) by (nonlinear_arith);
    assert((q + 1) * e == q * e + e) by (nonlinear_arith);
}

} // verus!
