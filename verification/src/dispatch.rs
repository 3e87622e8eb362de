//! What the processor offers.
use vstd::prelude::*;

verus! {

/// Whether the processor has the AVX2 instruction set, as
/// `archmage::X64V3Token::summon` finds out. Nothing is promised of the answer: it
/// depends on the machine, and on other architectures it is always no.
#[verifier::external_body]
pub(crate) fn v3_available() -> (available: bool) {
    <archmage::X64V3Token as archmage::SimdToken>::summon().is_some()
}

/// Whether the processor has the NEON instruction set, as
/// `archmage::NeonToken::summon` finds out. Nothing is promised of the answer: it
/// depends on the machine, and on other architectures it is always no.
#[verifier::external_body]
pub(crate) fn neon_available() -> (available: bool) {
    <archmage::NeonToken as archmage::SimdToken>::summon().is_some()
}

} // verus!
