//! Resume tokens: the 64-bit packing of a component encoding (high 32
//! bits) and an in-section byte offset (low 32 bits).

use vstd::prelude::*;

use crate::component::Component;
use crate::component::MAX_COMPONENT_ENCODED_VALUE;
use crate::error::Error;

verus! {

/// The weight of the component half of a token: 2 to the 32nd power.
pub const TOKEN_SPLIT: u64 = 0x1_0000_0000;

/// The token naming the position `section_offset` inside the section
/// addressed by `component`.
pub open spec fn spec_offset_encode(component_encoded: int, section_offset: int) -> int {
    component_encoded * (TOKEN_SPLIT as int) + section_offset
}

/// Packs a component and an in-section byte offset into one token.
pub fn offset_encode(component: &Component, section_offset: u32) -> (t: u64)
    requires
        component.wf(),
    ensures
        t == spec_offset_encode(component.spec_encode(), section_offset as int),
{
    let f: u64 = component.encode() as u64;
    f * TOKEN_SPLIT + section_offset as u64
}

/// Splits a token back into its component and in-section byte offset.
/// Fails exactly when the high half is not a valid component encoding.
pub fn offset_decode(token: u64) -> (r: Result<(Component, u32), Error>)
    ensures
        token / TOKEN_SPLIT <= MAX_COMPONENT_ENCODED_VALUE ==> (r matches Ok(p) && p.0
            == Component::spec_decode((token / TOKEN_SPLIT) as int) && p.0.wf() && p.1
            == token % TOKEN_SPLIT && token == spec_offset_encode(
            p.0.spec_encode(),
            p.1 as int,
        )),
        token / TOKEN_SPLIT > MAX_COMPONENT_ENCODED_VALUE ==> r == Err::<
            (Component, u32),
            Error,
        >(Error::CorruptData),
{
    let f: u32 = (token / TOKEN_SPLIT) as u32;
    let s: u32 = (token % TOKEN_SPLIT) as u32;
    match Component::decode(f) {
        Ok(c) => {
            proof {
                vstd::arithmetic::div_mod::lemma_fundamental_div_mod(
                    token as int,
                    TOKEN_SPLIT as int,
                );
            }
            Ok((c, s))
        },
        Err(e) => Err(e),
    }
}

/// Encoding a component and offset, then decoding the token, gives
/// both back.
pub proof fn lemma_token_round_trip(component: Component, section_offset: u32)
    requires
        component.wf(),
    ensures
        ({
            let t = spec_offset_encode(component.spec_encode(), section_offset as int);
            0 <= t <= u64::MAX && t / (TOKEN_SPLIT as int) == component.spec_encode() && t % (
            TOKEN_SPLIT as int) == section_offset && Component::spec_decode(
                t / (TOKEN_SPLIT as int),
            ) == component
        }),
{
    crate::component::lemma_component_round_trip(component);
    let t = spec_offset_encode(component.spec_encode(), section_offset as int);
    vstd::arithmetic::div_mod::lemma_fundamental_div_mod_converse(
        t,
        TOKEN_SPLIT as int,
        component.spec_encode(),
        section_offset as int,
    );
}

/// Tokens order first by component, then by offset: later positions in
/// the queue always carry strictly larger tokens.
pub proof fn lemma_token_order(e1: int, o1: int, e2: int, o2: int)
    requires
        0 <= o1 < TOKEN_SPLIT,
        0 <= o2 < TOKEN_SPLIT,
        e1 < e2 || (e1 == e2 && o1 < o2),
    ensures
        spec_offset_encode(e1, o1) < spec_offset_encode(e2, o2),
{
    if e1 < e2 {
        assert((e1 + 1) * (TOKEN_SPLIT as int) <= e2 * (TOKEN_SPLIT as int)) by (nonlinear_arith)
            requires
                e1 + 1 <= e2,
        ;
        assert(e1 * (TOKEN_SPLIT as int) + (TOKEN_SPLIT as int) == (e1 + 1) * (
        TOKEN_SPLIT as int)) by (nonlinear_arith);
    }
}

} // verus!
