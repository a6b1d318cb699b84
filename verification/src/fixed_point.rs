//! Binding for the fixed-point math contract: a typed handle around its
//! address, its two read-only calls, and the encoding and decoding of their
//! call data.

use vstd::prelude::*;

use crate::contract::{AbiError, ContractCall, ContractDeployer};
use crate::types::Address;

verus! {

/// The selector of the `Q112` call.
pub open spec fn q112_selector() -> Seq<u8> {
    seq![59u8, 247u8, 168u8, 62u8]
}

/// The selector of the `RESOLUTION` call.
pub open spec fn resolution_selector() -> Seq<u8> {
    seq![85u8, 47u8, 136u8, 138u8]
}

/// A typed handle on a deployed fixed-point contract.
pub struct FixedPoint {
    /// The contract's address.
    pub address: Address,
}

impl FixedPoint {
    /// Binds the handle to the contract at `address`.
    pub fn new(address: Address) -> (r: Self)
        requires
            address.wf(),
        ensures
            r.address.wf(),
            r.address@ == address@,
    {
        FixedPoint { address }
    }

    /// Prepares a deployment with the given ABI-encoded constructor
    /// arguments.
    pub fn deploy(constructor_calldata: Vec<u8>) -> (r: ContractDeployer)
        ensures
            r.constructor_calldata@ == constructor_calldata@,
    {
        ContractDeployer { constructor_calldata }
    }

    /// Prepares the contract's `Q112` call.
    pub fn q112(&self) -> (c: ContractCall)
        ensures
            c.address@ == self.address@,
            c.calldata@ == q112_selector(),
    {
        let mut calldata: Vec<u8> = Vec::new();
        calldata.push(59u8);
        calldata.push(247u8);
        calldata.push(168u8);
        calldata.push(62u8);
        proof {
            assert(calldata@ =~= q112_selector());
        }
        ContractCall { address: self.address.duplicate(), calldata }
    }

    /// Prepares the contract's `RESOLUTION` call.
    pub fn resolution(&self) -> (c: ContractCall)
        ensures
            c.address@ == self.address@,
            c.calldata@ == resolution_selector(),
    {
        let mut calldata: Vec<u8> = Vec::new();
        calldata.push(85u8);
        calldata.push(47u8);
        calldata.push(136u8);
        calldata.push(138u8);
        proof {
            assert(calldata@ =~= resolution_selector());
        }
        ContractCall { address: self.address.duplicate(), calldata }
    }
}

/// Input parameters of the `Q112` call.
#[derive(Clone, Copy, Debug, PartialEq, Eq, Structural)]
pub struct Q112Call;

/// Input parameters of the `RESOLUTION` call.
#[derive(Clone, Copy, Debug, PartialEq, Eq, Structural)]
pub struct ResolutionCall;

/// All of the contract's calls.
#[derive(Clone, Copy, Debug, PartialEq, Eq, Structural)]
pub enum FixedPointCalls {
    Q112(Q112Call),
    Resolution(ResolutionCall),
}

/// The call data of one call: its selector (both calls take no arguments).
pub open spec fn spec_fp_encode(c: FixedPointCalls) -> Seq<u8> {
    match c {
        FixedPointCalls::Q112(_) => q112_selector(),
        FixedPointCalls::Resolution(_) => resolution_selector(),
    }
}

/// The call that call data denotes: decided by its 4-byte selector prefix.
pub open spec fn spec_fp_decode(d: Seq<u8>) -> Result<FixedPointCalls, AbiError> {
    if d.len() >= 4 && d.take(4) == q112_selector() {
        Ok(FixedPointCalls::Q112(Q112Call))
    } else if d.len() >= 4 && d.take(4) == resolution_selector() {
        Ok(FixedPointCalls::Resolution(ResolutionCall))
    } else {
        Err(AbiError::InvalidData)
    }
}

impl FixedPointCalls {
    /// Decodes call data by its selector prefix; anything else is invalid.
    pub fn decode(data: &Vec<u8>) -> (r: Result<Self, AbiError>)
        ensures
            r == spec_fp_decode(data@),
    {
        if data.len() >= 4 {
            proof {
                assert(data@.take(4) =~= seq![data@[0], data@[1], data@[2], data@[3]]);
            }
            if data[0] == 59 && data[1] == 247 && data[2] == 168 && data[3] == 62 {
                return Ok(FixedPointCalls::Q112(Q112Call));
            }
            if data[0] == 85 && data[1] == 47 && data[2] == 136 && data[3] == 138 {
                return Ok(FixedPointCalls::Resolution(ResolutionCall));
            }
        }
        Err(AbiError::InvalidData)
    }

    /// Encodes this call as call data.
    pub fn encode(self) -> (r: Vec<u8>)
        ensures
            r@ == spec_fp_encode(self),
    {
        let mut r: Vec<u8> = Vec::new();
        match self {
            FixedPointCalls::Q112(_) => {
                r.push(59u8);
                r.push(247u8);
                r.push(168u8);
                r.push(62u8);
                proof {
                    assert(r@ =~= q112_selector());
                }
            },
            FixedPointCalls::Resolution(_) => {
                r.push(85u8);
                r.push(47u8);
                r.push(136u8);
                r.push(138u8);
                proof {
                    assert(r@ =~= resolution_selector());
                }
            },
        }
        r
    }
}

/// Decoding inverts encoding: every call's data reads back as that call.
pub proof fn lemma_fp_calls_round_trip(c: FixedPointCalls)
    ensures
        spec_fp_decode(spec_fp_encode(c)) == Ok::<FixedPointCalls, AbiError>(c),
{
    match c {
        FixedPointCalls::Q112(_) => {
            assert(q112_selector().take(4) =~= q112_selector());
        },
        FixedPointCalls::Resolution(_) => {
            assert(resolution_selector().take(4) =~= resolution_selector());
            assert(resolution_selector().take(4) != q112_selector());
        },
    }
}

/// Return value of the `Q112` call.
#[derive(Clone, Copy, Debug, PartialEq, Eq, Structural)]
pub struct Q112Return(pub u128);

/// Return value of the `RESOLUTION` call.
#[derive(Clone, Copy, Debug, PartialEq, Eq, Structural)]
pub struct ResolutionReturn(pub u8);

} // verus!
