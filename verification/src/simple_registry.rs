//! Binding for the registry contract: a typed handle around its address,
//! its three calls, and the encoding and decoding of their call data.

use vstd::prelude::*;

use crate::contract::{
    address_word, read_word, read_word_address, spec_address_word, spec_uint_word,
    spec_word_address, spec_word_bytes, word_bytes, AbiError, ContractCall, ContractDeployer,
};
use crate::registry::{pow256, word_u128, word_val, lemma_pow256_16};
use crate::types::Address;

verus! {

/// The selector of the `claimFee` call.
pub open spec fn claim_fee_selector() -> Seq<u8> {
    seq![44u8, 252u8, 244u8, 35u8]
}

/// The selector of the `controller` call.
pub open spec fn controller_selector() -> Seq<u8> {
    seq![247u8, 124u8, 71u8, 145u8]
}

/// The selector of the `setFee` call.
pub open spec fn set_fee_selector() -> Seq<u8> {
    seq![229u8, 81u8, 86u8, 181u8]
}

/// A typed handle on a deployed registry contract.
pub struct SimpleRegistry {
    /// The contract's address.
    pub address: Address,
}

impl SimpleRegistry {
    /// Binds the handle to the contract at `address`.
    pub fn new(address: Address) -> (r: Self)
        requires
            address.wf(),
        ensures
            r.address.wf(),
            r.address@ == address@,
    {
        SimpleRegistry { address }
    }

    /// Prepares a deployment with the given ABI-encoded constructor
    /// arguments.
    pub fn deploy(constructor_calldata: Vec<u8>) -> (r: ContractDeployer)
        ensures
            r.constructor_calldata@ == constructor_calldata@,
    {
        ContractDeployer { constructor_calldata }
    }

    /// Prepares the contract's `claimFee` call.
    pub fn claim_fee(&self, portfolio: &Address, token: &Address, amount: u128, to: &Address) -> (c:
        ContractCall)
        requires
            portfolio.wf(),
            token.wf(),
            to.wf(),
        ensures
            c.address@ == self.address@,
            c.calldata@ == claim_fee_selector() + spec_address_word(portfolio@)
                + spec_address_word(token@) + spec_uint_word(amount as nat) + spec_address_word(
                to@,
            ),
    {
        let mut calldata: Vec<u8> = Vec::new();
        calldata.push(44u8);
        calldata.push(252u8);
        calldata.push(244u8);
        calldata.push(35u8);
        proof {
            assert(calldata@ =~= claim_fee_selector());
        }
        crate::contract::append_bytes(&mut calldata, &address_word(portfolio));
        crate::contract::append_bytes(&mut calldata, &address_word(token));
        crate::contract::append_bytes(&mut calldata, &word_bytes(amount, 32));
        crate::contract::append_bytes(&mut calldata, &address_word(to));
        ContractCall { address: self.address.duplicate(), calldata }
    }

    /// Prepares the contract's `controller` call.
    pub fn controller(&self) -> (c: ContractCall)
        ensures
            c.address@ == self.address@,
            c.calldata@ == controller_selector(),
    {
        let mut calldata: Vec<u8> = Vec::new();
        calldata.push(247u8);
        calldata.push(124u8);
        calldata.push(71u8);
        calldata.push(145u8);
        proof {
            assert(calldata@ =~= controller_selector());
        }
        ContractCall { address: self.address.duplicate(), calldata }
    }

    /// Prepares the contract's `setFee` call.
    pub fn set_fee(&self, portfolio: &Address, fee: u128) -> (c: ContractCall)
        requires
            portfolio.wf(),
        ensures
            c.address@ == self.address@,
            c.calldata@ == set_fee_selector() + spec_address_word(portfolio@) + spec_uint_word(
                fee as nat,
            ),
    {
        let mut calldata: Vec<u8> = Vec::new();
        calldata.push(229u8);
        calldata.push(81u8);
        calldata.push(86u8);
        calldata.push(181u8);
        proof {
            assert(calldata@ =~= set_fee_selector());
        }
        crate::contract::append_bytes(&mut calldata, &address_word(portfolio));
        crate::contract::append_bytes(&mut calldata, &word_bytes(fee, 32));
        ContractCall { address: self.address.duplicate(), calldata }
    }
}

/// Mathematical model of the `claimFee` parameters.
pub struct ClaimFeeCallV {
    pub portfolio: Seq<u8>,
    pub token: Seq<u8>,
    pub amount: nat,
    pub to: Seq<u8>,
}

/// Input parameters of the `claimFee` call.
pub struct ClaimFeeCall {
    pub portfolio: Address,
    pub token: Address,
    pub amount: u128,
    pub to: Address,
}

impl View for ClaimFeeCall {
    type V = ClaimFeeCallV;

    open spec fn view(&self) -> ClaimFeeCallV {
        ClaimFeeCallV {
            portfolio: self.portfolio@,
            token: self.token@,
            amount: self.amount as nat,
            to: self.to@,
        }
    }
}

/// Input parameters of the `controller` call.
#[derive(Clone, Copy, Debug, PartialEq, Eq, Structural)]
pub struct ControllerCall;

/// Mathematical model of the `setFee` parameters.
pub struct SetFeeCallV {
    pub portfolio: Seq<u8>,
    pub fee: nat,
}

/// Input parameters of the `setFee` call.
pub struct SetFeeCall {
    pub portfolio: Address,
    pub fee: u128,
}

impl View for SetFeeCall {
    type V = SetFeeCallV;

    open spec fn view(&self) -> SetFeeCallV {
        SetFeeCallV { portfolio: self.portfolio@, fee: self.fee as nat }
    }
}

/// Mathematical model of one registry call.
pub enum SimpleRegistryCallsV {
    ClaimFee(ClaimFeeCallV),
    Controller,
    SetFee(SetFeeCallV),
}

/// All of the contract's calls.
pub enum SimpleRegistryCalls {
    ClaimFee(ClaimFeeCall),
    Controller(ControllerCall),
    SetFee(SetFeeCall),
}

impl View for SimpleRegistryCalls {
    type V = SimpleRegistryCallsV;

    open spec fn view(&self) -> SimpleRegistryCallsV {
        match self {
            SimpleRegistryCalls::ClaimFee(c) => SimpleRegistryCallsV::ClaimFee(c@),
            SimpleRegistryCalls::Controller(_) => SimpleRegistryCallsV::Controller,
            SimpleRegistryCalls::SetFee(c) => SimpleRegistryCallsV::SetFee(c@),
        }
    }
}

/// The call data of one call: its selector, then each argument as one
/// 32-byte ABI word.
pub open spec fn spec_sr_encode(c: SimpleRegistryCallsV) -> Seq<u8> {
    match c {
        SimpleRegistryCallsV::ClaimFee(f) => claim_fee_selector() + spec_address_word(f.portfolio)
            + spec_address_word(f.token) + spec_uint_word(f.amount) + spec_address_word(f.to),
        SimpleRegistryCallsV::Controller => controller_selector(),
        SimpleRegistryCallsV::SetFee(f) => set_fee_selector() + spec_address_word(f.portfolio)
            + spec_uint_word(f.fee),
    }
}

/// The call that call data denotes: decided by its selector prefix and its
/// exact argument length; a numeric argument past 128 bits is invalid here.
pub open spec fn spec_sr_decode(d: Seq<u8>) -> Result<SimpleRegistryCallsV, AbiError> {
    if d.len() == 132 && d.take(4) == claim_fee_selector() {
        if word_val(d.subrange(68, 100)) <= u128::MAX as nat {
            Ok(
                SimpleRegistryCallsV::ClaimFee(
                    ClaimFeeCallV {
                        portfolio: spec_word_address(d.subrange(4, 36)),
                        token: spec_word_address(d.subrange(36, 68)),
                        amount: word_val(d.subrange(68, 100)),
                        to: spec_word_address(d.subrange(100, 132)),
                    },
                ),
            )
        } else {
            Err(AbiError::InvalidData)
        }
    } else if d.len() == 4 && d.take(4) == controller_selector() {
        Ok(SimpleRegistryCallsV::Controller)
    } else if d.len() == 68 && d.take(4) == set_fee_selector() {
        if word_val(d.subrange(36, 68)) <= u128::MAX as nat {
            Ok(
                SimpleRegistryCallsV::SetFee(
                    SetFeeCallV {
                        portfolio: spec_word_address(d.subrange(4, 36)),
                        fee: word_val(d.subrange(36, 68)),
                    },
                ),
            )
        } else {
            Err(AbiError::InvalidData)
        }
    } else {
        Err(AbiError::InvalidData)
    }
}

impl SimpleRegistryCalls {
    /// Decodes call data by its selector prefix and argument words;
    /// anything else is invalid.
    pub fn decode(data: &Vec<u8>) -> (r: Result<Self, AbiError>)
        ensures
            (match r {
                Ok(c) => spec_sr_decode(data@) == Ok::<SimpleRegistryCallsV, AbiError>(c@),
                Err(e) => spec_sr_decode(data@) == Err::<SimpleRegistryCallsV, AbiError>(e),
            }),
    {
        if data.len() >= 4 {
            proof {
                assert(data@.take(4) =~= seq![data@[0], data@[1], data@[2], data@[3]]);
            }
            if data.len() == 132 && data[0] == 44 && data[1] == 252 && data[2] == 244 && data[3]
                == 35 {
                let amount_word = read_word(data, 68);
                match word_u128(&amount_word) {
                    Some(amount) => {
                        let c = ClaimFeeCall {
                            portfolio: read_word_address(data, 4),
                            token: read_word_address(data, 36),
                            amount,
                            to: read_word_address(data, 100),
                        };
                        return Ok(SimpleRegistryCalls::ClaimFee(c));
                    },
                    None => {
                        return Err(AbiError::InvalidData);
                    },
                }
            }
            if data.len() == 4 && data[0] == 247 && data[1] == 124 && data[2] == 71 && data[3]
                == 145 {
                return Ok(SimpleRegistryCalls::Controller(ControllerCall));
            }
            if data.len() == 68 && data[0] == 229 && data[1] == 81 && data[2] == 86 && data[3]
                == 181 {
                let fee_word = read_word(data, 36);
                match word_u128(&fee_word) {
                    Some(fee) => {
                        let c = SetFeeCall { portfolio: read_word_address(data, 4), fee };
                        return Ok(SimpleRegistryCalls::SetFee(c));
                    },
                    None => {
                        return Err(AbiError::InvalidData);
                    },
                }
            }
        }
        Err(AbiError::InvalidData)
    }

    /// Encodes this call as call data.
    pub fn encode(&self) -> (r: Vec<u8>)
        requires
            (match self {
                SimpleRegistryCalls::ClaimFee(c) => c.portfolio.wf() && c.token.wf() && c.to.wf(),
                SimpleRegistryCalls::Controller(_) => true,
                SimpleRegistryCalls::SetFee(c) => c.portfolio.wf(),
            }),
        ensures
            r@ == spec_sr_encode(self@),
    {
        match self {
            SimpleRegistryCalls::ClaimFee(c) => {
                let mut r: Vec<u8> = Vec::new();
                r.push(44u8);
                r.push(252u8);
                r.push(244u8);
                r.push(35u8);
                proof {
                    assert(r@ =~= claim_fee_selector());
                }
                crate::contract::append_bytes(&mut r, &address_word(&c.portfolio));
                crate::contract::append_bytes(&mut r, &address_word(&c.token));
                crate::contract::append_bytes(&mut r, &word_bytes(c.amount, 32));
                crate::contract::append_bytes(&mut r, &address_word(&c.to));
                r
            },
            SimpleRegistryCalls::Controller(_) => {
                let mut r: Vec<u8> = Vec::new();
                r.push(247u8);
                r.push(124u8);
                r.push(71u8);
                r.push(145u8);
                proof {
                    assert(r@ =~= controller_selector());
                }
                r
            },
            SimpleRegistryCalls::SetFee(c) => {
                let mut r: Vec<u8> = Vec::new();
                r.push(229u8);
                r.push(81u8);
                r.push(86u8);
                r.push(181u8);
                proof {
                    assert(r@ =~= set_fee_selector());
                }
                crate::contract::append_bytes(&mut r, &address_word(&c.portfolio));
                crate::contract::append_bytes(&mut r, &word_bytes(c.fee, 32));
                r
            },
        }
    }
}

/// Return value of the `controller` call.
pub struct ControllerReturn(pub Address);

/// A big-endian encoding decodes back to its value.
proof fn lemma_word_bytes_val(v: nat, n: nat)
    requires
        v < pow256(n),
    ensures
        word_val(spec_word_bytes(v, n)) == v,
        spec_word_bytes(v, n).len() == n,
    decreases n,
{
    if n == 0 {
    } else {
        assert(v / 256 < pow256((n - 1) as nat)) by (nonlinear_arith)
            requires
                v < pow256(n),
                pow256(n) == 256 * pow256((n - 1) as nat),
                v >= 0;
        lemma_word_bytes_val(v / 256, (n - 1) as nat);
        let w = spec_word_bytes(v, n);
        assert(w.drop_last() =~= spec_word_bytes(v / 256, (n - 1) as nat));
        assert(w.last() == (v % 256) as u8);
        assert(v / 256 * 256 + v % 256 == v);
    }
}

/// An address word reads back as its address.
proof fn lemma_address_word_round(a: Seq<u8>)
    ensures
        spec_word_address(spec_address_word(a)) == a,
{
    assert(spec_word_address(spec_address_word(a)) =~= a);
}

/// Decoding inverts encoding: every well-formed call's data reads back as
/// that call.
pub proof fn lemma_sr_calls_round_trip(c: SimpleRegistryCallsV)
    requires
        (match c {
            SimpleRegistryCallsV::ClaimFee(f) => f.portfolio.len() == 20 && f.token.len() == 20
                && f.to.len() == 20 && f.amount <= u128::MAX as nat,
            SimpleRegistryCallsV::Controller => true,
            SimpleRegistryCallsV::SetFee(f) => f.portfolio.len() == 20 && f.fee
                <= u128::MAX as nat,
        }),
    ensures
        spec_sr_decode(spec_sr_encode(c)) == Ok::<SimpleRegistryCallsV, AbiError>(c),
{
    lemma_pow256_16();
    crate::registry::lemma_pow256_tail_ge(32);
    match c {
        SimpleRegistryCallsV::ClaimFee(f) => {
            let d = spec_sr_encode(c);
            lemma_word_bytes_val(f.amount, 32);
            assert(spec_address_word(f.portfolio).len() == 32);
            assert(spec_address_word(f.token).len() == 32);
            assert(spec_address_word(f.to).len() == 32);
            assert(d.len() == 132);
            assert(d.take(4) =~= claim_fee_selector());
            assert(d.subrange(4, 36) =~= spec_address_word(f.portfolio));
            assert(d.subrange(36, 68) =~= spec_address_word(f.token));
            assert(d.subrange(68, 100) =~= spec_uint_word(f.amount));
            assert(d.subrange(100, 132) =~= spec_address_word(f.to));
            lemma_address_word_round(f.portfolio);
            lemma_address_word_round(f.token);
            lemma_address_word_round(f.to);
        },
        SimpleRegistryCallsV::Controller => {
            let d = spec_sr_encode(c);
            assert(d.len() == 4);
            assert(d.take(4) =~= controller_selector());
        },
        SimpleRegistryCallsV::SetFee(f) => {
            let d = spec_sr_encode(c);
            lemma_word_bytes_val(f.fee, 32);
            assert(spec_address_word(f.portfolio).len() == 32);
            assert(d.len() == 68);
            assert(d.take(4) =~= set_fee_selector());
            assert(d.subrange(4, 36) =~= spec_address_word(f.portfolio));
            assert(d.subrange(36, 68) =~= spec_uint_word(f.fee));
            lemma_address_word_round(f.portfolio);
        },
    }
}

} // verus!
