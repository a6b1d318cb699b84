//! The contract bindings: selectors, call-data encoding, and decoding.

use arbiter_core::contract::{word_bytes, AbiError};
use arbiter_core::fixed_point::{FixedPoint, FixedPointCalls, Q112Call, ResolutionCall};
use arbiter_core::simple_registry::{
    ClaimFeeCall, ControllerCall, SetFeeCall, SimpleRegistry, SimpleRegistryCalls,
};
use arbiter_core::types::Address;

#[test]
fn fixed_point_calls_use_their_selectors() {
    let contract = FixedPoint::new(Address::from_low_byte(0x11));
    let q = contract.q112();
    assert_eq!(q.calldata, vec![59u8, 247, 168, 62]);
    assert_eq!(q.address.as_bytes(), Address::from_low_byte(0x11).as_bytes());
    let r = contract.resolution();
    assert_eq!(r.calldata, vec![85u8, 47, 136, 138]);
}

#[test]
fn fixed_point_calls_decode_by_selector() {
    let q = FixedPointCalls::Q112(Q112Call).encode();
    assert!(matches!(
        FixedPointCalls::decode(&q),
        Ok(FixedPointCalls::Q112(_))
    ));
    let r = FixedPointCalls::Resolution(ResolutionCall).encode();
    assert!(matches!(
        FixedPointCalls::decode(&r),
        Ok(FixedPointCalls::Resolution(_))
    ));
    assert!(matches!(
        FixedPointCalls::decode(&vec![1u8, 2, 3, 4]),
        Err(AbiError::InvalidData)
    ));
    assert!(matches!(
        FixedPointCalls::decode(&vec![59u8, 247]),
        Err(AbiError::InvalidData)
    ));
}

#[test]
fn registry_calls_encode_arguments_as_words() {
    let contract = SimpleRegistry::new(Address::from_low_byte(0x22));
    let c = contract.controller();
    assert_eq!(c.calldata, vec![247u8, 124, 71, 145]);
    let s = contract.set_fee(&Address::from_low_byte(0x33), 500);
    assert_eq!(s.calldata.len(), 68);
    assert_eq!(&s.calldata[0..4], &[229u8, 81, 86, 181]);
    // The portfolio word: twelve zero bytes, then the address.
    assert_eq!(&s.calldata[4..16], &[0u8; 12]);
    assert_eq!(s.calldata[35], 0x33);
    // The fee word, big-endian.
    assert_eq!(&s.calldata[36..68], word_bytes(500, 32).as_slice());
    let f = contract.claim_fee(
        &Address::from_low_byte(0x44),
        &Address::from_low_byte(0x55),
        7,
        &Address::from_low_byte(0x66),
    );
    assert_eq!(f.calldata.len(), 132);
    assert_eq!(&f.calldata[0..4], &[44u8, 252, 244, 35]);
}

#[test]
fn registry_calls_round_trip() {
    let original = SimpleRegistryCalls::SetFee(SetFeeCall {
        portfolio: Address::from_low_byte(0x33),
        fee: 500,
    });
    let data = original.encode();
    match SimpleRegistryCalls::decode(&data) {
        Ok(SimpleRegistryCalls::SetFee(c)) => {
            assert_eq!(c.fee, 500);
            assert_eq!(c.portfolio.as_bytes(), Address::from_low_byte(0x33).as_bytes());
        }
        _ => panic!("set-fee data decodes as the set-fee call"),
    }
    let claim = SimpleRegistryCalls::ClaimFee(ClaimFeeCall {
        portfolio: Address::from_low_byte(0x44),
        token: Address::from_low_byte(0x55),
        amount: 7,
        to: Address::from_low_byte(0x66),
    });
    let data2 = claim.encode();
    match SimpleRegistryCalls::decode(&data2) {
        Ok(SimpleRegistryCalls::ClaimFee(c)) => {
            assert_eq!(c.amount, 7);
            assert_eq!(c.token.as_bytes(), Address::from_low_byte(0x55).as_bytes());
        }
        _ => panic!("claim-fee data decodes as the claim-fee call"),
    }
    let ctrl = SimpleRegistryCalls::Controller(ControllerCall);
    assert!(matches!(
        SimpleRegistryCalls::decode(&ctrl.encode()),
        Ok(SimpleRegistryCalls::Controller(_))
    ));
    assert!(matches!(
        SimpleRegistryCalls::decode(&vec![0u8; 10]),
        Err(AbiError::InvalidData)
    ));
}

#[test]
fn deployers_carry_their_constructor_arguments() {
    let d = FixedPoint::deploy(vec![1u8, 2, 3]);
    assert_eq!(d.constructor_calldata, vec![1u8, 2, 3]);
    let d2 = SimpleRegistry::deploy(Vec::new());
    assert!(d2.constructor_calldata.is_empty());
}
