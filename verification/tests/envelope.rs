use flow_rs::envelope::{str2addr, AnyEnvelope, DummyEnvelope, Envelope, EnvelopeInfo, ExtraData, SealedEnvelope};
use std::collections::hash_map::DefaultHasher;
use std::hash::{Hash, Hasher};

#[test]
fn new_then_unpack() {
    let mut e = Envelope::new(1i32);
    assert!(e.is_some());
    assert_eq!(e.unpack(), 1i32);
    assert!(e.is_none());
}

#[test]
fn repack_carries_info_and_changes_type() {
    let mut src = Envelope::new(7i32);
    src.info_mut().partial_id = Some(42);
    let mut dst = src.repack(String::from("hi"));
    assert_eq!(dst.info().partial_id, Some(42));
    assert_eq!(dst.unpack(), "hi");
}

#[test]
fn repack_inplace_keeps_type() {
    let mut e = Envelope::new(1i32);
    e.repack_inplace(99);
    assert_eq!(e.unpack(), 99);
}

#[test]
fn type_erasure_seal_then_downcast() {
    let sealed: SealedEnvelope = Envelope::new(3i32).seal();
    assert!(sealed.is::<Envelope<i32>>());
    assert!(!sealed.is::<Envelope<String>>());
    let sealed = sealed.unseal::<String>().err().unwrap();
    let mut inner = sealed.unseal::<i32>().ok().unwrap();
    assert_eq!(inner.unpack(), 3i32);
}

#[test]
fn dummy_is_empty() {
    let sealed: SealedEnvelope = DummyEnvelope.seal();
    assert!(sealed.is_none());
    assert!(sealed.is::<DummyEnvelope>());
    assert!(sealed.unseal::<i32>().is_err());
}

#[test]
fn sealed_envelope_is_cloneable() {
    let sealed: SealedEnvelope = Envelope::new(5i32).seal();
    let a = sealed.clone();
    let b = sealed;
    assert_eq!(a.unseal::<i32>().ok().unwrap().unpack(), 5);
    assert_eq!(b.unseal::<i32>().ok().unwrap().unpack(), 5);
}

#[test]
fn cloned_sealed_envelope_carries_info() {
    let mut e = Envelope::new(1i32);
    e.info_mut().partial_id = Some(7);
    let sealed: SealedEnvelope = e.seal();
    let clone = sealed.clone();
    assert_eq!(clone.info().partial_id, Some(7));
}

#[test]
fn extra_data_shared_via_arc() {
    let mut e = Envelope::new(1i32);
    e.info_mut().extra_data = Some(ExtraData::from_arc(std::sync::Arc::new(String::from("meta"))));
    let got = e
        .info()
        .extra_data
        .as_ref()
        .unwrap()
        .downcast_ref::<String>()
        .unwrap();
    assert_eq!(got, "meta");
}

fn metadata() -> EnvelopeInfo {
    EnvelopeInfo {
        skipped: true,
        weight: Some(0),
        partial_id: Some(7),
        from_addr: Some(11),
        to_addr: Some(12),
        transfer_addr: Some(13),
        extra_data: Some(ExtraData::new(String::from("frame-context"))),
    }
}

fn assert_same_metadata(actual: &EnvelopeInfo, expected: &EnvelopeInfo) {
    assert_eq!(actual.skipped, expected.skipped);
    assert_eq!(actual.weight, expected.weight);
    assert_eq!(actual.partial_id, expected.partial_id);
    assert_eq!(actual.from_addr, expected.from_addr);
    assert_eq!(actual.to_addr, expected.to_addr);
    assert_eq!(actual.transfer_addr, expected.transfer_addr);
    assert!(ExtraData::ptr_eq(
        actual.extra_data.as_ref().unwrap(),
        expected.extra_data.as_ref().unwrap()
    ));
}

#[test]
fn all_seven_metadata_defaults_match_original() {
    let info = EnvelopeInfo::default();
    assert!(!info.skipped);
    assert_eq!(info.weight, None);
    assert_eq!(info.partial_id, None);
    assert_eq!(info.from_addr, None);
    assert_eq!(info.to_addr, None);
    assert_eq!(info.transfer_addr, None);
    assert!(info.extra_data.is_none());
}

#[test]
fn clone_unpack_repack_take_and_seal_preserve_all_metadata() {
    let info = metadata();
    let mut source = Envelope::with_info(vec![1, 2], info.clone());
    let mut cloned = source.clone();
    cloned.get_mut().push(3);
    assert_eq!(source.get_ref(), &[1, 2]);
    assert_eq!(cloned.get_ref(), &[1, 2, 3]);
    assert_same_metadata(cloned.info(), &info);
    assert_eq!(source.unpack(), [1, 2]);
    assert!(source.is_none());
    assert_same_metadata(source.info(), &info);
    let mut repacked = source.repack(String::from("result"));
    assert_same_metadata(repacked.info(), &info);
    repacked.repack_inplace(String::from("replacement"));
    let moved = repacked.take();
    assert!(repacked.is_none());
    assert_eq!(moved.get_ref(), "replacement");
    assert_same_metadata(repacked.info(), &info);
    assert_same_metadata(moved.info(), &info);
    let mut sealed = moved.seal().clone();
    assert_same_metadata(sealed.info(), &info);
    sealed.info_mut().to_addr = Some(99);
    assert_eq!(repacked.info().to_addr, Some(12));
    assert_eq!(
        sealed.unseal::<String>().ok().unwrap().unpack(),
        "replacement"
    );
}

#[test]
fn empty_typed_envelope_still_has_metadata() {
    let mut empty = Envelope::<String>::empty();
    *empty.info_mut() = metadata();
    let sealed = empty.seal();
    assert!(sealed.is_none());
    assert_eq!(sealed.info().to_addr, Some(12));
    let mut back = sealed.unseal::<String>().ok().unwrap();
    back.repack_inplace("later".into());
    let sealed = back.seal();
    assert!(sealed.is_some());
    assert_eq!(sealed.info().weight, Some(0));
}

#[test]
fn addresses_parse_numbers_or_hash_the_entire_original_string() {
    assert_eq!(str2addr("0"), 0);
    assert_eq!(str2addr("00042"), 42);
    assert_eq!(str2addr("18446744073709551615"), u64::MAX);
    for name in ["camera/front", "入口", " 42", "18446744073709551616", ""] {
        let mut hasher = DefaultHasher::new();
        name.hash(&mut hasher);
        assert_eq!(str2addr(name), hasher.finish());
    }
}

#[test]
fn str2addr_accepts_a_leading_plus_only() {
    assert_eq!(str2addr("+7"), 7);
    for name in ["+", "-7", "++7", "7 ", "0x10"] {
        let mut hasher = DefaultHasher::new();
        name.hash(&mut hasher);
        assert_eq!(str2addr(name), hasher.finish());
    }
}

#[test]
fn take_leaves_an_empty_envelope_with_the_same_metadata() {
    let mut e = Envelope::new(5u8);
    e.info_mut().weight = Some(3);
    let moved = e.take();
    assert!(e.is_none());
    assert_eq!(e.info().weight, Some(3));
    assert_eq!(*moved.get_ref(), 5);
    assert_eq!(moved.info().weight, Some(3));
}

#[test]
fn sealed_placeholder_is_empty_and_copies() {
    let sealed = DummyEnvelope.seal();
    assert!(!sealed.is_some());
    let copy = sealed.clone();
    assert!(copy.is_none());
    assert!(copy.is::<DummyEnvelope>());
}

#[test]
fn clone_box_keeps_info_and_message() {
    let mut e = Envelope::new(9i32);
    e.info_mut().partial_id = Some(4);
    let boxed = e.clone_box();
    assert!(boxed.is_some());
    assert_eq!(boxed.info().partial_id, Some(4));
    assert_eq!(boxed.unseal::<i32>().ok().unwrap().unpack(), 9);
    let empty = DummyEnvelope.clone_box();
    assert!(empty.is_none());
}
