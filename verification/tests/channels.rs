use flow_rs::conversion::{add_cvt_func_impl, guess_channel_type, lookup, ConversionTable};
use flow_rs::envelope::{Envelope, SealedEnvelope};
use flow_rs::error::Error;
use flow_rs::interlayer::{MsgType, MsgTypeId, Port, PortInfo, PortType};

type CvtF = fn(SealedEnvelope) -> SealedEnvelope;

fn first(_: SealedEnvelope) -> SealedEnvelope {
    Envelope::new(1u32).seal()
}

fn second(_: SealedEnvelope) -> SealedEnvelope {
    Envelope::new(2u32).seal()
}

#[test]
fn directed_lookup_overwrite_and_snapshot() {
    struct Source;
    struct Target;
    struct Third;
    let (a, b, c) = (MsgTypeId::of::<Source>(), MsgTypeId::of::<Target>(), MsgTypeId::of::<Third>());
    let mut table: ConversionTable<CvtF> = ConversionTable::new();
    add_cvt_func_impl(&mut table, a, b, first as CvtF);
    let cached = lookup(&table, a, b).unwrap();
    assert!(lookup(&table, b, a).is_none());
    add_cvt_func_impl(&mut table, b, c, first as CvtF);
    assert!(lookup(&table, a, c).is_none());
    add_cvt_func_impl(&mut table, a, b, second as CvtF);
    let old = cached(Envelope::new(()).seal());
    let new = lookup(&table, a, b).unwrap()(Envelope::new(()).seal());
    assert_eq!(old.unseal::<u32>().ok().unwrap().unpack(), 1);
    assert_eq!(new.unseal::<u32>().ok().unwrap().unpack(), 2);
}

#[test]
fn guess_fails_template_inference_when_every_end_is_a_template() {
    let table: ConversionTable<()> = ConversionTable::new();
    let tx = vec![MsgTypeId::Template(0)];
    let rx = vec![MsgTypeId::Template(1)];
    assert!(matches!(guess_channel_type(&tx, &rx, &table), Err(Error::TemplateInferFault)));
    assert!(matches!(guess_channel_type(&vec![], &vec![], &table), Err(Error::TemplateInferFault)));
}

#[test]
fn guess_is_any_when_every_end_is_abstract() {
    let table: ConversionTable<()> = ConversionTable::new();
    let tx = vec![MsgTypeId::Any];
    let rx = vec![MsgTypeId::Template(1)];
    assert_eq!(guess_channel_type(&tx, &rx, &table).unwrap(), MsgTypeId::Any);
}

#[test]
fn guess_picks_the_concrete_type_that_fits_every_end() {
    let table: ConversionTable<()> = ConversionTable::new();
    let t = MsgTypeId::of::<u32>();
    let tx = vec![t, MsgTypeId::Any];
    let rx = vec![MsgTypeId::Template(0), t];
    assert_eq!(guess_channel_type(&tx, &rx, &table).unwrap(), t);
}

#[test]
fn guess_uses_registered_conversions_and_prefers_native_types() {
    let mut table: ConversionTable<()> = ConversionTable::new();
    let a = MsgTypeId::of::<u32>();
    let b = MsgTypeId::of::<u64>();
    let p = MsgTypeId::python("frame");
    assert!(matches!(guess_channel_type(&vec![a], &vec![b], &table), Err(Error::ChannelTypeMismatch)));
    add_cvt_func_impl(&mut table, a, b, ());
    assert_eq!(guess_channel_type(&vec![a], &vec![b], &table).unwrap(), a);
    assert_eq!(guess_channel_type(&vec![b], &vec![b], &table).unwrap(), b);
    add_cvt_func_impl(&mut table, p, a, ());
    assert_eq!(guess_channel_type(&vec![p], &vec![a], &table).unwrap(), a);
    let only_python: ConversionTable<()> = ConversionTable::new();
    assert_eq!(guess_channel_type(&vec![p], &vec![p], &only_python).unwrap(), p);
}

#[test]
fn msg_type_names() {
    assert_eq!(MsgType::any().name, "Any");
    assert_eq!(MsgType::any().id, MsgTypeId::Any);
    let t = MsgType::template(12);
    assert_eq!(t.name, "T12");
    assert_eq!(t.id, MsgTypeId::Template(12));
    assert_eq!(MsgType::template(0).name, "T0");
    let p = MsgType::python("  Frame \n");
    assert_eq!(p.name, "Frame");
    assert_eq!(p.id, MsgTypeId::python("Frame"));
    assert_eq!(MsgTypeId::python(" Frame"), MsgTypeId::python("Frame"));
    assert_ne!(MsgTypeId::python("Frame"), MsgTypeId::python("Other"));
    let r = MsgType::of::<u8>("u8");
    assert_eq!(r.name, "u8");
    assert_eq!(r.id, MsgTypeId::of::<u8>());
    assert_ne!(MsgTypeId::of::<u8>(), MsgTypeId::of::<u16>());
    assert_eq!(MsgTypeId::default(), MsgTypeId::Any);
}

#[test]
fn port_parse_splits_node_port_and_tag() {
    let ((n, p), t) = Port::parse("node:port").unwrap();
    assert_eq!((n, p, t), ("node", "port", None));
    let ((n, p), t) = Port::parse("node:port:42").unwrap();
    assert_eq!((n, p, t), ("node", "port", Some(42)));
    let ((n, p), t) = Port::parse(" a : b :x:y").unwrap();
    assert_eq!((n, p), (" a ", " b "));
    assert_eq!(t, Some(flow_rs::envelope::str2addr("x:y")));
    let ((n, p), t) = Port::parse(":").unwrap();
    assert_eq!((n, p, t), ("", "", None));
    assert!(matches!(Port::parse("nocolon"), Err(Error::BadPortRef(ref m)) if m == "nocolon"));
}

#[test]
fn port_is_dyn_only_for_dynamic_ports() {
    let mk = |ty| Port {
        node_type: "N".into(),
        node_name: "n".into(),
        port_info: PortInfo { name: "p".into(), ty, mty: MsgType::any() },
        port_tag: None,
    };
    assert!(mk(PortType::Dyn).is_dyn());
    assert!(!mk(PortType::Unit).is_dyn());
    assert!(!mk(PortType::List).is_dyn());
    assert!(!mk(PortType::Dict).is_dyn());
}
