use flow_rs::expansion::{
    check_cvt_signature, classify_fields, field_role, injected_inputs, injected_outputs, lifecycle_plan, parse_port_specs,
    type_mentions, CvtSignature, FieldRole, PortSpec, SignatureError,
};

fn plain_sig() -> CvtSignature {
    CvtSignature {
        is_async: false,
        is_unsafe: false,
        has_abi: false,
        n_generics: 0,
        n_inputs: 1,
        takes_self: false,
        has_return: true,
    }
}

#[test]
fn conversion_signature_rules() {
    assert_eq!(check_cvt_signature(&plain_sig()), Ok(()));
    assert_eq!(check_cvt_signature(&CvtSignature { is_async: true, ..plain_sig() }), Err(SignatureError::NotPlain));
    assert_eq!(check_cvt_signature(&CvtSignature { is_unsafe: true, ..plain_sig() }), Err(SignatureError::NotPlain));
    assert_eq!(check_cvt_signature(&CvtSignature { has_abi: true, ..plain_sig() }), Err(SignatureError::NotPlain));
    assert_eq!(check_cvt_signature(&CvtSignature { n_generics: 1, ..plain_sig() }), Err(SignatureError::NotPlain));
    assert_eq!(check_cvt_signature(&CvtSignature { n_inputs: 2, ..plain_sig() }), Err(SignatureError::NotPlain));
    assert_eq!(check_cvt_signature(&CvtSignature { takes_self: true, ..plain_sig() }), Err(SignatureError::TakesSelf));
    assert_eq!(check_cvt_signature(&CvtSignature { has_return: false, ..plain_sig() }), Err(SignatureError::NoReturnType));
}

fn names(v: &[PortSpec]) -> Vec<(String, bool)> {
    v.iter().map(|p| (p.name.clone(), p.array)).collect()
}

#[test]
fn port_lists_follow_the_grammar() {
    let v = parse_port_specs("inp, outs[]").ok().unwrap();
    assert_eq!(names(&v), vec![("inp".to_string(), false), ("outs".to_string(), true)]);
    let v = parse_port_specs(" a ,b [ ] ,").ok().unwrap();
    assert_eq!(names(&v), vec![("a".to_string(), false), ("b".to_string(), true)]);
    assert!(parse_port_specs("").ok().unwrap().is_empty());
    assert!(parse_port_specs("   ").ok().unwrap().is_empty());
    assert_eq!(parse_port_specs("a,,b").err().unwrap().piece, "");
    assert_eq!(parse_port_specs("1x").err().unwrap().piece, "1x");
    assert_eq!(parse_port_specs("a, b[").err().unwrap().piece, " b[");
    assert_eq!(parse_port_specs("_").err().unwrap().piece, "_");
    assert!(parse_port_specs(",").is_err());
}

#[test]
fn port_attributes_inject_fields() {
    let specs = vec![
        PortSpec { name: "inp".into(), array: false },
        PortSpec { name: "inps".into(), array: true },
    ];
    let ins = injected_inputs(&specs);
    assert_eq!(
        ins,
        vec![
            ("inp".to_string(), "Receiver".to_string()),
            ("inps".to_string(), "Vec<Receiver>".to_string()),
            ("input_closed".to_string(), "bool".to_string()),
        ]
    );
    let outs = injected_outputs(&specs);
    assert_eq!(
        outs,
        vec![("inp".to_string(), "Option<Sender>".to_string()), ("inps".to_string(), "Vec<Sender>".to_string())]
    );
}

#[test]
fn fields_are_sorted_by_their_type_text() {
    assert!(type_mentions("Vec < Receiver >", "Vec<Receiver>"));
    assert!(!type_mentions("Receiver", "Sender"));
    assert_eq!(field_role("out", "Option<Sender>"), FieldRole::Output { array: false });
    assert_eq!(field_role("outs", "Vec<Sender>"), FieldRole::Output { array: true });
    assert_eq!(field_role("inp", "Receiver"), FieldRole::Input { array: false });
    assert_eq!(field_role("input_closed", "bool"), FieldRole::Flag);
    assert_eq!(field_role("k", "u32"), FieldRole::Arg);
    let fields: Vec<(String, String)> = vec![
        ("inp".into(), "Receiver".into()),
        ("k".into(), "u32".into()),
        ("out".into(), "Option<Sender>".into()),
        ("inps".into(), "Vec<Receiver>".into()),
        ("input_closed".into(), "bool".into()),
        ("name".into(), "String".into()),
    ];
    let plan = classify_fields(&fields);
    assert_eq!(plan.inputs, vec![("inp".to_string(), false), ("inps".to_string(), true)]);
    assert_eq!(plan.outputs, vec![("out".to_string(), false)]);
    assert_eq!(plan.args, vec!["k".to_string(), "name".to_string()]);
    assert!(plan.input_closed);
    assert!(!classify_fields(&vec![("a".into(), "u8".into())]).input_closed);
}

#[test]
fn lifecycle_methods_are_added_when_missing() {
    let p = lifecycle_plan(&vec!["exec".to_string()]);
    assert!(p.add_initialize && p.add_finalize && p.wrap_exec);
    let p = lifecycle_plan(&vec!["initialize".to_string(), "exec".to_string(), "finalize".to_string()]);
    assert!(!p.add_initialize && !p.add_finalize && p.wrap_exec);
    let p = lifecycle_plan(&vec![]);
    assert!(p.add_initialize && p.add_finalize && !p.wrap_exec);
}
