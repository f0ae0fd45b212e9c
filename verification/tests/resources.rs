use flow_rs::builtin::{BinaryOp, Counter};
use flow_rs::error::Error;
use flow_rs::resource::{downcast_arc, AnyResource, Context, ResourceCollection};
use std::sync::Arc;

#[test]
fn downcast_round_trips_to_same_type() {
    let any = AnyResource::new(Arc::new(42i64));
    let back = downcast_arc::<i64>(any).unwrap();
    assert_eq!(*back, 42);
}

#[test]
fn downcast_wrong_type_is_none() {
    let any = AnyResource::new(Arc::new(42i64));
    assert!(downcast_arc::<String>(any).is_none());
}

#[test]
fn collection_gets_by_name_and_type() {
    let m = vec![("n".to_owned(), AnyResource::new(Arc::new(100i64)))];
    let rc = ResourceCollection::from_map(m);
    assert_eq!(rc.get::<i64>("n").map(|a| *a), Some(100));
    assert!(rc.get::<String>("n").is_none());
    assert!(rc.get::<i64>("missing").is_none());
}

#[test]
fn collection_shares_one_instance() {
    let m = vec![("n".to_owned(), AnyResource::new(Arc::new(1i64)))];
    let rc = ResourceCollection::from_map(m);
    let a = rc.get::<i64>("n").unwrap();
    let b = rc.get::<i64>("n").unwrap();
    assert!(Arc::ptr_eq(&a, &b), "both lookups share one resource");
}

#[test]
fn anonymous_has_no_resources() {
    let ctx = Context::anonymous();
    assert_eq!(ctx.name, "");
    assert!(ctx.resource::<i64>("anything").is_none());
}

#[test]
fn context_borrows_resource_by_name() {
    let m = vec![("k".to_owned(), AnyResource::new(Arc::new(9i64)))];
    let ctx = Context::new("node1", ResourceCollection::from_map(m));
    assert_eq!(ctx.name, "node1");
    assert_eq!(ctx.resource::<i64>("k").map(|a| *a), Some(9));
    assert!(ctx.resource::<String>("k").is_none());
    assert!(ctx.resource::<i64>("nope").is_none());
}

#[test]
fn later_entries_of_a_name_replace_earlier_ones() {
    let m = vec![
        ("n".to_owned(), AnyResource::new(Arc::new(1i64))),
        ("n".to_owned(), AnyResource::new(Arc::new(2i64))),
    ];
    let rc = ResourceCollection::from_map(m);
    assert_eq!(rc.get::<i64>("n").map(|a| *a), Some(2));
    let copy = rc.clone();
    assert!(Arc::ptr_eq(&rc.get::<i64>("n").unwrap(), &copy.get::<i64>("n").unwrap()));
}

#[test]
fn counter_counts_bumps() {
    let c = Arc::new(Counter::new());
    assert_eq!(c.get(), 0);
    assert_eq!(c.bump(), 1);
    assert_eq!(c.bump(), 2);
    assert_eq!(c.get(), 2);
    let shared = AnyResource::new(c.clone());
    let back = downcast_arc::<Counter>(shared).unwrap();
    back.bump();
    assert_eq!(c.get(), 3);
}

#[test]
fn binary_op_computes_and_refuses_unknown_operators() {
    let op = |s: &str| BinaryOp { op: s.into() };
    assert_eq!(op("+").apply(2, 3).unwrap(), 5);
    assert_eq!(op("-").apply(2, 3).unwrap(), -1);
    assert_eq!(op("*").apply(-4, 3).unwrap(), -12);
    assert_eq!(op("/").apply(7, 2).unwrap(), 3);
    assert_eq!(op("/").apply(-7, 2).unwrap(), -3);
    assert_eq!(op("/").apply(7, -2).unwrap(), -3);
    assert_eq!(op("/").apply(-7, -2).unwrap(), 3);
    assert_eq!(op("/").apply(i32::MIN, 1).unwrap(), i32::MIN);
    match op("%").apply(1, 1) {
        Err(Error::Arg { key, msg }) => {
            assert_eq!(key, "op");
            assert_eq!(msg, format!("未知运算符 {:?}", "%"));
        },
        _ => panic!("expected an argument error"),
    }
}
