use flow_rs::broker::{Mailbox, Poll};
use flow_rs::builtin::{Bcast, Counter, Merge, Tally};
use flow_rs::channel::{Batch, BatchRecvError};
use flow_rs::envelope::{Envelope, EnvelopeInfo, SealedEnvelope};
use flow_rs::error::Error;
use flow_rs::node::{first_failure, settle_exec, Action, NodeRun, Stage};

#[test]
fn node_run_initializes_steps_then_closes_and_finalizes() {
    let mut run = NodeRun::new();
    assert_eq!(run.stage(), Stage::Start);
    assert!(matches!(run.begin(), Action::Initialize));
    assert!(matches!(run.initialized(false), Action::Exec));
    assert!(matches!(run.executed(Ok(()), false), Action::Exec));
    assert_eq!(run.stage(), Stage::Running);
    assert!(matches!(run.executed(Ok(()), true), Action::Close));
    assert!(matches!(run.closed(), Action::Finalize));
    assert!(matches!(run.finalized(), Action::Finish(Ok(()))));
    assert_eq!(run.stage(), Stage::Done);
}

#[test]
fn node_run_with_inputs_closed_at_start_never_steps() {
    let mut run = NodeRun::new();
    run.begin();
    assert!(matches!(run.initialized(true), Action::Close));
    assert_eq!(run.stage(), Stage::Closing);
}

#[test]
fn node_run_ends_at_a_step_error_without_closing() {
    let mut run = NodeRun::new();
    run.begin();
    run.initialized(false);
    let action = run.executed(Err(Error::Arg { key: "op".into(), msg: "bad".into() }), false);
    match action {
        Action::Finish(Err(Error::Arg { key, msg })) => {
            assert_eq!(key, "op");
            assert_eq!(msg, "bad");
        }
        other => panic!("unexpected {other:?}"),
    }
    assert_eq!(run.stage(), Stage::Done);
}

#[test]
fn closed_channel_in_a_step_is_a_graceful_end() {
    let (mark, r) = settle_exec(Err(Error::ChannelClosed));
    assert!(mark);
    assert!(r.is_ok());
    let mut run = NodeRun::new();
    run.begin();
    run.initialized(false);
    assert!(matches!(run.executed(r, mark), Action::Close));

    let (mark, r) = settle_exec(Err(Error::TypeMismatch));
    assert!(!mark);
    assert!(matches!(r, Err(Error::TypeMismatch)));
    let (mark, r) = settle_exec(Ok(()));
    assert!(!mark);
    assert!(r.is_ok());
}

#[test]
fn first_failure_reports_the_earliest_error() {
    assert!(first_failure(vec![]).is_ok());
    assert!(first_failure(vec![Ok(()), Ok(())]).is_ok());
    let r = first_failure(vec![
        Ok(()),
        Err(Error::BadConnection("first".into())),
        Err(Error::BadConnection("second".into())),
    ]);
    assert!(matches!(r, Err(Error::BadConnection(m)) if m == "first"));
}

#[test]
fn mailbox_is_first_in_first_out() {
    let mut m: Mailbox<u32> = Mailbox::new();
    assert_eq!(m.senders(), 1);
    assert!(!m.is_closed());
    assert!(matches!(m.poll(), Poll::Pending));
    m.push(1);
    m.push(2);
    assert!(matches!(m.poll(), Poll::Ready(1)));
    m.push(3);
    assert_eq!(m.pop(), Some(2));
    assert!(matches!(m.poll(), Poll::Ready(3)));
    assert_eq!(m.pop(), None);
}

#[test]
fn closed_mailbox_drains_then_reports_closed() {
    let mut m: Mailbox<u32> = Mailbox::new();
    m.push(7);
    m.close();
    m.push(8);
    assert!(matches!(m.poll(), Poll::Ready(7)));
    assert!(matches!(m.poll(), Poll::Closed(Error::ChannelClosed)));
    assert_eq!(m.pop(), None);
}

#[test]
fn mailbox_closes_when_its_last_sender_leaves() {
    let mut m: Mailbox<u32> = Mailbox::new();
    m.add_sender();
    assert_eq!(m.senders(), 2);
    m.drop_sender();
    assert!(!m.is_closed());
    m.drop_sender();
    assert_eq!(m.senders(), 0);
    assert!(m.is_closed());
}

#[test]
fn batch_completes_at_summed_weight() {
    let mut b: Batch<&str> = Batch::new(5);
    assert!(!b.is_complete());
    assert!(!b.offer("a", Some(2)));
    assert!(!b.offer("b", None));
    assert!(!b.offer("c", Some(0)));
    assert!(b.offer("d", Some(2)));
    assert_eq!(b.into_items(), vec!["a", "b", "c", "d"]);
}

#[test]
fn batch_of_unweighted_messages_counts_them() {
    let mut b: Batch<u8> = Batch::new(3);
    assert!(!b.offer(1, None));
    assert!(!b.offer(2, None));
    assert!(b.offer(3, None));
    let zero: Batch<u8> = Batch::new(0);
    assert!(zero.is_complete());
    assert!(zero.into_items().is_empty());
}

#[test]
fn batch_weight_does_not_overflow() {
    let mut b: Batch<u8> = Batch::new(usize::MAX);
    assert!(!b.offer(1, Some(usize::MAX - 1)));
    assert!(b.offer(2, Some(usize::MAX)));
}

#[test]
fn batch_error_keeps_the_partial_batch() {
    let e: BatchRecvError<u8> = BatchRecvError::Closed(vec![1, 2]);
    match e {
        BatchRecvError::Closed(items) => assert_eq!(items, vec![1, 2]),
    }
}

fn sealed(v: u32, weight: usize) -> SealedEnvelope {
    let mut info = EnvelopeInfo::default();
    info.weight = Some(weight);
    Envelope::with_info(v, info).seal()
}

#[test]
fn bcast_copies_to_every_output() {
    let copies = Bcast {}.copies(sealed(9, 4), 3);
    assert_eq!(copies.len(), 3);
    for c in copies {
        assert_eq!(c.info().weight, Some(4));
        assert_eq!(c.unseal::<u32>().ok().unwrap().unpack(), 9);
    }
    assert!(Bcast {}.copies(sealed(1, 1), 0).is_empty());
    assert_eq!(Bcast {}.copies(sealed(1, 1), 1).len(), 1);
}

#[test]
fn merge_without_inputs_is_closed() {
    assert!(matches!(Merge {}.check_inputs(0), Err(Error::ChannelClosed)));
    assert!(Merge {}.check_inputs(2).is_ok());
}

#[test]
fn tally_counts_only_with_a_counter() {
    let tally = Tally { res: "counter".into() };
    let counter = Counter::new();
    assert_eq!(tally.record(Some(&counter)), Some(1));
    assert_eq!(tally.record(Some(&counter)), Some(2));
    assert_eq!(counter.get(), 2);
    assert_eq!(tally.record(None), None);
    assert_eq!(counter.get(), 2);
}
