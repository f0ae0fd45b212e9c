use flow_rs::algo_base::{RecordVec, TrackState};
use flow_rs::dr::{Dr, SyncWith};

#[test]
fn record_vec_keeps_a_separate_checkpoint_and_moves_non_clone_values() {
    struct OnlyMove(u32);
    let mut values: RecordVec<OnlyMove> = vec![OnlyMove(1), OnlyMove(2)].into();
    assert_eq!(values.1, 2);
    values.push(OnlyMove(3));
    assert_eq!(values.len(), 3);
    assert_eq!(values.1, 2, "push does not advance recorded length");
    assert_eq!(
        values
            .iter()
            .skip(values.1)
            .map(|value| value.0)
            .collect::<Vec<_>>(),
        vec![3]
    );
    values[0].0 = 9;
    values.1 = values.len();
    assert_eq!(values.1, 3);
    let moved: Vec<OnlyMove> = values.into();
    assert_eq!(
        moved.into_iter().map(|value| value.0).collect::<Vec<_>>(),
        vec![9, 2, 3]
    );
    let empty: RecordVec<OnlyMove> = Default::default();
    assert!(empty.is_empty());
    assert_eq!(empty.1, 0);
}

#[test]
fn track_state_names_and_positions_round_trip() {
    assert_eq!(TrackState::default().name(), "no");
    for (index, name) in [
        "no", "new", "update", "miss", "die", "filtered", "select", "max",
    ]
    .into_iter()
    .enumerate()
    {
        let state = TrackState::from(name);
        assert_eq!(state.name(), name);
        assert_eq!(state.to_string(), name);
        assert_eq!(state as usize, index);
        assert_eq!(state.index(), index);
    }
}

#[derive(Clone)]
struct Sample(u32);
impl SyncWith<&mut Vec<u32>> for Sample {
    fn sync_with(&mut self, output: &mut Vec<u32>) {
        output.push(self.0);
    }
}

#[test]
fn dirty_flag_tracks_mutable_access_not_reads_or_private_data() {
    let mut value = Dr::new(Sample(1));
    let mut output = Vec::new();
    value.sync_with(&mut output);
    value.sync_with(&mut output);
    assert_eq!(output, vec![1]);
    assert_eq!(value.0, 1);
    value.add_private_data("cache".into(), 5u32);
    *value.private_data_mut::<u32>("cache").unwrap() = 6;
    value.sync_with(&mut output);
    assert_eq!(output, vec![1]);
    let _: &mut Sample = &mut value;
    value.sync_with(&mut output);
    assert_eq!(output, vec![1, 1]);
    value.0 = 2;
    value.sync_with(&mut output);
    assert_eq!(output, vec![1, 1, 2]);
}

#[test]
fn clone_discards_private_data_and_requires_a_new_sync() {
    let mut value = Dr::from(Sample(7));
    value.add_private_data("cache".into(), String::from("private"));
    assert!(value.private_data::<u32>("cache").is_none());
    assert!(value.private_data::<String>("missing").is_none());
    let mut output = Vec::new();
    value.sync_with(&mut output);
    let mut copied = value.clone();
    assert!(copied.private_data::<String>("cache").is_none());
    assert_eq!(value.private_data::<String>("cache").unwrap(), "private");
    copied.sync_with(&mut output);
    assert_eq!(output, vec![7, 7]);
    assert_eq!(copied.into_inner().0, 7);
}

#[test]
fn private_data_under_one_key_is_replaced() {
    let mut value = Dr::new(Sample(3));
    value.add_private_data("k".into(), 1u32);
    value.add_private_data("k".into(), 2u32);
    assert_eq!(*value.private_data::<u32>("k").unwrap(), 2);
    *value.private_data_mut::<u32>("k").unwrap() = 4;
    assert_eq!(*value.private_data::<u32>("k").unwrap(), 4);
    assert!(value.private_data_mut::<u32>("other").is_none());
}
