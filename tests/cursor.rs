use cbms::cbms::{BarTime, CBMSError, CBMSIteratorData, CBMSPlayer, ChannelCommand};
use cbms::compiler::{compile, ChannelCommandSet};

fn set(measure: u32, channel: u32, start: usize, end: usize) -> ChannelCommandSet {
    ChannelCommandSet { measure, channel, args_idx: (start, end) }
}

fn le(a: BarTime, b: BarTime) -> bool {
    a.measure < b.measure || (a.measure == b.measure && a.slot * b.slots <= b.slot * a.slots)
}

#[test]
fn flatten_walks_every_command_once_in_time_order() {
    let args: Vec<u32> = (1..=12).collect();
    let sets = vec![
        set(0, 11, 0, 2),
        set(0, 12, 2, 5),
        set(2, 11, 5, 9),
        set(4, 13, 9, 9),
        set(5, 14, 9, 12),
    ];
    let out = compile(&sets, &args);
    let mut flat = out.iter().flatten();
    let mut indices = Vec::new();
    let mut times: Vec<BarTime> = Vec::new();
    while let Some((i, t)) = flat.next() {
        indices.push(i);
        times.push(t);
    }
    assert_eq!(indices, (0..out.commands.len()).collect::<Vec<_>>());
    assert_eq!(indices.len(), 12);
    for w in times.windows(2) {
        assert!(le(w[0], w[1]));
    }
    assert_eq!(times[0], BarTime { measure: 0, slot: 0, slots: 6 });
    assert_eq!(times[11], BarTime { measure: 5, slot: 2, slots: 3 });
    assert!(flat.next().is_none());
}

#[test]
fn flatten_from_bar_starts_at_its_commands() {
    let args = vec![1, 2, 3, 4];
    let sets = vec![set(0, 1, 0, 2), set(1, 1, 2, 4)];
    let out = compile(&sets, &args);
    let mut flat = out.iter_from_bar(1).ok().unwrap().flatten();
    let (i, t) = flat.next().unwrap();
    assert_eq!(i, 2);
    assert_eq!(t, BarTime { measure: 1, slot: 0, slots: 2 });
    let (i, t) = flat.next().unwrap();
    assert_eq!(i, 3);
    assert_eq!(t, BarTime { measure: 1, slot: 1, slots: 2 });
    assert!(flat.next().is_none());
}

#[test]
fn command_lookup() {
    let args = vec![42];
    let out = compile(&vec![set(0, 9, 0, 1)], &args);
    assert_eq!(out.command(0), Some(ChannelCommand { channel: 9, value: 42 }));
    assert_eq!(out.command(1), None);
}

#[test]
fn iterator_data_and_player() {
    let args = vec![1, 2, 3];
    let out = compile(&vec![set(0, 1, 0, 1), set(2, 1, 1, 3)], &args);
    let d = out.iter_data_from_bar(1);
    assert_eq!(d.current_set, 1);
    assert_eq!(d.current_cmd_pos, 1);
    assert_eq!(d.current_cmd_cnt_pos, 1);
    let z = CBMSIteratorData::default();
    assert_eq!((z.current_set, z.current_cmd_pos, z.current_cmd_cnt_pos), (0, 0, 0));
    let p = CBMSPlayer::new(&out);
    assert_eq!(p.cbms.bar_count(), 3);
}

#[test]
fn grid_of_a_bar() {
    let args = vec![5, 6, 0, 7];
    let sets = vec![set(1, 11, 0, 2), set(1, 12, 2, 4), set(1, 30, 0, 1)];
    let out = compile(&sets, &args);
    let grid = out.bar_grid(1, 11, 2).ok().unwrap();
    assert_eq!(grid, vec![vec![Some(5), Some(0)], vec![Some(6), Some(7)]]);
    assert!(matches!(out.bar_grid(0, 11, 2), Err(CBMSError::BarIsEmpty)));
    assert!(matches!(out.bar_grid(2, 11, 2), Err(CBMSError::BarOutOfRange)));
}

#[test]
fn grid_keeps_last_command_of_a_channel() {
    let args = vec![1, 2];
    let sets = vec![set(0, 11, 0, 1), set(0, 11, 1, 2)];
    let out = compile(&sets, &args);
    let grid = out.bar_grid(0, 11, 1).ok().unwrap();
    assert_eq!(grid, vec![vec![Some(2)]]);
}
