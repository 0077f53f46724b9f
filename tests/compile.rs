use cbms::cbms::{BarTime, CBMSError, ChannelCommand, CBMS};
use cbms::compiler::{compile, ChannelCommandSet};

fn set(measure: u32, channel: u32, start: usize, end: usize) -> ChannelCommandSet {
    ChannelCommandSet { measure, channel, args_idx: (start, end) }
}

fn cmd(channel: u32, value: u32) -> ChannelCommand {
    ChannelCommand { channel, value }
}

#[test]
fn two_sets_share_lcm_grid() {
    let args = vec![10, 20, 30, 40, 50];
    let sets = vec![set(3, 1, 0, 2), set(3, 2, 2, 5)];
    let out = compile(&sets, &args);
    assert_eq!(out.command_cnt, vec![2, 0, 1, 1, 1, 0]);
    assert_eq!(
        out.commands,
        vec![cmd(1, 10), cmd(2, 30), cmd(2, 40), cmd(1, 20), cmd(2, 50)]
    );
    assert_eq!(out.measure_sets.len(), 1);
    assert_eq!(out.measure_sets[0].measure, 3);
    assert_eq!(out.measure_sets[0].command_cnt_idx, (0, 6));
    assert_eq!(out.measure_sets[0].commands_idx, (0, 5));
    assert_eq!(out.bar_count(), 4);
}

#[test]
fn slot_count_is_lcm_of_four_and_six() {
    let args: Vec<u32> = (1..=10).collect();
    let sets = vec![set(0, 11, 0, 4), set(0, 12, 4, 10)];
    let out = compile(&sets, &args);
    assert_eq!(out.command_cnt.len(), 12);
    // value j of a set with count c sits in slot j * 12 / c
    let mut flat = out.iter().flatten();
    let mut seen = Vec::new();
    while let Some((i, t)) = flat.next() {
        seen.push((out.commands[i], t.slot));
    }
    for j in 0..4usize {
        assert!(seen.contains(&(cmd(11, (1 + j) as u32), j * 3)));
    }
    for j in 0..6usize {
        assert!(seen.contains(&(cmd(12, (5 + j) as u32), j * 2)));
    }
}

#[test]
fn measures_sorted_and_input_order_kept_within_slot() {
    let args = vec![7, 8, 9];
    let sets = vec![set(5, 2, 0, 1), set(1, 4, 1, 2), set(5, 1, 2, 3)];
    let out = compile(&sets, &args);
    assert_eq!(out.measure_sets.len(), 2);
    assert_eq!(out.measure_sets[0].measure, 1);
    assert_eq!(out.measure_sets[1].measure, 5);
    assert_eq!(out.command_cnt, vec![1, 2]);
    assert_eq!(out.commands, vec![cmd(4, 8), cmd(2, 7), cmd(1, 9)]);
}

#[test]
fn duplicate_channels_are_both_kept() {
    let args = vec![1, 2];
    let sets = vec![set(0, 11, 0, 1), set(0, 11, 1, 2)];
    let out = compile(&sets, &args);
    assert_eq!(out.command_cnt, vec![2]);
    assert_eq!(out.commands, vec![cmd(11, 1), cmd(11, 2)]);
}

#[test]
fn empty_measure_is_omitted() {
    let args = vec![5];
    let sets = vec![set(0, 1, 0, 1), set(2, 1, 1, 1), set(2, 3, 1, 1)];
    let out = compile(&sets, &args);
    assert_eq!(out.measure_sets.len(), 1);
    assert_eq!(out.measure_sets[0].measure, 0);
    assert_eq!(out.bar_count(), 1);
}

#[test]
fn zero_length_set_does_not_hide_others() {
    let args = vec![5, 6];
    let sets = vec![set(1, 1, 0, 0), set(1, 2, 0, 2)];
    let out = compile(&sets, &args);
    assert_eq!(out.command_cnt, vec![1, 1]);
    assert_eq!(out.commands, vec![cmd(2, 5), cmd(2, 6)]);
}

#[test]
fn compile_nothing() {
    let out = compile(&Vec::new(), &Vec::new());
    assert_eq!(out.bar_count(), 0);
    assert!(out.measure_sets.is_empty());
    assert!(out.commands.is_empty());
}

#[test]
fn iter_from_bar_errors() {
    let args = vec![1, 2, 3];
    let sets = vec![set(1, 1, 0, 1), set(3, 1, 1, 3)];
    let out = compile(&sets, &args);
    assert_eq!(out.bar_count(), 4);
    assert!(matches!(out.iter_from_bar(4), Err(CBMSError::BarOutOfRange)));
    assert!(matches!(out.iter_from_bar(9), Err(CBMSError::BarOutOfRange)));
    assert!(matches!(out.iter_from_bar(2), Err(CBMSError::BarIsEmpty)));
    assert!(matches!(out.iter_from_bar(0), Err(CBMSError::BarIsEmpty)));
    let mut it = out.iter_from_bar(3).ok().unwrap();
    let (range, t) = it.next().unwrap();
    assert_eq!(range, (1, 2));
    assert_eq!(t, BarTime { measure: 3, slot: 0, slots: 2 });
    let (range, t) = it.next().unwrap();
    assert_eq!(range, (2, 3));
    assert_eq!(t, BarTime { measure: 3, slot: 1, slots: 2 });
    assert!(it.next().is_none());
}

#[test]
fn empty_store_cursor() {
    let store = CBMS::new();
    assert_eq!(store.bar_count(), 0);
    let mut it = store.iter();
    assert!(it.next().is_none());
    assert!(it.flatten().next().is_none());
    assert!(matches!(store.iter_from_bar(0), Err(CBMSError::BarOutOfRange)));
    assert!(store.command(0).is_none());
}
