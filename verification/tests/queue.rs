use std::collections::VecDeque;

use mempool_store::queue::{group_txs, TxVariant};

fn queue(entries: Vec<TxVariant<u32>>) -> VecDeque<TxVariant<u32>> {
    VecDeque::from(entries)
}

#[test]
fn no_rows_no_queue() {
    assert_eq!(group_txs(Vec::<(Option<i64>, u32)>::new()), queue(vec![]));
}

#[test]
fn unbound_rows_are_single_entries_in_order() {
    let rows = vec![(None, 10), (None, 20), (None, 30)];
    assert_eq!(
        group_txs(rows),
        queue(vec![TxVariant::Single(10), TxVariant::Single(20), TxVariant::Single(30)])
    );
}

#[test]
fn a_run_of_one_batch_is_one_entry_in_place() {
    let rows = vec![(None, 1), (Some(7), 2), (Some(7), 3), (Some(7), 4), (None, 5)];
    assert_eq!(
        group_txs(rows),
        queue(vec![TxVariant::Single(1), TxVariant::Batch(vec![2, 3, 4]), TxVariant::Single(5)])
    );
}

#[test]
fn neighbouring_batches_stay_apart() {
    let rows = vec![(Some(1), 1), (Some(1), 2), (Some(2), 3), (Some(3), 4), (Some(3), 5)];
    assert_eq!(
        group_txs(rows),
        queue(vec![
            TxVariant::Batch(vec![1, 2]),
            TxVariant::Batch(vec![3]),
            TxVariant::Batch(vec![4, 5]),
        ])
    );
}

#[test]
fn a_batch_may_open_and_close_the_queue() {
    let rows = vec![(Some(4), 1), (None, 2), (None, 3), (Some(5), 4), (Some(5), 5)];
    assert_eq!(
        group_txs(rows),
        queue(vec![
            TxVariant::Batch(vec![1]),
            TxVariant::Single(2),
            TxVariant::Single(3),
            TxVariant::Batch(vec![4, 5]),
        ])
    );
}

#[test]
fn all_rows_of_one_batch_are_one_entry() {
    let rows = vec![(Some(-3), 9), (Some(-3), 8), (Some(-3), 7)];
    assert_eq!(group_txs(rows), queue(vec![TxVariant::Batch(vec![9, 8, 7])]));
}

#[test]
fn a_batch_that_is_split_by_other_rows_comes_out_in_parts() {
    let rows = vec![(Some(7), 1), (None, 2), (Some(7), 3), (Some(8), 4), (Some(7), 5)];
    assert_eq!(
        group_txs(rows),
        queue(vec![
            TxVariant::Batch(vec![1]),
            TxVariant::Single(2),
            TxVariant::Batch(vec![3]),
            TxVariant::Batch(vec![4]),
            TxVariant::Batch(vec![5]),
        ])
    );
}

#[test]
fn grouping_keeps_every_transaction_once_and_in_order() {
    let rows: Vec<(Option<i64>, u32)> = (0..40u32)
        .map(|i| (if i % 5 < 3 { Some((i / 5) as i64) } else { None }, i))
        .collect();
    let mut flat = Vec::new();
    for entry in group_txs(rows) {
        match entry {
            TxVariant::Single(tx) => flat.push(tx),
            TxVariant::Batch(txs) => {
                assert_eq!(txs.len(), 3);
                flat.extend(txs);
            }
        }
    }
    assert_eq!(flat, (0..40u32).collect::<Vec<u32>>());
}
