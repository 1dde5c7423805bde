use std::collections::VecDeque;

use mempool_store::error::{IdsExhausted, MempoolError};
use mempool_store::hash_key::hash_key;
use mempool_store::queue::TxVariant;
use mempool_store::records::{MempoolBatchBinding, MempoolTx};
use mempool_store::schema::MempoolSchema;

#[derive(Debug, Clone, PartialEq)]
struct Transfer {
    nonce: u64,
    memo: String,
}

impl Transfer {
    fn new(nonce: u64, memo: &str) -> Self {
        Transfer { nonce, memo: memo.to_string() }
    }

    fn hash(&self) -> Vec<u8> {
        let mut bytes = self.nonce.to_be_bytes().to_vec();
        bytes.extend_from_slice(self.memo.as_bytes());
        bytes
    }

    fn payload(&self) -> String {
        serde_json::to_string(&(self.nonce, &self.memo)).unwrap()
    }
}

fn decode(payload: &String) -> Result<Transfer, String> {
    match serde_json::from_str::<(u64, String)>(payload) {
        Ok((nonce, memo)) => Ok(Transfer { nonce, memo }),
        Err(_) => Err(format!("bad payload: {}", payload)),
    }
}

fn insert(store: &mut MempoolSchema<String>, tx: &Transfer) {
    assert_eq!(store.insert_tx(&tx.hash(), tx.payload()), Ok(()));
}

fn store_of(txs: &[Transfer]) -> MempoolSchema<String> {
    let mut store = MempoolSchema::new();
    for tx in txs {
        insert(&mut store, tx);
    }
    store
}

fn five() -> Vec<Transfer> {
    vec![
        Transfer::new(1, "one"),
        Transfer::new(2, "two"),
        Transfer::new(3, "three"),
        Transfer::new(4, "four"),
        Transfer::new(5, "five"),
    ]
}

fn row(id: i64, tx: &Transfer) -> MempoolTx<String> {
    MempoolTx { id, tx_hash: hash_key(&tx.hash()), tx: tx.payload() }
}

fn load(store: &MempoolSchema<String>) -> Result<Vec<TxVariant<Transfer>>, MempoolError<String>> {
    store.load_txs(decode).map(Vec::from)
}

#[test]
fn new_store_is_empty() {
    let store: MempoolSchema<String> = MempoolSchema::new();
    assert_eq!(store.len(), 0);
    assert!(store.rows().is_empty());
    assert_eq!(store.load_txs(decode), Ok(VecDeque::new()));
}

#[test]
fn insert_then_load_gives_the_transaction_back() {
    let tx = Transfer::new(42, "rent");
    let mut store = MempoolSchema::new();
    insert(&mut store, &tx);

    assert_eq!(store.rows().len(), 1);
    assert_eq!(store.rows()[0].id, 1);
    assert_eq!(store.rows()[0].tx_hash, "000000000000002a72656e74");
    assert_eq!(store.rows()[0].tx, tx.payload());
    assert_eq!(store.rows()[0].tx, "[42,\"rent\"]");

    let queue = load(&store).unwrap();
    assert_eq!(queue.len(), 1);
    match &queue[0] {
        TxVariant::Single(loaded) => {
            assert_eq!(loaded.hash(), tx.hash());
            assert_eq!(loaded.payload(), tx.payload());
            assert_eq!(loaded, &tx);
        }
        TxVariant::Batch(_) => panic!("a single transaction was inserted"),
    }
}

#[test]
fn insert_appends_one_single_entry_to_the_queue() {
    let txs = five();
    let mut store = store_of(&txs[..4]);
    assert!(store.bind_batch(3, 9));
    assert!(store.bind_batch(4, 9));
    let before = load(&store).unwrap();
    insert(&mut store, &txs[4]);
    let after = load(&store).unwrap();
    assert_eq!(after.len(), before.len() + 1);
    assert_eq!(&after[..before.len()], &before[..]);
    assert_eq!(after[before.len()], TxVariant::Single(txs[4].clone()));
}

#[test]
fn ids_start_at_one_and_grow_by_one() {
    let store = store_of(&five());
    let ids: Vec<i64> = store.rows().iter().map(|row| row.id).collect();
    assert_eq!(ids, vec![1, 2, 3, 4, 5]);
}

#[test]
fn load_keeps_the_order_of_insertion() {
    let t1 = Transfer::new(3, "c");
    let t2 = Transfer::new(1, "a");
    let t3 = Transfer::new(2, "b");
    let store = store_of(&[t1.clone(), t2.clone(), t3.clone()]);
    assert_eq!(
        load(&store),
        Ok(vec![TxVariant::Single(t1), TxVariant::Single(t2), TxVariant::Single(t3)])
    );
}

#[test]
fn load_groups_the_rows_of_a_batch() {
    let txs = five();
    let mut store = store_of(&txs);
    assert!(store.bind_batch(2, 77));
    assert!(store.bind_batch(3, 77));
    assert!(store.bind_batch(4, 77));
    assert_eq!(
        load(&store),
        Ok(vec![
            TxVariant::Single(txs[0].clone()),
            TxVariant::Batch(vec![txs[1].clone(), txs[2].clone(), txs[3].clone()]),
            TxVariant::Single(txs[4].clone()),
        ])
    );
}

#[test]
fn load_keeps_neighbouring_batches_apart() {
    let txs = five();
    let mut store = store_of(&txs);
    assert!(store.bind_batch(1, 10));
    assert!(store.bind_batch(2, 10));
    assert!(store.bind_batch(3, 11));
    assert!(store.bind_batch(4, 11));
    assert!(store.bind_batch(5, 12));
    assert_eq!(
        load(&store),
        Ok(vec![
            TxVariant::Batch(vec![txs[0].clone(), txs[1].clone()]),
            TxVariant::Batch(vec![txs[2].clone(), txs[3].clone()]),
            TxVariant::Batch(vec![txs[4].clone()]),
        ])
    );
}

#[test]
fn load_is_repeatable() {
    let txs = five();
    let mut store = store_of(&txs);
    assert!(store.bind_batch(4, 1));
    assert!(store.bind_batch(5, 1));
    let first = load(&store);
    assert_eq!(load(&store), first);
    assert_eq!(store.len(), 5);
}

#[test]
fn equal_hashes_may_be_stored_twice() {
    let tx = Transfer::new(8, "twice");
    let store = store_of(&[tx.clone(), tx.clone()]);
    assert_eq!(store.len(), 2);
    assert_eq!(store.rows()[0].tx_hash, store.rows()[1].tx_hash);
    assert_eq!(load(&store), Ok(vec![TxVariant::Single(tx.clone()), TxVariant::Single(tx)]));
}

#[test]
fn removing_an_absent_hash_changes_nothing() {
    let mut store = store_of(&five());
    assert!(store.bind_batch(2, 5));
    let rows_before = store.rows().clone();
    let queue_before = load(&store);
    store.remove_tx(&Transfer::new(6, "six").hash());
    assert_eq!(store.rows(), &rows_before);
    assert_eq!(load(&store), queue_before);
    assert_eq!(store.batch_of(2), Some(5));

    let mut empty: MempoolSchema<String> = MempoolSchema::new();
    empty.remove_tx(&[1, 2, 3]);
    assert_eq!(empty.len(), 0);
}

#[test]
fn remove_takes_every_row_of_the_hash_and_no_other() {
    let txs = five();
    let mut store = store_of(&[
        txs[0].clone(),
        txs[1].clone(),
        txs[0].clone(),
        txs[2].clone(),
        txs[0].clone(),
    ]);
    store.remove_tx(&txs[0].hash());
    assert_eq!(store.rows(), &vec![row(2, &txs[1]), row(4, &txs[2])]);
    store.remove_tx(&txs[0].hash());
    assert_eq!(store.rows(), &vec![row(2, &txs[1]), row(4, &txs[2])]);
}

#[test]
fn remove_leaves_the_binding_behind() {
    let txs = five();
    let mut store = store_of(&txs[..3]);
    assert!(store.bind_batch(2, 30));
    assert!(store.bind_batch(3, 30));
    store.remove_tx(&txs[1].hash());
    assert_eq!(store.batch_of(2), Some(30));
    assert!(!store.holds_id(2));
    assert_eq!(
        load(&store),
        Ok(vec![TxVariant::Single(txs[0].clone()), TxVariant::Batch(vec![txs[2].clone()])])
    );
    insert(&mut store, &txs[3]);
    assert_eq!(store.rows()[2].id, 4);
    assert_eq!(store.batch_of(4), None);
}

#[test]
fn remove_many_takes_the_rows_of_all_given_hashes() {
    let txs = five();
    let mut store = store_of(&txs);
    store.remove_txs(&[txs[3].hash(), Transfer::new(9, "absent").hash(), txs[0].hash()]);
    assert_eq!(store.rows(), &vec![row(2, &txs[1]), row(3, &txs[2]), row(5, &txs[4])]);
    store.remove_txs(&[]);
    assert_eq!(store.len(), 3);
    store.remove_txs(&[txs[1].hash(), txs[1].hash(), txs[2].hash(), txs[4].hash()]);
    assert_eq!(store.len(), 0);
}

#[test]
fn one_bad_payload_fails_the_whole_load() {
    let txs = five();
    let mut store = store_of(&txs[..1]);
    assert_eq!(store.insert_tx(&txs[1].hash(), "{\"nonce\":".to_string()), Ok(()));
    insert(&mut store, &txs[2]);
    assert_eq!(
        store.load_txs(decode),
        Err(MempoolError::Deserialization { id: 2, cause: "bad payload: {\"nonce\":".to_string() })
    );
}

#[test]
fn bad_payload_inside_a_batch_fails_the_whole_load() {
    let txs = five();
    let rows = vec![
        row(1, &txs[0]),
        row(2, &txs[1]),
        MempoolTx { id: 3, tx_hash: hash_key(&txs[2].hash()), tx: "[3]".to_string() },
        row(4, &txs[3]),
    ];
    let bindings = vec![
        MempoolBatchBinding { mempool_tx_id: 2, batch_id: 1 },
        MempoolBatchBinding { mempool_tx_id: 3, batch_id: 1 },
        MempoolBatchBinding { mempool_tx_id: 4, batch_id: 1 },
    ];
    let store = MempoolSchema::from_tables(rows, bindings).unwrap();
    assert_eq!(
        store.load_txs(decode),
        Err(MempoolError::Deserialization { id: 3, cause: "bad payload: [3]".to_string() })
    );
}

#[test]
fn load_reports_the_first_bad_payload() {
    let txs = five();
    let mut store = store_of(&txs[..2]);
    assert_eq!(store.insert_tx(&[1], "first".to_string()), Ok(()));
    insert(&mut store, &txs[2]);
    assert_eq!(store.insert_tx(&[2], "second".to_string()), Ok(()));
    assert_eq!(
        store.load_txs(decode),
        Err(MempoolError::Deserialization { id: 3, cause: "bad payload: first".to_string() })
    );
    store.remove_tx(&[1]);
    assert_eq!(
        store.load_txs(decode),
        Err(MempoolError::Deserialization { id: 5, cause: "bad payload: second".to_string() })
    );
    store.remove_tx(&[2]);
    assert_eq!(load(&store).map(|queue| queue.len()), Ok(3));
}

#[test]
fn binding_needs_a_stored_transaction() {
    let mut store = store_of(&five()[..2]);
    assert!(!store.bind_batch(3, 1));
    assert!(!store.bind_batch(0, 1));
    assert_eq!(store.batch_of(3), None);
    assert!(store.bind_batch(2, 1));
    assert_eq!(store.batch_of(2), Some(1));
    assert!(store.bind_batch(2, 8));
    assert_eq!(store.batch_of(2), Some(8));
    assert!(store.holds_id(1));
    assert!(!store.holds_id(3));
}

#[test]
fn tables_that_fit_make_a_store() {
    let txs = five();
    let rows = vec![row(-4, &txs[0]), row(10, &txs[1]), row(11, &txs[2])];
    let bindings = vec![
        MempoolBatchBinding { mempool_tx_id: 10, batch_id: 3 },
        MempoolBatchBinding { mempool_tx_id: 11, batch_id: 3 },
        MempoolBatchBinding { mempool_tx_id: 25, batch_id: 4 },
    ];
    let mut store = MempoolSchema::from_tables(rows.clone(), bindings).unwrap();
    assert_eq!(store.rows(), &rows);
    assert_eq!(store.batch_of(-4), None);
    assert_eq!(store.batch_of(10), Some(3));
    assert_eq!(store.batch_of(25), Some(4));
    assert_eq!(
        load(&store),
        Ok(vec![
            TxVariant::Single(txs[0].clone()),
            TxVariant::Batch(vec![txs[1].clone(), txs[2].clone()]),
        ])
    );
    insert(&mut store, &txs[3]);
    assert_eq!(store.rows()[3].id, 26);
    assert_eq!(store.batch_of(26), None);
}

#[test]
fn store_of_empty_tables_starts_at_one() {
    let mut store: MempoolSchema<String> = MempoolSchema::from_tables(vec![], vec![]).unwrap();
    insert(&mut store, &Transfer::new(1, "first"));
    assert_eq!(store.rows()[0].id, 1);

    let rows = vec![row(-9, &Transfer::new(1, "below zero"))];
    let mut store = MempoolSchema::from_tables(rows, vec![]).unwrap();
    insert(&mut store, &Transfer::new(2, "next"));
    assert_eq!(store.rows()[1].id, 1);
}

#[test]
fn tables_that_do_not_fit_make_no_store() {
    let txs = five();
    let unordered = vec![row(2, &txs[0]), row(1, &txs[1])];
    assert!(MempoolSchema::from_tables(unordered, vec![]).is_none());
    let same_id = vec![row(1, &txs[0]), row(1, &txs[1])];
    assert!(MempoolSchema::from_tables(same_id, vec![]).is_none());
    let last_id = vec![row(1, &txs[0]), row(i64::MAX, &txs[1])];
    assert!(MempoolSchema::from_tables(last_id, vec![]).is_none());
    let bound_twice = vec![
        MempoolBatchBinding { mempool_tx_id: 1, batch_id: 3 },
        MempoolBatchBinding { mempool_tx_id: 1, batch_id: 4 },
    ];
    assert!(MempoolSchema::from_tables(vec![row(1, &txs[0])], bound_twice).is_none());
    let bound_last_id = vec![MempoolBatchBinding { mempool_tx_id: i64::MAX, batch_id: 3 }];
    assert!(MempoolSchema::from_tables(vec![row(1, &txs[0])], bound_last_id).is_none());
}

#[test]
fn insert_fails_when_the_ids_are_used_up() {
    let txs = five();
    let rows = vec![row(i64::MAX - 2, &txs[0])];
    let mut store = MempoolSchema::from_tables(rows, vec![]).unwrap();
    insert(&mut store, &txs[1]);
    assert_eq!(store.rows()[1].id, i64::MAX - 1);
    let rows_before = store.rows().clone();
    assert_eq!(store.insert_tx(&txs[2].hash(), txs[2].payload()), Err(IdsExhausted));
    assert_eq!(store.rows(), &rows_before);
    assert_eq!(load(&store).map(|queue| queue.len()), Ok(2));
}

#[test]
fn payload_may_be_a_json_value() {
    let tx = Transfer::new(7, "seven");
    let payload = serde_json::to_value((tx.nonce, &tx.memo)).unwrap();
    let mut store: MempoolSchema<serde_json::Value> = MempoolSchema::new();
    assert_eq!(store.insert_tx(&tx.hash(), payload.clone()), Ok(()));
    assert_eq!(store.insert_tx(&[0], serde_json::Value::Null), Ok(()));
    assert_eq!(store.rows()[0].tx, payload);

    let decode = |payload: &serde_json::Value| -> Result<Transfer, String> {
        match serde_json::from_value::<(u64, String)>(payload.clone()) {
            Ok((nonce, memo)) => Ok(Transfer { nonce, memo }),
            Err(error) => Err(error.to_string()),
        }
    };
    match store.load_txs(decode) {
        Err(MempoolError::Deserialization { id, .. }) => assert_eq!(id, 2),
        other => panic!("the second payload is no transfer: {:?}", other),
    }
    store.remove_tx(&[0]);
    assert_eq!(store.load_txs(decode), Ok(VecDeque::from(vec![TxVariant::Single(tx)])));
}
