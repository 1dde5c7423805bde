//! The queue of pending work: single transactions and batches, rebuilt from
//! rows that come in the order of their ids.

use vstd::prelude::*;
use std::collections::VecDeque;

verus! {

/// One entry of the queue.
#[derive(Debug, Clone, PartialEq, Eq)]
pub enum TxVariant<T> {
    /// A transaction that belongs to no batch.
    Single(T),
    /// The transactions of one batch, in the order of their rows. Never empty
    /// when the queue was rebuilt from rows.
    Batch(Vec<T>),
}

/// What an entry of the queue is to the contracts.
pub enum QueueItem<T> {
    /// A transaction that belongs to no batch.
    Single(T),
    /// The transactions of one batch, in order.
    Batch(Seq<T>),
}

impl<T> QueueItem<T> {
    /// The transactions that the entry holds, in order.
    pub open spec fn txs(self) -> Seq<T> {
        match self {
            QueueItem::Single(tx) => seq![tx],
            QueueItem::Batch(txs) => txs,
        }
    }
}

impl<T> View for TxVariant<T> {
    type V = QueueItem<T>;

    open spec fn view(&self) -> QueueItem<T> {
        match self {
            TxVariant::Single(tx) => QueueItem::Single(*tx),
            TxVariant::Batch(txs) => QueueItem::Batch(txs@),
        }
    }
}

/// The entries of a queue as the contracts see them, in order.
pub open spec fn queue_view<T>(queue: Seq<TxVariant<T>>) -> Seq<QueueItem<T>> {
    Seq::new(queue.len(), |i: int| queue[i]@)
}

/// Whether the last row carries the batch id of the row before it.
pub open spec fn continues_batch<T>(rows: Seq<(Option<i64>, T)>) -> bool {
    &&& rows.len() >= 2
    &&& rows.last().0 is Some
    &&& rows[rows.len() - 2].0 == rows.last().0
}

/// The queue that a sequence of rows stands for. A row is a transaction with
/// the batch id that it is bound to, if any. A row without a batch id is an
/// entry of its own. A row with a batch id joins the batch of the row before
/// it when both carry the same id, and opens a new batch otherwise.
pub open spec fn queue_of<T>(rows: Seq<(Option<i64>, T)>) -> Seq<QueueItem<T>>
    decreases rows.len(),
{
    if rows.len() == 0 {
        Seq::empty()
    } else {
        let before = queue_of(rows.drop_last());
        let tx = rows.last().1;
        if rows.last().0 is None {
            before.push(QueueItem::Single(tx))
        } else if continues_batch(rows) {
            before.drop_last().push(QueueItem::Batch(before.last().txs().push(tx)))
        } else {
            before.push(QueueItem::Batch(seq![tx]))
        }
    }
}

/// The transactions of a queue, entry by entry, batches flattened.
pub open spec fn members<T>(queue: Seq<QueueItem<T>>) -> Seq<T>
    decreases queue.len(),
{
    if queue.len() == 0 {
        Seq::empty()
    } else {
        members(queue.drop_last()) + queue.last().txs()
    }
}

/// The transactions of a sequence of rows, without their batch ids.
pub open spec fn row_txs<T>(rows: Seq<(Option<i64>, T)>) -> Seq<T> {
    Seq::new(rows.len(), |i: int| rows[i].1)
}

/// The queue of rows of which none is bound to a batch: one single entry per
/// row.
pub open spec fn singles<T>(txs: Seq<T>) -> Seq<QueueItem<T>> {
    Seq::new(txs.len(), |i: int| QueueItem::Single(txs[i]))
}

/// Whether rows `left` and rows `right`, put one after the other, meet at the
/// border of two entries: no batch of `left` goes on in `right`.
pub open spec fn entries_part<T>(left: Seq<(Option<i64>, T)>, right: Seq<(Option<i64>, T)>) -> bool {
    left.len() > 0 && right.len() > 0 && left.last().0 is Some ==> left.last().0 != right[0].0
}

/// The last entry of the queue holds the last row: as a single entry when the
/// row is bound to no batch, else as the last member of a batch.
pub proof fn lemma_queue_last<T>(rows: Seq<(Option<i64>, T)>)
    requires
        rows.len() > 0,
    ensures
        queue_of(rows).len() > 0,
        rows.last().0 is None ==> queue_of(rows).last() == QueueItem::Single(rows.last().1),
        rows.last().0 is Some ==> queue_of(rows).last() is Batch,
        queue_of(rows).last().txs().len() > 0,
        queue_of(rows).last().txs().last() == rows.last().1,
    decreases rows.len(),
{
    if continues_batch(rows) {
        lemma_queue_last(rows.drop_last());
    }
}

/// A row that is bound to no batch adds one single entry to the end of the
/// queue and leaves the entries before it as they were.
pub proof fn lemma_queue_push_unbound<T>(rows: Seq<(Option<i64>, T)>, tx: T)
    ensures
        queue_of(rows.push((None, tx))) == queue_of(rows).push(QueueItem::Single(tx)),
{
    assert(rows.push((None::<i64>, tx)).drop_last() =~= rows);
}

/// Nothing is lost, doubled or moved: the transactions of the queue, batches
/// flattened, are the transactions of the rows in the order of the rows.
pub proof fn lemma_queue_members<T>(rows: Seq<(Option<i64>, T)>)
    ensures
        members(queue_of(rows)) == row_txs(rows),
    decreases rows.len(),
{
    if rows.len() > 0 {
        let before = queue_of(rows.drop_last());
        let tx = rows.last().1;
        lemma_queue_members(rows.drop_last());
        assert(row_txs(rows) =~= row_txs(rows.drop_last()).push(tx));
        if rows.last().0 is None {
            assert(before.push(QueueItem::Single(tx)).drop_last() =~= before);
        } else if continues_batch(rows) {
            lemma_queue_last(rows.drop_last());
            let grown = QueueItem::Batch(before.last().txs().push(tx));
            assert(before.drop_last().push(grown).drop_last() =~= before.drop_last());
        } else {
            assert(before.push(QueueItem::Batch(seq![tx])).drop_last() =~= before);
        }
    }
}

/// Every batch of the queue has at least one member.
pub proof fn lemma_queue_batches_nonempty<T>(rows: Seq<(Option<i64>, T)>, i: int)
    requires
        0 <= i < queue_of(rows).len(),
    ensures
        queue_of(rows)[i].txs().len() > 0,
    decreases rows.len(),
{
    if rows.len() > 0 {
        let before = queue_of(rows.drop_last());
        if continues_batch(rows) {
            lemma_queue_last(rows.drop_last());
            if i < before.len() - 1 {
                lemma_queue_batches_nonempty(rows.drop_last(), i);
            }
        } else if i < before.len() {
            lemma_queue_batches_nonempty(rows.drop_last(), i);
        }
    }
}

/// Rows of which none is bound to a batch come out as single entries, one per
/// row, in the order of the rows.
pub proof fn lemma_queue_unbound<T>(rows: Seq<(Option<i64>, T)>)
    requires
        forall|i: int| 0 <= i < rows.len() ==> (#[trigger] rows[i]).0 is None,
    ensures
        queue_of(rows) == singles(row_txs(rows)),
    decreases rows.len(),
{
    if rows.len() > 0 {
        lemma_queue_unbound(rows.drop_last());
    }
}

/// A queue without a batch comes from rows of which none is bound to a batch.
pub proof fn lemma_queue_without_batch<T>(rows: Seq<(Option<i64>, T)>)
    requires
        forall|j: int| 0 <= j < queue_of(rows).len() ==> (#[trigger] queue_of(rows)[j]) is Single,
    ensures
        forall|i: int| 0 <= i < rows.len() ==> (#[trigger] rows[i]).0 is None,
    decreases rows.len(),
{
    if rows.len() > 0 {
        let head = rows.drop_last();
        let before = queue_of(head);
        lemma_queue_last(rows);
        assert forall|j: int| 0 <= j < before.len() implies (#[trigger] before[j]) is Single by {
            assert(queue_of(rows)[j] == before[j]);
        }
        lemma_queue_without_batch(head);
        assert forall|i: int| 0 <= i < rows.len() implies (#[trigger] rows[i]).0 is None by {
            if i < head.len() {
                assert(rows[i] == head[i]);
            }
        }
    }
}

/// Where two runs of rows meet at the border of two entries, the queue of the
/// whole is the queue of the first run followed by the queue of the second.
pub proof fn lemma_queue_concat<T>(left: Seq<(Option<i64>, T)>, right: Seq<(Option<i64>, T)>)
    requires
        entries_part(left, right),
    ensures
        queue_of(left + right) == queue_of(left) + queue_of(right),
    decreases right.len(),
{
    if right.len() > 0 {
        let rows = left + right;
        let head = right.drop_last();
        assert(rows.drop_last() =~= left + head);
        lemma_queue_concat(left, head);
        if continues_batch(rows) {
            lemma_queue_last(head);
        }
    }
}

/// Rows that are all bound to one batch come out as that one batch.
pub proof fn lemma_queue_one_batch<T>(run: Seq<(Option<i64>, T)>, batch_id: i64)
    requires
        run.len() > 0,
        forall|i: int| 0 <= i < run.len() ==> (#[trigger] run[i]).0 == Some(batch_id),
    ensures
        queue_of(run) == seq![QueueItem::Batch(row_txs(run))],
    decreases run.len(),
{
    let head = run.drop_last();
    if head.len() == 0 {
        assert(queue_of(head) =~= Seq::empty());
        assert(seq![run.last().1] =~= row_txs(run));
    } else {
        lemma_queue_one_batch(head, batch_id);
        assert(row_txs(head).push(run.last().1) =~= row_txs(run));
    }
}

/// A run of neighbouring rows that are all bound to one batch, with no row of
/// that batch right before or right after it, is exactly one entry of the
/// queue, at the place of the run: the entries of the rows before it come
/// first, then the batch with the run's transactions in order, then the
/// entries of the rows after it.
pub proof fn lemma_queue_batch_in_place<T>(
    before: Seq<(Option<i64>, T)>,
    run: Seq<(Option<i64>, T)>,
    after: Seq<(Option<i64>, T)>,
    batch_id: i64,
)
    requires
        run.len() > 0,
        forall|i: int| 0 <= i < run.len() ==> (#[trigger] run[i]).0 == Some(batch_id),
        before.len() > 0 ==> before.last().0 != Some(batch_id),
        after.len() > 0 ==> after[0].0 != Some(batch_id),
    ensures
        queue_of(before + run + after) == queue_of(before) + seq![
            QueueItem::Batch(row_txs(run)),
        ] + queue_of(after),
{
    lemma_queue_one_batch(run, batch_id);
    lemma_queue_concat(before, run);
    lemma_queue_concat(before + run, after);
}

/// Whether two optional batch ids are the same.
fn same_batch(a: Option<i64>, b: Option<i64>) -> (same: bool)
    ensures
        same == (a == b),
{
    match (a, b) {
        (None, None) => true,
        (Some(x), Some(y)) => x == y,
        _ => false,
    }
}

/// Rebuilds the queue from rows in the order of their ids.
pub fn group_txs<T>(rows: Vec<(Option<i64>, T)>) -> (queue: VecDeque<TxVariant<T>>)
    ensures
        queue_view(queue@) == queue_of(rows@),
{
    let mut queue: VecDeque<TxVariant<T>> = VecDeque::new();
    let mut open: Vec<T> = Vec::new();
    let mut current: Option<i64> = None;
    let ghost all = rows@;
    for row in it: rows.into_iter()
        invariant
            it.seq() == all,
            current == (if it.index() > 0 {
                all[it.index() - 1].0
            } else {
                None
            }),
            current is None ==> open@.len() == 0 && queue_view(queue@) == queue_of(
                all.take(it.index() as int),
            ),
            current is Some ==> queue_view(queue@).push(QueueItem::Batch(open@)) == queue_of(
                all.take(it.index() as int),
            ),
    {
        let ghost i = it.index() as int;
        let ghost closed = queue_view(queue@);
        assert(all.take(i + 1).drop_last() =~= all.take(i));
        let (batch_id, tx) = row;
        if current.is_some() && !same_batch(batch_id, current) {
            let mut done: Vec<T> = Vec::new();
            core::mem::swap(&mut open, &mut done);
            queue.push_back(TxVariant::Batch(done));
            assert(queue_view(queue@) =~= closed.push(QueueItem::Batch(done@)));
        }
        let ghost entered = queue_view(queue@);
        match batch_id {
            None => {
                queue.push_back(TxVariant::Single(tx));
                assert(queue_view(queue@) =~= entered.push(QueueItem::Single(tx)));
            },
            Some(_) => {
                open.push(tx);
                assert(batch_id == current || open@ =~= seq![tx]);
            },
        }
        current = batch_id;
    }
    assert(all.take(all.len() as int) =~= all);
    if current.is_some() {
        queue.push_back(TxVariant::Batch(open));
    }
    queue
}

} // verus!
