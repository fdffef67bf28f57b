//! The database: transactions by name, single operations, and scans.

use crate::common::bound;
use crate::common::bound::{Bound, BoundView};
use crate::common::codec;
use crate::common::error::{Error, Fault};
use crate::common::order;
use crate::lock::lock_entry::WaitEvent;
use crate::lock::lock_table;
use crate::storage::batch::OperationView;
use crate::storage::iterator;
use crate::storage::iterator::Stream;
use crate::storage::lsm;
use crate::storage::lsm::{Effect, EffectView, Lsm, LsmOptions, LsmView};
use crate::storage::manifest::Manifest;
use crate::storage::scan::LsmIterator;
use crate::storage::sstable::CompressionType;
use crate::txn::mvcc;
use crate::txn::mvcc::{CommitOutcome, EngineView, MvccEngine, PendingWrite, WriteStep};
use crate::txn::transaction::{
    IsolationLevel, Transaction, TransactionState, TxnView, WritesView,
};
use std::collections::HashMap;
use vstd::prelude::*;

verus! {

pub struct DbOptions {
    pub memtable_size: usize,
    pub sync_writes: bool,
}

impl Default for DbOptions {
    fn default() -> (options: Self)
        ensures
            options == (DbOptions { memtable_size: 4194304, sync_writes: false }),
    {
        DbOptions { memtable_size: 4194304, sync_writes: false }
    }
}

/// The options of the tree of a database.
pub open spec fn tree_options(options: DbOptions) -> LsmOptions {
    LsmOptions {
        memtable_size: options.memtable_size,
        block_size: 4096,
        block_cache_capacity: 67108864,
        compression: CompressionType::Lz4,
    }
}

pub struct Db {
    engine: MvccEngine,
}

impl View for Db {
    type V = EngineView;

    closed spec fn view(&self) -> EngineView {
        self.engine@
    }
}

/// A write of a single operation may come to this: once it is made, its transaction is
/// committed. Where it does not get its lock, the transaction is given up and the fault
/// returned.
pub open spec fn written_through(
    s: EngineView,
    t: TxnView,
    result: Result<WriteStep, Error>,
    after: EngineView,
    step: DbStep,
) -> bool {
    match result {
        Ok(WriteStep::Wait(p)) => {
            &&& after == s
            &&& step matches DbStep::Wait(w) && w.write == p && w.txn@ == t && w.txn.wf()
        },
        Ok(WriteStep::Done) => {
            &&& step matches DbStep::Finished(outcome) && exists|t_after: TxnView| #[trigger]
                s.committed(t, after, t_after, outcome.effects(), outcome.fault())
        },
        Err(e) => {
            &&& after == s.aborted(t).0
            &&& step matches DbStep::Finished(outcome) && outcome.effects@.len() == 0
                && outcome.fault() == Some(e@) && forall|key: Seq<u8>| #[trigger]
                lock_table::lists(outcome.freed@, key) <==> s.locks.entry(
                    key,
                ).holders.contains_key(t.id)
        },
    }
}

/// A single operation that waits for the lock on its key.
pub struct PendingOperation {
    pub txn: Transaction,
    pub write: PendingWrite,
}

/// What became of a single operation.
pub enum DbStep {
    Finished(CommitOutcome),
    Wait(PendingOperation),
}

impl Db {
    pub closed spec fn wf(&self) -> bool {
        self.engine.wf()
    }

    /// Opens a database on the files that it left.
    pub fn open(manifest: Manifest, tables: HashMap<u64, Vec<u8>>, logs: HashMap<u64, Vec<u8>>) -> (
        result: Result<(Db, Vec<Effect>), Error>)
        requires
            manifest@.numbered(),
            manifest.labelled(),
        ensures
            result matches Ok((db, _)) ==> db.wf() && db@ == mvcc::fresh_engine(
                db@.storage,
                lock_table::default_config(),
            ),
            lsm::opens_to(
                manifest@,
                lsm::file_views(tables@),
                lsm::file_views(logs@),
                tree_options(DbOptions { memtable_size: 4194304, sync_writes: false }),
                match result {
                    Ok((db, effects)) => Ok((db@.storage, lsm::effect_views(effects@))),
                    Err(e) => Err(e@),
                },
            ),
    {
        Self::open_with_options(manifest, tables, logs, DbOptions::default())
    }

    pub fn open_with_options(
        manifest: Manifest,
        tables: HashMap<u64, Vec<u8>>,
        logs: HashMap<u64, Vec<u8>>,
        options: DbOptions,
    ) -> (result: Result<(Db, Vec<Effect>), Error>)
        requires
            manifest@.numbered(),
            manifest.labelled(),
        ensures
            result matches Ok((db, _)) ==> db.wf() && db@ == mvcc::fresh_engine(
                db@.storage,
                lock_table::default_config(),
            ),
            lsm::opens_to(
                manifest@,
                lsm::file_views(tables@),
                lsm::file_views(logs@),
                tree_options(options),
                match result {
                    Ok((db, effects)) => Ok((db@.storage, lsm::effect_views(effects@))),
                    Err(e) => Err(e@),
                },
            ),
    {
        let base = LsmOptions::default();
        let lsm_options = LsmOptions {
            memtable_size: options.memtable_size,
            block_size: base.block_size,
            block_cache_capacity: base.block_cache_capacity,
            compression: base.compression,
        };
        match Lsm::open(manifest, tables, logs, lsm_options) {
            Ok((tree, effects)) => Ok((Db { engine: MvccEngine::new(tree) }, effects)),
            Err(e) => Err(e),
        }
    }

    /// Reads a key in a transaction of its own.
    pub fn get(&mut self, key: &[u8]) -> (result: Result<Option<Vec<u8>>, Error>)
        requires
            old(self).wf(),
        ensures
            final(self).wf(),
            final(self)@.storage == old(self)@.storage,
            read_alone(old(self)@, key@, final(self)@, lsm::answer_of(result)),
    {
        let mut txn = self.engine.begin();
        let ghost began = self@;
        let ghost t = txn@;
        let result = self.engine.get(&mut txn, key);
        let ghost middle = self@;
        let ghost t_middle = txn@;
        assert(began.read(t, key@, middle, t_middle, lsm::answer_of(result)));
        match result {
            Ok(value) => {
                let outcome = self.engine.commit(&mut txn);
                proof {
                    lemma_idle_commit(
                        middle,
                        t_middle,
                        self@,
                        txn@,
                        outcome.effects(),
                        outcome.fault(),
                    );
                }
                match outcome.result {
                    Ok(()) => Ok(value),
                    Err(e) => Err(e),
                }
            },
            Err(e) => Err(e),
        }
    }

    /// Writes a key in a transaction of its own.
    pub fn put(&mut self, key: Vec<u8>, value: Vec<u8>) -> (step: DbStep)
        requires
            old(self).wf(),
        ensures
            final(self).wf(),
            wrote_alone(
                old(self)@,
                OperationView { key: key@, value: Some(value@) },
                final(self)@,
                step,
            ),
    {
        let ghost op = OperationView { key: key@, value: Some(value@) };
        let mut txn = self.engine.begin();
        let ghost began = self@;
        let ghost t = txn@;
        let result = self.engine.put(&mut txn, key, value);
        let ghost middle = self@;
        let ghost t_middle = txn@;
        assert(began.wrote(t, op, middle, t_middle, result));
        self.finish(txn, result)
    }

    /// Deletes a key in a transaction of its own.
    pub fn delete(&mut self, key: Vec<u8>) -> (step: DbStep)
        requires
            old(self).wf(),
        ensures
            final(self).wf(),
            wrote_alone(
                old(self)@,
                OperationView { key: key@, value: None },
                final(self)@,
                step,
            ),
    {
        let ghost op = OperationView { key: key@, value: None };
        let mut txn = self.engine.begin();
        let ghost began = self@;
        let ghost t = txn@;
        let result = self.engine.delete(&mut txn, key);
        let ghost middle = self@;
        let ghost t_middle = txn@;
        assert(began.wrote(t, op, middle, t_middle, result));
        self.finish(txn, result)
    }

    /// Goes on with a single operation that waits for its lock.
    pub fn resume(&mut self, pending: PendingOperation, event: WaitEvent) -> (step: DbStep)
        requires
            old(self).wf(),
            pending.txn.wf(),
        ensures
            final(self).wf(),
            exists|middle: EngineView, t_middle: TxnView, result: Result<WriteStep, Error>|
                #[trigger] old(self)@.resumed(
                    pending.txn@,
                    pending.write,
                    event,
                    middle,
                    t_middle,
                    result,
                ) && written_through(middle, t_middle, result, final(self)@, step),
    {
        let mut txn = pending.txn;
        let result = self.engine.resume_write(&mut txn, pending.write, event);
        let ghost middle = self@;
        let ghost t_middle = txn@;
        assert(old(self)@.resumed(
            pending.txn@,
            pending.write,
            event,
            middle,
            t_middle,
            result,
        ));
        self.finish(txn, result)
    }

    fn finish(&mut self, txn: Transaction, result: Result<WriteStep, Error>) -> (step: DbStep)
        requires
            old(self).wf(),
            txn.wf(),
        ensures
            final(self).wf(),
            written_through(old(self)@, txn@, result, final(self)@, step),
    {
        let mut txn = txn;
        match result {
            Ok(WriteStep::Wait(write)) => DbStep::Wait(PendingOperation { txn, write }),
            Ok(WriteStep::Done) => DbStep::Finished(self.engine.commit(&mut txn)),
            Err(e) => {
                let freed = self.engine.abort(&mut txn);
                DbStep::Finished(CommitOutcome { effects: Vec::new(), freed, result: Err(e) })
            },
        }
    }

    /// Begins a transaction that reads a snapshot.
    pub fn begin(&mut self) -> (txn: Txn)
        requires
            old(self).wf(),
        ensures
            final(self).wf(),
            txn.wf(),
            (final(self)@, txn@) == old(self)@.begun(IsolationLevel::Snapshot),
    {
        Txn { inner: self.engine.begin() }
    }

    pub fn begin_with_isolation(&mut self, isolation: IsolationLevel) -> (txn: Txn)
        requires
            old(self).wf(),
        ensures
            final(self).wf(),
            txn.wf(),
            (final(self)@, txn@) == old(self)@.begun(isolation),
    {
        Txn { inner: self.engine.begin_with_isolation(isolation) }
    }

    /// Everything that was written is brought to the disk.
    pub fn sync(&mut self) -> (effect: Effect)
        requires
            old(self).wf(),
        ensures
            final(self).wf(),
            final(self)@ == old(self)@.synced(),
            effect@ == EffectView::SyncLog,
    {
        self.engine.sync()
    }

    /// An iterator over all keys.
    pub fn scan(&self) -> (result: Result<DbIterator, Error>)
        ensures
            scanned_as(self@.storage, BoundView::Unbounded, BoundView::Unbounded, result),
    {
        match self.engine.scan() {
            Ok(inner) => Ok(DbIterator { inner }),
            Err(e) => Err(e),
        }
    }

    /// An iterator over the keys of a range.
    pub fn scan_range(&self, start: Bound, end: Bound) -> (result: Result<DbIterator, Error>)
        ensures
            scanned_as(self@.storage, start@, end@, result),
    {
        match self.engine.scan_range(start, end) {
            Ok(inner) => Ok(DbIterator { inner }),
            Err(e) => Err(e),
        }
    }

    /// An iterator over the keys with a prefix.
    pub fn prefix_scan(&self, prefix: &[u8]) -> (result: Result<DbIterator, Error>)
        ensures
            scanned_as(
                self@.storage,
                BoundView::Included(prefix@),
                prefix_end(prefix@),
                result,
            ),
    {
        let start = Bound::Included(codec::copy_bytes(prefix));
        self.scan_range(start, prefix_end_bound(prefix))
    }

    /// The engine below, for those who wait and for deadlocks.
    pub fn engine(&self) -> (engine: &MvccEngine)
        requires
            self.wf(),
        ensures
            engine.wf(),
            engine@ == self@,
    {
        &self.engine
    }
}

/// A single read may come to this: it is done in a transaction of its own, which is then
/// committed, unless the read fails.
pub open spec fn read_alone(
    s: EngineView,
    key: Seq<u8>,
    after: EngineView,
    answer: Result<Option<Seq<u8>>, Fault>,
) -> bool {
    exists|began: EngineView, t: TxnView, middle: EngineView, t_middle: TxnView|
        (began, t) == s.begun(IsolationLevel::Snapshot) && #[trigger] began.read(
            t,
            key,
            middle,
            t_middle,
            answer,
        ) && match answer {
            Ok(_) => exists|t_after: TxnView| #[trigger]
                middle.committed(t_middle, after, t_after, Seq::empty(), None),
            Err(_) => after == middle,
        }
}

/// A single write may come to this: it is done in a transaction of its own, which is then
/// committed, or given up where the write fails.
pub open spec fn wrote_alone(
    s: EngineView,
    op: OperationView,
    after: EngineView,
    step: DbStep,
) -> bool {
    exists|
        began: EngineView,
        t: TxnView,
        middle: EngineView,
        t_middle: TxnView,
        result: Result<WriteStep, Error>,
    |
        (began, t) == s.begun(IsolationLevel::Snapshot) && #[trigger] began.wrote(
            t,
            op,
            middle,
            t_middle,
            result,
        ) && written_through(middle, t_middle, result, after, step)
}

/// A scan of the tree may come to this.
pub open spec fn scanned_as(
    s: LsmView,
    start: BoundView,
    end: BoundView,
    result: Result<DbIterator, Error>,
) -> bool {
    match result {
        Ok(iter) => iter.wf() && s.parts().scanned(start, end, Ok::<Stream, Fault>(iter.stream())),
        Err(e) => s.parts().scanned(start, end, Err::<Stream, Fault>(e@)),
    }
}

/// A commit of a snapshot without writes succeeds, leaves the tree as it is and needs
/// nothing of the files.
pub proof fn lemma_idle_commit(
    s: EngineView,
    t: TxnView,
    after: EngineView,
    t_after: TxnView,
    effects: Seq<EffectView>,
    fault: Option<Fault>,
)
    requires
        t.isolation == IsolationLevel::Snapshot,
        t.state == TransactionState::Active,
        t.writes == WritesView::none(),
        s.committed(t, after, t_after, effects, fault),
    ensures
        fault is None,
        after.storage == s.storage,
        effects == Seq::<EffectView>::empty(),
{
    let checked = s;
    let prepared = s.manager.prepared(t, s.storage.next_ts).0;
    let (storage, trouble) = choose|storage: LsmView, trouble: Option<Fault>| #[trigger]
        mvcc::applied(checked.storage, t.writes, storage, effects, trouble) && if trouble is Some {
            &&& after == (EngineView { storage, ..checked })
            &&& t_after == prepared
            &&& fault == trouble
        } else {
            (after, t_after, fault) == (EngineView { storage, ..checked }).concluded(prepared)
        };
    let (ops, n) = choose|ops: Seq<OperationView>, n: int|
        #![trigger checked.storage.stored_all(ops.take(n), storage, effects, trouble)]
        mvcc::lists_writes(ops, t.writes) && 0 <= n <= ops.len() && checked.storage.stored_all(
            ops.take(n),
            storage,
            effects,
            trouble,
        ) && (trouble is None ==> n == ops.len());
    let (puts, deletes) = choose|puts: Seq<OperationView>, deletes: Seq<OperationView>|
        #![trigger puts.add(deletes)]
        ops == puts.add(deletes) && mvcc::lists_puts(puts, t.writes.puts) && mvcc::lists_deletes(
            deletes,
            t.writes.deletes,
        );
    if puts.len() > 0 {
        assert(t.writes.puts.contains_key(puts[0].key));
    }
    if deletes.len() > 0 {
        assert(t.writes.deletes.contains(deletes[0].key));
    }
}

/// Where the keys with a prefix end: before the least byte string that is behind all of
/// them, if there is one.
pub open spec fn prefix_end(prefix: Seq<u8>) -> BoundView
    decreases prefix.len(),
{
    if prefix.len() == 0 {
        BoundView::Unbounded
    } else if prefix.last() < 0xff {
        BoundView::Excluded(prefix.drop_last().push((prefix.last() + 1) as u8))
    } else {
        prefix_end(prefix.drop_last())
    }
}

pub fn prefix_end_bound(prefix: &[u8]) -> (end: Bound)
    ensures
        end@ == prefix_end(prefix@),
{
    let mut n: usize = prefix.len();
    assert(prefix@.take(n as int) =~= prefix@);
    while n > 0
        invariant
            n <= prefix@.len(),
            prefix_end(prefix@) == prefix_end(prefix@.take(n as int)),
        decreases n,
    {
        let ghost head = prefix@.take(n as int);
        assert(head.drop_last() =~= prefix@.take(n - 1));
        if prefix[n - 1] < 0xff {
            let mut end: Vec<u8> = codec::copy_range(prefix, 0, n - 1);
            end.push(prefix[n - 1] + 1);
            assert(end@ =~= head.drop_last().push((head.last() + 1) as u8));
            return Bound::Excluded(end);
        }
        n -= 1;
    }
    Bound::Unbounded
}

/// Where the last byte of a prefix can be raised, the keys with the prefix lie before the
/// raised prefix, and only they.
proof fn lemma_prefix_step(key: Seq<u8>, prefix: Seq<u8>)
    requires
        prefix.len() > 0,
        prefix.last() < 0xff,
    ensures
        order::has_prefix(key, prefix) <==> !order::less(key, prefix) && order::less(
            key,
            prefix.drop_last().push((prefix.last() + 1) as u8),
        ),
{
    reveal(order::less);
    let n = prefix.len() as int;
    let raised = prefix.drop_last().push((prefix.last() + 1) as u8);
    assert(raised[n - 1] == prefix[n - 1] + 1);
    if order::has_prefix(key, prefix) {
        assert forall|i: int| 0 <= i < n implies key[i] == prefix[i] by {
            assert(key.take(n)[i] == prefix[i]);
        }
        assert(order::precedes_at(key, raised, n - 1));
        if order::less(key, prefix) {
            let i = choose|i: int| #[trigger] order::precedes_at(key, prefix, i);
            assert(false);
        }
    }
    if !order::less(key, prefix) && order::less(key, raised) {
        let i = choose|i: int| #[trigger] order::precedes_at(key, raised, i);
        if i < n - 1 {
            assert(order::precedes_at(key, prefix, i));
        } else if i == n - 1 {
            if key.len() == n - 1 {
                assert(order::precedes_at(key, prefix, n - 1));
            } else if key[n - 1] < prefix[n - 1] {
                assert(order::precedes_at(key, prefix, n - 1));
            } else {
                assert(key.take(n) =~= prefix);
            }
        }
    }
}

/// Behind a prefix that ends in the greatest byte, the keys with the rest of the prefix
/// that are not before it are those with the whole of it.
proof fn lemma_full_byte(key: Seq<u8>, prefix: Seq<u8>)
    requires
        prefix.len() > 0,
        prefix.last() == 0xff,
    ensures
        order::has_prefix(key, prefix) <==> order::has_prefix(key, prefix.drop_last())
            && !order::less(key, prefix),
        !order::less(key, prefix) ==> !order::less(key, prefix.drop_last()),
{
    reveal(order::less);
    let n = prefix.len() as int;
    let shorter = prefix.drop_last();
    if order::has_prefix(key, prefix) {
        assert forall|i: int| 0 <= i < n implies key[i] == prefix[i] by {
            assert(key.take(n)[i] == prefix[i]);
        }
        assert(key.take(n - 1) =~= shorter);
        if order::less(key, prefix) {
            let i = choose|i: int| #[trigger] order::precedes_at(key, prefix, i);
            assert(false);
        }
    }
    if order::has_prefix(key, shorter) && !order::less(key, prefix) {
        assert forall|i: int| 0 <= i < n - 1 implies key[i] == prefix[i] by {
            assert(key.take(n - 1)[i] == shorter[i]);
        }
        if key.len() == n - 1 || key[n - 1] < 0xff {
            assert(order::precedes_at(key, prefix, n - 1));
        }
        assert(key.take(n) =~= prefix);
    }
    if order::less(key, shorter) {
        let i = choose|i: int| #[trigger] order::precedes_at(key, shorter, i);
        assert(order::precedes_at(key, prefix, i));
    }
}

/// A key has a prefix exactly when it lies between the prefix and where its keys end.
pub proof fn lemma_prefix_range(key: Seq<u8>, prefix: Seq<u8>)
    ensures
        order::has_prefix(key, prefix) <==> bound::in_range(
            key,
            BoundView::Included(prefix),
            prefix_end(prefix),
        ),
    decreases prefix.len(),
{
    reveal(order::less);
    order::lemma_total(key, prefix);
    order::lemma_irreflexive(key);
    if order::less(key, prefix) {
        order::lemma_asymmetric(key, prefix);
    }
    assert(order::at_most(prefix, key) <==> !order::less(key, prefix));
    if prefix.len() == 0 {
        assert(key.take(0) =~= prefix);
        assert(!order::less(key, prefix));
    } else if prefix.last() < 0xff {
        lemma_prefix_step(key, prefix);
    } else {
        let shorter = prefix.drop_last();
        lemma_prefix_range(key, shorter);
        lemma_full_byte(key, prefix);
        order::lemma_total(key, shorter);
    }
}

/// A transaction of the database.
pub struct Txn {
    inner: Transaction,
}

impl View for Txn {
    type V = TxnView;

    closed spec fn view(&self) -> TxnView {
        self.inner@
    }
}

impl Txn {
    pub closed spec fn wf(&self) -> bool {
        self.inner.wf()
    }

    pub fn get(&mut self, db: &mut Db, key: &[u8]) -> (result: Result<Option<Vec<u8>>, Error>)
        requires
            old(self).wf(),
            old(db).wf(),
        ensures
            final(self).wf(),
            final(db).wf(),
            old(db)@.read(old(self)@, key@, final(db)@, final(self)@, lsm::answer_of(result)),
    {
        db.engine.get(&mut self.inner, key)
    }

    /// Writes a key. The write is done, or has to wait for the lock on the key, or is refused
    /// and not part of the transaction.
    pub fn put(&mut self, db: &mut Db, key: Vec<u8>, value: Vec<u8>) -> (result: Result<
        WriteStep,
        Error,
    >)
        requires
            old(self).wf(),
            old(db).wf(),
        ensures
            final(self).wf(),
            final(db).wf(),
            old(db)@.wrote(
                old(self)@,
                OperationView { key: key@, value: Some(value@) },
                final(db)@,
                final(self)@,
                result,
            ),
    {
        db.engine.put(&mut self.inner, key, value)
    }

    /// Deletes a key. The deletion is done, or has to wait for the lock on the key, or is
    /// refused and not part of the transaction.
    pub fn delete(&mut self, db: &mut Db, key: Vec<u8>) -> (result: Result<WriteStep, Error>)
        requires
            old(self).wf(),
            old(db).wf(),
        ensures
            final(self).wf(),
            final(db).wf(),
            old(db)@.wrote(
                old(self)@,
                OperationView { key: key@, value: None },
                final(db)@,
                final(self)@,
                result,
            ),
    {
        db.engine.delete(&mut self.inner, key)
    }

    /// Goes on with a write that waits for its lock.
    pub fn resume(&mut self, db: &mut Db, pending: PendingWrite, event: WaitEvent) -> (
        result: Result<WriteStep, Error>)
        requires
            old(self).wf(),
            old(db).wf(),
        ensures
            final(self).wf(),
            final(db).wf(),
            old(db)@.resumed(old(self)@, pending, event, final(db)@, final(self)@, result),
    {
        db.engine.resume_write(&mut self.inner, pending, event)
    }

    pub fn commit(self, db: &mut Db) -> (outcome: CommitOutcome)
        requires
            self.wf(),
            old(db).wf(),
        ensures
            final(db).wf(),
            exists|t_after: TxnView| #[trigger]
                old(db)@.committed(self@, final(db)@, t_after, outcome.effects(), outcome.fault()),
            forall|key: Seq<u8>| #[trigger]
                lock_table::lists(outcome.freed@, key) <==> outcome.fault() is None && old(
                    db,
                )@.locks.entry(key).holders.contains_key(self@.id),
    {
        let mut inner = self.inner;
        let outcome = db.engine.commit(&mut inner);
        assert(old(db)@.committed(self@, db@, inner@, outcome.effects(), outcome.fault()));
        outcome
    }

    pub fn abort(self, db: &mut Db) -> (freed: Vec<Vec<u8>>)
        requires
            self.wf(),
            old(db).wf(),
        ensures
            final(db).wf(),
            final(db)@ == old(db)@.aborted(self@).0,
            forall|key: Seq<u8>| #[trigger]
                lock_table::lists(freed@, key) <==> old(db)@.locks.entry(key).holders.contains_key(
                    self@.id,
                ),
    {
        let mut inner = self.inner;
        db.engine.abort(&mut inner)
    }
}

/// An iterator over a range of keys of the database.
pub struct DbIterator {
    inner: LsmIterator,
}

impl DbIterator {
    pub closed spec fn wf(&self) -> bool {
        self.inner.wf()
    }

    /// What is still to come, the current entry first.
    pub closed spec fn stream(&self) -> Stream {
        self.inner.stream()
    }

    pub fn key(&self) -> (key: Option<&[u8]>)
        requires
            self.wf(),
        ensures
            match key {
                Some(k) => self.stream().items.len() > 0 && k@ == self.stream().head().key.data,
                None => self.stream().items.len() == 0,
            },
    {
        self.inner.key()
    }

    /// The current value, none where the key is deleted.
    pub fn value(&self) -> (value: Option<&[u8]>)
        requires
            self.wf(),
        ensures
            match value {
                Some(v) => self.stream().items.len() > 0 && self.stream().head().value == Some(
                    v@,
                ),
                None => self.stream().items.len() == 0 || self.stream().head().value is None,
            },
    {
        match self.inner.value() {
            Some(v) => Some(v.as_slice()),
            None => None,
        }
    }

    pub fn is_valid(&self) -> (valid: bool)
        requires
            self.wf(),
        ensures
            valid == (self.stream().items.len() > 0),
    {
        self.inner.is_valid()
    }

    /// Goes on to the next entry. At the end of the range, or behind a fault, it stays.
    pub fn advance(&mut self) -> (result: Result<(), Error>)
        requires
            old(self).wf(),
        ensures
            final(self).wf(),
            old(self).stream().items.len() > 0 ==> iterator::stepped(
                old(self).stream(),
                result,
                final(self).stream(),
            ),
            old(self).stream().items.len() == 0 ==> result is Ok && final(self).stream() == old(
                self,
            ).stream(),
            result is Err ==> final(self).stream().items.len() == 0,
    {
        self.inner.advance()
    }

    /// The current entry, behind which the iterator goes on. There is none at the end and
    /// at a deleted key, where the iterator stays.
    pub fn next(&mut self) -> (entry: Option<Result<(Vec<u8>, Vec<u8>), Error>>)
        requires
            old(self).wf(),
        ensures
            match entry {
                None => {
                    &&& old(self).stream().items.len() == 0 || old(self).stream().head().value
                        is None
                    &&& final(self).stream() == old(self).stream()
                    &&& final(self).wf()
                },
                Some(Ok((key, value))) => {
                    &&& old(self).stream().items.len() > 0
                    &&& key@ == old(self).stream().head().key.data
                    &&& old(self).stream().head().value == Some(value@)
                    &&& iterator::stepped(old(self).stream(), Ok(()), final(self).stream())
                    &&& final(self).wf()
                },
                Some(Err(e)) => {
                    &&& old(self).stream().items.len() > 0
                    &&& old(self).stream().head().value is Some
                    &&& iterator::stepped(old(self).stream(), Err(e), final(self).stream())
                    &&& final(self).stream().items.len() == 0
                    &&& final(self).wf()
                },
            },
    {
        let (key, value) = match (self.inner.key(), self.inner.value()) {
            (Some(key), Some(value)) => (
                codec::copy_bytes(key),
                codec::copy_bytes(value.as_slice()),
            ),
            _ => {
                return None;
            },
        };
        match self.inner.advance() {
            Ok(()) => Some(Ok((key, value))),
            Err(e) => Some(Err(e)),
        }
    }
}

} // verus!
