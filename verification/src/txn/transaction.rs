//! Transactions: what they wrote and read, and the manager that validates them.

use crate::common::byte_map::ByteMap;
use crate::common::codec;
use crate::common::error::{Error, Fault};
use crate::common::listing;
use std::collections::HashSet;
use vstd::prelude::*;

verus! {

broadcast use vstd::std_specs::hash::group_hash_axioms;

#[derive(Debug, Clone, Copy, PartialEq, Eq, Structural)]
pub enum IsolationLevel {
    Snapshot,
    Serializable,
    SerializableReadOnly,
    SerializableDeferrable,
}

impl IsolationLevel {
    pub fn is_serializable(self) -> (result: bool)
        ensures
            result == (self != IsolationLevel::Snapshot),
    {
        match self {
            IsolationLevel::Snapshot => false,
            IsolationLevel::Serializable
            | IsolationLevel::SerializableReadOnly
            | IsolationLevel::SerializableDeferrable => true,
        }
    }

    pub fn is_read_only(self) -> (result: bool)
        ensures
            result == (self == IsolationLevel::SerializableReadOnly || self
                == IsolationLevel::SerializableDeferrable),
    {
        match self {
            IsolationLevel::Snapshot | IsolationLevel::Serializable => false,
            IsolationLevel::SerializableReadOnly | IsolationLevel::SerializableDeferrable => true,
        }
    }

    pub fn is_deferrable(self) -> (result: bool)
        ensures
            result == (self == IsolationLevel::SerializableDeferrable),
    {
        self == IsolationLevel::SerializableDeferrable
    }
}

#[derive(Debug, Clone, Copy, PartialEq, Eq, Structural)]
pub enum TransactionState {
    Active,
    Committed,
    Aborted,
}

/// What a transaction wants to write: values, and keys that are to be deleted.
pub struct WriteSet {
    puts: ByteMap<Vec<u8>>,
    deletes: ByteMap<()>,
}

/// The same as a mathematical value.
#[verifier::ext_equal]
pub struct WritesView {
    pub puts: Map<Seq<u8>, Seq<u8>>,
    pub deletes: Set<Seq<u8>>,
}

impl WritesView {
    pub open spec fn none() -> WritesView {
        WritesView { puts: Map::empty(), deletes: Set::empty() }
    }

    pub open spec fn put(self, key: Seq<u8>, value: Seq<u8>) -> WritesView {
        WritesView { puts: self.puts.insert(key, value), deletes: self.deletes.remove(key) }
    }

    pub open spec fn delete(self, key: Seq<u8>) -> WritesView {
        WritesView { puts: self.puts.remove(key), deletes: self.deletes.insert(key) }
    }

    /// What the writes say of a key: nothing, that it is deleted, or its value.
    pub open spec fn get(self, key: Seq<u8>) -> Option<Option<Seq<u8>>> {
        if self.deletes.contains(key) {
            Some(None)
        } else if self.puts.contains_key(key) {
            Some(Some(self.puts[key]))
        } else {
            None
        }
    }

    /// The keys that are written.
    pub open spec fn keys(self) -> Set<Seq<u8>> {
        self.puts.dom().union(self.deletes)
    }
}

impl View for WriteSet {
    type V = WritesView;

    closed spec fn view(&self) -> WritesView {
        WritesView {
            puts: self.puts@.map_values(|v: Vec<u8>| v@),
            deletes: self.deletes@.dom(),
        }
    }
}

/// `list` holds each pair of the map once.
pub open spec fn lists_pairs(list: Seq<(&[u8], &[u8])>, map: Map<Seq<u8>, Seq<u8>>) -> bool {
    &&& forall|i: int|
        0 <= i < list.len() ==> map.contains_key((#[trigger] list[i]).0@) && map[list[i].0@]
            == list[i].1@
    &&& forall|i: int, j: int|
        0 <= i < j < list.len() ==> (#[trigger] list[i]).0@ != (#[trigger] list[j]).0@
    &&& forall|key: Seq<u8>| #[trigger]
        map.contains_key(key) ==> exists|i: int| 0 <= i < list.len() && (#[trigger] list[i]).0@ == key
}

/// `list` holds each key of the set once.
pub open spec fn lists_members(list: Seq<&[u8]>, set: Set<Seq<u8>>) -> bool {
    &&& forall|i: int| 0 <= i < list.len() ==> set.contains((#[trigger] list[i])@)
    &&& forall|i: int, j: int|
        0 <= i < j < list.len() ==> (#[trigger] list[i])@ != (#[trigger] list[j])@
    &&& forall|key: Seq<u8>| #[trigger]
        set.contains(key) ==> exists|i: int| 0 <= i < list.len() && (#[trigger] list[i])@ == key
}

impl WriteSet {
    pub closed spec fn wf(&self) -> bool {
        self.puts.wf() && self.deletes.wf()
    }

    pub fn new() -> (set: Self)
        ensures
            set.wf(),
            set@ == WritesView::none(),
    {
        let set = WriteSet { puts: ByteMap::new(), deletes: ByteMap::new() };
        assert(set@ =~= WritesView::none());
        set
    }

    pub fn put(&mut self, key: Vec<u8>, value: Vec<u8>)
        requires
            old(self).wf(),
        ensures
            final(self).wf(),
            final(self)@ == old(self)@.put(key@, value@),
    {
        let ghost before = self@;
        self.deletes.remove(key.as_slice());
        self.puts.insert(key, value);
        assert(self@ =~= before.put(key@, value@));
    }

    pub fn delete(&mut self, key: Vec<u8>)
        requires
            old(self).wf(),
        ensures
            final(self).wf(),
            final(self)@ == old(self)@.delete(key@),
    {
        let ghost before = self@;
        self.puts.remove(key.as_slice());
        self.deletes.insert(key, ());
        assert(self@ =~= before.delete(key@));
    }

    /// What the writes say of a key: nothing, that it is deleted, or its value.
    pub fn get(&self, key: &[u8]) -> (value: Option<Option<&Vec<u8>>>)
        requires
            self.wf(),
        ensures
            self@.get(key@) == (match value {
                None => None,
                Some(None) => Some(None),
                Some(Some(v)) => Some(Some(v@)),
            }),
    {
        if self.deletes.contains_key(key) {
            return Some(None);
        }
        match self.puts.get(key) {
            Some(value) => Some(Some(value)),
            None => None,
        }
    }

    /// The keys that are put, with their values.
    pub fn iter_puts(&self) -> (list: Vec<(&[u8], &[u8])>)
        requires
            self.wf(),
        ensures
            lists_pairs(list@, self@.puts),
    {
        let mut list: Vec<(&[u8], &[u8])> = Vec::new();
        let n: usize = self.puts.len();
        let mut i: usize = 0;
        while i < n
            invariant
                self.wf(),
                n == self.puts.order().len(),
                i <= n,
                list@.len() == i,
                forall|k: int|
                    0 <= k < i ==> (#[trigger] list@[k]).0@ == self.puts.order()[k]
                        && self.puts@.contains_key(list@[k].0@) && list@[k].1@
                        == self.puts@[list@[k].0@]@,
            decreases n - i,
        {
            list.push((self.puts.key_at(i), self.puts.value_at(i).as_slice()));
            i += 1;
        }
        proof {
            let order = self.puts.order();
            self.puts.lemma_order();
            assert forall|a: int, b: int| 0 <= a < b < list@.len() implies (
            #[trigger] list@[a]).0@ != (#[trigger] list@[b]).0@ by {
                assert(order[a] != order[b]);
            }
            assert forall|key: Seq<u8>| #[trigger] self@.puts.contains_key(key) implies exists|a: int|
                0 <= a < list@.len() && (#[trigger] list@[a]).0@ == key by {
                assert(self.puts@.contains_key(key));
                let a = choose|a: int| 0 <= a < order.len() && order[a] == key;
                assert(list@[a].0@ == key);
            }
        }
        list
    }

    /// The keys that are deleted.
    pub fn iter_deletes(&self) -> (list: Vec<&[u8]>)
        requires
            self.wf(),
        ensures
            lists_members(list@, self@.deletes),
    {
        let mut list: Vec<&[u8]> = Vec::new();
        let n: usize = self.deletes.len();
        let mut i: usize = 0;
        while i < n
            invariant
                self.wf(),
                n == self.deletes.order().len(),
                i <= n,
                list@.len() == i,
                forall|k: int|
                    0 <= k < i ==> (#[trigger] list@[k])@ == self.deletes.order()[k]
                        && self.deletes@.contains_key(list@[k]@),
            decreases n - i,
        {
            list.push(self.deletes.key_at(i));
            i += 1;
        }
        proof {
            let order = self.deletes.order();
            self.deletes.lemma_order();
            assert forall|a: int, b: int| 0 <= a < b < list@.len() implies (
            #[trigger] list@[a])@ != (#[trigger] list@[b])@ by {
                assert(order[a] != order[b]);
            }
            assert forall|key: Seq<u8>| #[trigger] self@.deletes.contains(key) implies exists|a: int|
                0 <= a < list@.len() && (#[trigger] list@[a])@ == key by {
                assert(self.deletes@.contains_key(key));
                let a = choose|a: int| 0 <= a < order.len() && order[a] == key;
                assert(list@[a]@ == key);
            }
        }
        list
    }

    /// The keys that are written.
    fn write_keys(&self) -> (keys: ByteMap<()>)
        requires
            self.wf(),
        ensures
            keys.wf(),
            keys@.dom() == self@.keys(),
    {
        let mut keys: ByteMap<()> = ByteMap::new();
        let puts = self.iter_puts();
        let mut i: usize = 0;
        while i < puts.len()
            invariant
                i <= puts@.len(),
                keys.wf(),
                forall|k: int| 0 <= k < i ==> keys@.contains_key((#[trigger] puts@[k]).0@),
                lists_pairs(puts@, self@.puts),
                forall|key: Seq<u8>| #[trigger]
                    keys@.contains_key(key) ==> self@.puts.contains_key(key),
            decreases puts@.len() - i,
        {
            keys.insert(codec::copy_bytes(puts[i].0), ());
            i += 1;
        }
        let deletes = self.iter_deletes();
        let mut j: usize = 0;
        proof {
            assert forall|key: Seq<u8>| #[trigger] self@.puts.contains_key(
                key,
            ) implies keys@.contains_key(key) by {
                let k = choose|k: int| 0 <= k < puts@.len() && (#[trigger] puts@[k]).0@ == key;
                assert(keys@.contains_key(puts@[k].0@));
            }
        }
        while j < deletes.len()
            invariant
                j <= deletes@.len(),
                keys.wf(),
                forall|k: int| 0 <= k < j ==> keys@.contains_key((#[trigger] deletes@[k])@),
                lists_members(deletes@, self@.deletes),
                forall|key: Seq<u8>| #[trigger]
                    self@.puts.contains_key(key) ==> keys@.contains_key(key),
                forall|key: Seq<u8>| #[trigger]
                    keys@.contains_key(key) ==> self@.keys().contains(key),
            decreases deletes@.len() - j,
        {
            keys.insert(codec::copy_bytes(deletes[j]), ());
            j += 1;
        }
        proof {
            assert forall|key: Seq<u8>| #[trigger] self@.deletes.contains(
                key,
            ) implies keys@.contains_key(key) by {
                let k = choose|k: int| 0 <= k < deletes@.len() && (#[trigger] deletes@[k])@ == key;
                assert(keys@.contains_key(deletes@[k]@));
            }
            assert(keys@.dom() =~= self@.keys());
        }
        keys
    }
}

pub struct Transaction {
    pub id: u64,
    pub start_ts: u64,
    pub commit_ts: Option<u64>,
    pub isolation: IsolationLevel,
    pub state: TransactionState,
    pub write_set: WriteSet,
    read_set: ByteMap<()>,
}

/// A transaction as a mathematical value.
#[verifier::ext_equal]
pub struct TxnView {
    pub id: u64,
    pub start_ts: u64,
    pub commit_ts: Option<u64>,
    pub isolation: IsolationLevel,
    pub state: TransactionState,
    pub writes: WritesView,
    pub reads: Set<Seq<u8>>,
}

impl TxnView {
    /// A transaction that has begun.
    pub open spec fn begun(id: u64, start_ts: u64, isolation: IsolationLevel) -> TxnView {
        TxnView {
            id,
            start_ts,
            commit_ts: None,
            isolation,
            state: TransactionState::Active,
            writes: WritesView::none(),
            reads: Set::empty(),
        }
    }

    /// The transaction with a key that it read, which counts only where reads are
    /// validated.
    pub open spec fn with_read(self, key: Seq<u8>) -> TxnView {
        if self.isolation == IsolationLevel::Serializable {
            TxnView { reads: self.reads.insert(key), ..self }
        } else {
            self
        }
    }
}

impl View for Transaction {
    type V = TxnView;

    closed spec fn view(&self) -> TxnView {
        TxnView {
            id: self.id,
            start_ts: self.start_ts,
            commit_ts: self.commit_ts,
            isolation: self.isolation,
            state: self.state,
            writes: self.write_set@,
            reads: self.read_set@.dom(),
        }
    }
}

impl Transaction {
    pub closed spec fn wf(&self) -> bool {
        self.write_set.wf() && self.read_set.wf()
    }

    pub fn new(id: u64, start_ts: u64, isolation: IsolationLevel) -> (txn: Self)
        ensures
            txn.wf(),
            txn@ == TxnView::begun(id, start_ts, isolation),
    {
        let txn = Transaction {
            id,
            start_ts,
            commit_ts: None,
            isolation,
            state: TransactionState::Active,
            write_set: WriteSet::new(),
            read_set: ByteMap::new(),
        };
        assert(txn@ =~= TxnView::begun(id, start_ts, isolation));
        txn
    }

    /// Notes that a key was read, where reads are validated.
    pub fn record_read(&mut self, key: Vec<u8>)
        requires
            old(self).wf(),
        ensures
            final(self).wf(),
            final(self)@ == old(self)@.with_read(key@),
    {
        let ghost before = self@;
        if self.isolation.is_serializable() && !self.isolation.is_read_only() {
            self.read_set.insert(key, ());
        }
        assert(self@ =~= before.with_read(key@));
    }

    /// Notes that a key is to be put.
    pub fn put(&mut self, key: Vec<u8>, value: Vec<u8>)
        requires
            old(self).wf(),
        ensures
            final(self).wf(),
            final(self)@ == (TxnView {
                writes: old(self)@.writes.put(key@, value@),
                ..old(self)@
            }),
    {
        self.write_set.put(key, value);
    }

    /// Notes that a key is to be deleted.
    pub fn delete(&mut self, key: Vec<u8>)
        requires
            old(self).wf(),
        ensures
            final(self).wf(),
            final(self)@ == (TxnView { writes: old(self)@.writes.delete(key@), ..old(self)@ }),
    {
        self.write_set.delete(key);
    }

    /// What the transaction wrote itself under a key, if anything.
    pub fn local_value(&self, key: &[u8]) -> (value: Option<Option<Vec<u8>>>)
        requires
            self.wf(),
        ensures
            self@.writes.get(key@) == (match value {
                None => None,
                Some(None) => Some(None),
                Some(Some(v)) => Some(Some(v@)),
            }),
    {
        match self.write_set.get(key) {
            None => None,
            Some(None) => Some(None),
            Some(Some(value)) => Some(Some(codec::copy_bytes(value.as_slice()))),
        }
    }

    /// The number, the start and the isolation level.
    pub fn header(&self) -> (header: (u64, u64, IsolationLevel))
        ensures
            header == (self@.id, self@.start_ts, self@.isolation),
    {
        (self.id, self.start_ts, self.isolation)
    }

    /// What the transaction wants to write.
    pub fn write_list(&self) -> (writes: &WriteSet)
        requires
            self.wf(),
        ensures
            writes.wf(),
            writes@ == self@.writes,
    {
        &self.write_set
    }

    /// The keys that were read.
    pub fn read_set(&self) -> (keys: &ByteMap<()>)
        requires
            self.wf(),
        ensures
            keys.wf(),
            keys@.dom() == self@.reads,
    {
        &self.read_set
    }

    pub fn is_active(&self) -> (active: bool)
        ensures
            active == (self@.state == TransactionState::Active),
    {
        self.state == TransactionState::Active
    }
}

/// A transaction that was committed: when, when it had begun, and what it wrote.
struct CommittedTransaction {
    commit_ts: u64,
    start_ts: u64,
    write_keys: ByteMap<()>,
}

/// The same as a mathematical value.
#[verifier::ext_equal]
pub struct CommitView {
    pub commit_ts: u64,
    pub start_ts: u64,
    pub keys: Set<Seq<u8>>,
}

impl View for CommittedTransaction {
    type V = CommitView;

    closed spec fn view(&self) -> CommitView {
        CommitView {
            commit_ts: self.commit_ts,
            start_ts: self.start_ts,
            keys: self.write_keys@.dom(),
        }
    }
}

/// The state of the manager.
#[verifier::ext_equal]
pub struct ManagerView {
    pub active: Set<u64>,
    pub committed: Seq<CommitView>,
}

impl CommitView {
    /// The commit overlaps a transaction that is to be committed at `commit_ts`, and wrote
    /// what that one read.
    pub open spec fn disturbs(self, t: TxnView, commit_ts: u64) -> bool {
        &&& self.commit_ts > t.start_ts
        &&& self.start_ts < commit_ts
        &&& exists|key: Seq<u8>| #[trigger] t.reads.contains(key) && self.keys.contains(key)
    }
}

impl ManagerView {
    /// Some commit disturbs the transaction.
    pub open spec fn disturbed(self, t: TxnView, commit_ts: u64) -> bool {
        exists|i: int|
            0 <= i < self.committed.len() && (#[trigger] self.committed[i]).disturbs(t, commit_ts)
    }

    /// What preparing a transaction for its commit comes to.
    pub open spec fn prepared(self, t: TxnView, commit_ts: u64) -> (TxnView, Option<Fault>) {
        if t.isolation == IsolationLevel::Serializable && self.disturbed(t, commit_ts) {
            (t, Some(Fault::TransactionConflict))
        } else {
            (TxnView { commit_ts: Some(commit_ts), ..t }, None)
        }
    }

    /// What committing a transaction comes to, once it is prepared.
    pub open spec fn committing(self, t: TxnView) -> (ManagerView, TxnView, Option<Fault>) {
        match t.commit_ts {
            Some(commit_ts) if t.state == TransactionState::Active => {
                (
                    ManagerView {
                        active: self.active.remove(t.id),
                        committed: self.committed.push(
                            CommitView { commit_ts, start_ts: t.start_ts, keys: t.writes.keys() },
                        ),
                    },
                    TxnView { state: TransactionState::Committed, ..t },
                    None,
                )
            },
            _ => (self, t, Some(Fault::TransactionAborted)),
        }
    }
}

pub open spec fn fault_of<T>(result: Result<T, Error>) -> Option<Fault> {
    match result {
        Ok(_) => None,
        Err(e) => Some(e@),
    }
}

pub struct TransactionManager {
    active_txns: HashSet<u64>,
    committed_txns: Vec<CommittedTransaction>,
}

impl View for TransactionManager {
    type V = ManagerView;

    closed spec fn view(&self) -> ManagerView {
        ManagerView {
            active: self.active_txns@,
            committed: self.committed_txns@.map_values(|c: CommittedTransaction| c@),
        }
    }
}

impl TransactionManager {
    pub closed spec fn wf(&self) -> bool {
        forall|i: int|
            0 <= i < self.committed_txns@.len() ==> (
            #[trigger] self.committed_txns@[i]).write_keys.wf()
    }

    pub fn new() -> (manager: Self)
        ensures
            manager.wf(),
            manager@ == (ManagerView { active: Set::empty(), committed: Seq::empty() }),
    {
        let manager = TransactionManager {
            active_txns: HashSet::new(),
            committed_txns: Vec::new(),
        };
        assert(manager@ =~= ManagerView { active: Set::empty(), committed: Seq::empty() });
        manager
    }

    pub fn begin(&mut self, id: u64, start_ts: u64, isolation: IsolationLevel) -> (txn: Transaction)
        requires
            old(self).wf(),
        ensures
            final(self).wf(),
            final(self)@ == (ManagerView { active: old(self)@.active.insert(id), ..old(self)@ }),
            txn.wf(),
            txn@ == TxnView::begun(id, start_ts, isolation),
    {
        self.active_txns.insert(id);
        Transaction::new(id, start_ts, isolation)
    }

    /// Validates a transaction and fixes the time of its commit.
    pub fn prepare_commit(&self, txn: &mut Transaction, commit_ts: u64) -> (result: Result<
        (),
        Error,
    >)
        requires
            self.wf(),
            old(txn).wf(),
        ensures
            final(txn).wf(),
            (final(txn)@, fault_of(result)) == self@.prepared(old(txn)@, commit_ts),
    {
        if txn.isolation == IsolationLevel::Serializable {
            self.validate_serializable(txn, commit_ts)?;
        }
        txn.commit_ts = Some(commit_ts);
        Ok(())
    }

    pub fn is_read_only_txn(&self, txn: &Transaction) -> (result: bool)
        ensures
            result == (txn@.isolation == IsolationLevel::SerializableReadOnly || txn@.isolation
                == IsolationLevel::SerializableDeferrable),
    {
        txn.isolation.is_read_only()
    }

    fn validate_serializable(&self, txn: &Transaction, commit_ts: u64) -> (result: Result<
        (),
        Error,
    >)
        requires
            self.wf(),
            txn.wf(),
        ensures
            fault_of(result) == (if self@.disturbed(txn@, commit_ts) {
                Some(Fault::TransactionConflict)
            } else {
                None
            }),
    {
        let mut i: usize = 0;
        while i < self.committed_txns.len()
            invariant
                self.wf(),
                txn.wf(),
                i <= self.committed_txns@.len(),
                forall|k: int|
                    0 <= k < i ==> !(#[trigger] self@.committed[k]).disturbs(txn@, commit_ts),
            decreases self.committed_txns@.len() - i,
        {
            let other = &self.committed_txns[i];
            assert(self@.committed[i as int] == other@);
            if other.commit_ts > txn.start_ts && other.start_ts < commit_ts && shares_key(
                txn.read_set(),
                &other.write_keys,
            ) {
                return Err(Error::TransactionConflict);
            }
            i += 1;
        }
        Ok(())
    }

    /// Commits a transaction that is active and prepared.
    pub fn commit(&mut self, txn: &mut Transaction) -> (result: Result<(), Error>)
        requires
            old(self).wf(),
            old(txn).wf(),
        ensures
            final(self).wf(),
            final(txn).wf(),
            (final(self)@, final(txn)@, fault_of(result)) == old(self)@.committing(old(txn)@),
    {
        if !txn.is_active() {
            return Err(Error::TransactionAborted);
        }
        let write_keys = txn.write_set.write_keys();
        let commit_ts: u64 = match txn.commit_ts {
            Some(ts) => ts,
            None => {
                return Err(Error::TransactionAborted);
            },
        };
        let ghost before = self@;
        let commit = CommittedTransaction { commit_ts, start_ts: txn.start_ts, write_keys };
        let ghost c = commit@;
        self.committed_txns.push(commit);
        txn.state = TransactionState::Committed;
        self.active_txns.remove(&txn.id);
        assert(self@ =~= ManagerView {
            active: before.active.remove(txn.id),
            committed: before.committed.push(c),
        });
        Ok(())
    }

    /// Gives a transaction up.
    pub fn abort(&mut self, txn: &mut Transaction)
        requires
            old(self).wf(),
            old(txn).wf(),
        ensures
            final(self).wf(),
            final(txn).wf(),
            final(txn)@ == (TxnView { state: TransactionState::Aborted, ..old(txn)@ }),
            final(self)@ == (ManagerView {
                active: old(self)@.active.remove(old(txn)@.id),
                ..old(self)@
            }),
    {
        txn.state = TransactionState::Aborted;
        self.active_txns.remove(&txn.id);
    }

    /// Forgets the commits that are not behind the watermark.
    pub fn gc(&mut self, watermark: u64)
        requires
            old(self).wf(),
        ensures
            final(self).wf(),
            final(self)@ == (ManagerView {
                committed: old(self)@.committed.filter(|c: CommitView| c.commit_ts > watermark),
                ..old(self)@
            }),
            forall|t: TxnView, commit_ts: u64|
                t.start_ts >= watermark ==> (#[trigger] final(self)@.disturbed(t, commit_ts)
                    <==> old(self)@.disturbed(t, commit_ts)),
            forall|i: int|
                0 <= i < final(self)@.committed.len() ==> (
                #[trigger] final(self)@.committed[i]).commit_ts > watermark,
    {
        let mut commits: Vec<CommittedTransaction> = Vec::new();
        std::mem::swap(&mut commits, &mut self.committed_txns);
        let count: usize = commits.len();
        let ghost all = commits@.map_values(|c: CommittedTransaction| c@);
        let ghost keep = |c: CommitView| c.commit_ts > watermark;
        assert(all.take(0) =~= Seq::empty());
        assert(self@.committed =~= all.take(0).filter(keep)) by {
            reveal(Seq::filter);
        }
        let mut i: usize = 0;
        for commit in iter: commits
            invariant
                self.wf(),
                count == all.len(),
                iter.seq().len() == all.len(),
                forall|k: int|
                    0 <= k < all.len() ==> (#[trigger] iter.seq()[k])@ == all[k]
                        && iter.seq()[k].write_keys.wf(),
                i == iter.index(),
                self@.active == old(self)@.active,
                self@.committed == all.take(i as int).filter(keep),
                keep == |c: CommitView| c.commit_ts > watermark,
        {
            let ghost k = i as int;
            let ghost before = self@.committed;
            proof {
                assert(all.take(k + 1).drop_last() =~= all.take(k));
                reveal(Seq::filter);
            }
            if commit.commit_ts > watermark {
                self.committed_txns.push(commit);
                assert(self@.committed =~= before.push(all[k]));
            }
            i += 1;
        }
        assert(all.take(all.len() as int) =~= all);
        proof {
            let kept = all.filter(keep);
            assert forall|i: int| 0 <= i < kept.len() implies (
            #[trigger] kept[i]).commit_ts > watermark by {
                listing::lemma_kept(all, keep, kept[i]);
            }
            assert forall|t: TxnView, commit_ts: u64| t.start_ts >= watermark implies (
            #[trigger] self@.disturbed(t, commit_ts) <==> old(self)@.disturbed(t, commit_ts)) by {
                if self@.disturbed(t, commit_ts) {
                    let i = choose|i: int|
                        0 <= i < kept.len() && (#[trigger] kept[i]).disturbs(t, commit_ts);
                    listing::lemma_kept(all, keep, kept[i]);
                    let j = choose|j: int| 0 <= j < all.len() && all[j] == kept[i];
                    assert(old(self)@.committed[j].disturbs(t, commit_ts));
                }
                if old(self)@.disturbed(t, commit_ts) {
                    let j = choose|j: int|
                        0 <= j < all.len() && (#[trigger] all[j]).disturbs(t, commit_ts);
                    listing::lemma_kept(all, keep, all[j]);
                    let i = choose|i: int| 0 <= i < kept.len() && kept[i] == all[j];
                    assert(self@.committed[i].disturbs(t, commit_ts));
                }
            }
        }
    }
}

impl Default for TransactionManager {
    fn default() -> (manager: Self)
        ensures
            manager.wf(),
            manager@ == (ManagerView { active: Set::empty(), committed: Seq::empty() }),
    {
        Self::new()
    }
}

/// Whether a key of `a` is also one of `b`.
fn shares_key(a: &ByteMap<()>, b: &ByteMap<()>) -> (result: bool)
    requires
        a.wf(),
        b.wf(),
    ensures
        result == exists|key: Seq<u8>| #[trigger]
            a@.dom().contains(key) && b@.dom().contains(key),
{
    let n: usize = a.len();
    let mut i: usize = 0;
    while i < n
        invariant
            a.wf(),
            b.wf(),
            n == a.order().len(),
            i <= n,
            forall|k: int| 0 <= k < i ==> !b@.contains_key(#[trigger] a.order()[k]),
        decreases n - i,
    {
        let key = a.key_at(i);
        if b.contains_key(key) {
            assert(a@.dom().contains(key@));
            return true;
        }
        i += 1;
    }
    proof {
        a.lemma_order();
        assert forall|key: Seq<u8>| #[trigger] a@.dom().contains(key) implies !b@.dom().contains(
            key,
        ) by {
            assert(a@.contains_key(key));
            let k = choose|k: int| 0 <= k < a.order().len() && a.order()[k] == key;
            assert(!b@.contains_key(a.order()[k]));
        }
    }
    false
}

/// A key that is written is read back from the write set, and so is a deletion; of the
/// other keys it says what it said.
pub proof fn lemma_own_writes_are_read(w: WritesView, key: Seq<u8>, value: Seq<u8>, other: Seq<u8>)
    ensures
        w.put(key, value).get(key) == Some(Some(value)),
        w.delete(key).get(key) == Some(None::<Seq<u8>>),
        other != key ==> w.put(key, value).get(other) == w.get(other),
        other != key ==> w.delete(key).get(other) == w.get(other),
{
}

/// No key is both put and deleted, whatever is written.
pub proof fn lemma_puts_and_deletes_are_apart(w: WritesView, key: Seq<u8>, value: Seq<u8>)
    requires
        w.puts.dom().disjoint(w.deletes),
    ensures
        w.put(key, value).puts.dom().disjoint(w.put(key, value).deletes),
        w.delete(key).puts.dom().disjoint(w.delete(key).deletes),
{
}

/// A serialisable transaction is refused if a commit that overlaps it wrote a key that it
/// read.
pub proof fn lemma_overwritten_read_is_refused(
    m: ManagerView,
    t: TxnView,
    commit_ts: u64,
    i: int,
    key: Seq<u8>,
)
    requires
        t.isolation == IsolationLevel::Serializable,
        0 <= i < m.committed.len(),
        m.committed[i].commit_ts > t.start_ts,
        m.committed[i].start_ts < commit_ts,
        m.committed[i].keys.contains(key),
        t.reads.contains(key),
    ensures
        m.prepared(t, commit_ts) == (t, Some(Fault::TransactionConflict)),
{
    assert(m.committed[i].disturbs(t, commit_ts));
}

/// A transaction that is not active any more cannot be committed.
pub proof fn lemma_finished_is_not_committed(m: ManagerView, t: TxnView)
    requires
        t.state != TransactionState::Active,
    ensures
        m.committing(t) == (m, t, Some(Fault::TransactionAborted)),
{
}

} // verus!
