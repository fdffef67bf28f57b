//! What holds of transactions from one operation to the next.

use crate::common::error::{Error, Fault};
use crate::lock::lock_laws;
use crate::lock::lock_mode::LockMode;
use crate::lock::lock_table::KeyStep;
use crate::lock::ssi;
use crate::lock::ssi::SsiView;
use crate::storage::batch::OperationView;
use crate::storage::lsm::{EffectView, LsmView};
use crate::storage::lsm_laws;
use crate::storage::manifest::MAX_ID;
use crate::storage::size_laws;
use crate::txn::mvcc;
use crate::txn::mvcc::{EngineView, WriteStep};
use crate::txn::transaction::{IsolationLevel, TransactionState, TxnView, WritesView};
use vstd::prelude::*;

verus! {

/// A transaction reads what it wrote itself: behind a write of a key, a read of the key
/// gives what was written, and of the other keys what it gave before.
pub proof fn lemma_own_writes_are_read(
    s: EngineView,
    t: TxnView,
    op: OperationView,
    key: Seq<u8>,
    after: EngineView,
    t_after: TxnView,
    answer: Result<Option<Seq<u8>>, Fault>,
)
    requires
        s.read(t.with_write(op), key, after, t_after, answer),
    ensures
        key == op.key ==> answer == Ok::<Option<Seq<u8>>, Fault>(op.value),
        key != op.key && t.writes.get(key) is Some ==> answer == Ok::<Option<Seq<u8>>, Fault>(
            t.writes.get(key)->0,
        ),
        key != op.key && t.writes.get(key) is None ==> s.storage.reads(key, t.start_ts, answer),
{
}

/// Nothing that a transaction does before its commit reaches the tree, so nobody else
/// reads it: neither its reads and writes nor giving it up changes the tree.
pub proof fn lemma_uncommitted_is_invisible(
    s: EngineView,
    t: TxnView,
    op: OperationView,
    key: Seq<u8>,
    after: EngineView,
    t_after: TxnView,
)
    ensures
        forall|result: Result<WriteStep, Error>| #[trigger]
            s.wrote(t, op, after, t_after, result) ==> after.storage == s.storage,
        forall|answer: Result<Option<Seq<u8>>, Fault>| #[trigger]
            s.read(t, key, after, t_after, answer) ==> after.storage == s.storage,
        s.aborted(t).0.storage == s.storage,
        forall|isolation: IsolationLevel|
            (#[trigger] s.begun(isolation)).0.storage == s.storage,
{
}

/// A transaction that was given up has no locks, is not active and can not be committed:
/// a commit of it fails.
pub proof fn lemma_aborted_stays_aborted(
    s: EngineView,
    t: TxnView,
    after: EngineView,
    t_after: TxnView,
    effects: Seq<EffectView>,
    fault: Option<Fault>,
)
    requires
        s.aborted(t).0.committed(s.aborted(t).1, after, t_after, effects, fault),
    ensures
        fault is Some,
        !s.aborted(t).0.manager.active.contains(t.id),
        forall|key: Seq<u8>|
            !(#[trigger] s.aborted(t).0.locks.entry(key)).holders.contains_key(t.id),
{
    lock_laws::lemma_release_frees(s.locks, t.id);
    let quit = s.aborted(t).0;
    assert forall|key: Seq<u8>|
        !(#[trigger] quit.locks.entry(key)).holders.contains_key(t.id) by {
        assert(!s.locks.released(t.id).entry(key).holders.contains_key(t.id));
    }
}

/// Once a commit has succeeded the transaction holds no lock any more.
pub proof fn lemma_commit_releases(
    s: EngineView,
    t: TxnView,
    after: EngineView,
    t_after: TxnView,
    effects: Seq<EffectView>,
)
    requires
        s.committed(t, after, t_after, effects, None),
    ensures
        t_after.state == TransactionState::Committed,
        after.locks == s.locks.released(t.id),
        forall|key: Seq<u8>| !(#[trigger] after.locks.entry(key)).holders.contains_key(t.id),
{
    lock_laws::lemma_release_frees(s.locks, t.id);
    assert forall|key: Seq<u8>|
        !(#[trigger] after.locks.entry(key)).holders.contains_key(t.id) by {
        assert(!s.locks.released(t.id).entry(key).holders.contains_key(t.id));
    }
}

/// Two transactions do not write the same key at the same time: while one has written it
/// and is not finished, a write of it by another is not done.
pub proof fn lemma_writers_exclude_each_other(
    s: EngineView,
    holder: u64,
    t: TxnView,
    op: OperationView,
    after: EngineView,
    t_after: TxnView,
    result: Result<WriteStep, Error>,
)
    requires
        s.locks.exclusive(),
        s.locks.entry(op.key).holders.contains_key(holder),
        s.locks.entry(op.key).holders[holder] == LockMode::X,
        t.id != holder,
        s.wrote(t, op, after, t_after, result),
    ensures
        result != Ok::<WriteStep, Error>(WriteStep::Done),
        t_after == t,
{
    let step = match result {
        Ok(WriteStep::Done) => KeyStep::Granted,
        Ok(WriteStep::Wait(p)) => KeyStep::Wait(p.waiting),
        Err(_) => KeyStep::Failed(crate::lock::lock_error::LockError::RangeConflict),
    };
    lock_laws::lemma_exclusive_lock_blocks(
        s.locks,
        holder,
        t.id,
        op.key,
        LockMode::X,
        after.locks,
        step,
    );
}

/// A serialisable transaction is not committed if another one that was committed since it
/// began wrote a key that it read.
pub proof fn lemma_write_skew_is_refused(
    s: EngineView,
    t: TxnView,
    ts: u64,
    key: Seq<u8>,
    after: EngineView,
    t_after: TxnView,
    effects: Seq<EffectView>,
    fault: Option<Fault>,
)
    requires
        t.isolation == IsolationLevel::Serializable,
        s.ssi.committed.contains_key(ts),
        t.start_ts < ts < s.storage.next_ts,
        s.ssi.committed[ts].contains(ssi::key_hash(key)),
        s.ssi.active[t.id].reads.contains(ssi::key_hash(key)),
        s.committed(t, after, t_after, effects, fault),
    ensures
        fault is Some,
        after.storage == s.storage,
        effects.len() == 0,
{
    let commit_ts = s.storage.next_ts;
    assert forall|after_ssi: SsiView, conflict: Option<Fault>| #[trigger]
        s.validated(t, commit_ts, after_ssi, conflict) implies conflict is Some by {
        let result = choose|result: Result<(), ssi::SSIConflict>| #[trigger]
            s.ssi.validated(t.id, t.start_ts, commit_ts, after_ssi, result) && conflict == (
            match result {
                Ok(()) => None::<Fault>,
                Err(c) => Some(mvcc::conflict_fault(c)),
            });
        ssi::lemma_write_skew_is_found(
            s.ssi,
            t.id,
            ts,
            key,
            t.start_ts,
            commit_ts,
            after_ssi,
            result,
        );
    }
}

/// No key is written twice.
pub open spec fn distinct_writes(ops: Seq<OperationView>) -> bool {
    forall|i: int, j: int|
        #![trigger ops[i], ops[j]]
        0 <= i < j < ops.len() ==> ops[i].key != ops[j].key
}

/// The last write of a key is its only one, where none is written twice.
proof fn lemma_last_on(ops: Seq<OperationView>, i: int)
    requires
        distinct_writes(ops),
        0 <= i < ops.len(),
    ensures
        lsm_laws::last_on(ops, ops[i].key) == Some(ops[i]),
    decreases ops.len(),
{
    if i < ops.len() - 1 {
        let shorter = ops.drop_last();
        assert(ops[i].key != ops[ops.len() - 1].key);
        assert(shorter[i] == ops[i]);
        assert(distinct_writes(shorter)) by {
            assert forall|a: int, b: int|
                #![trigger shorter[a], shorter[b]]
                0 <= a < b < shorter.len() implies shorter[a].key != shorter[b].key by {
                assert(ops[a].key != ops[b].key);
            }
        }
        lemma_last_on(shorter, i);
    }
}

proof fn lemma_not_on(ops: Seq<OperationView>, key: Seq<u8>)
    requires
        forall|i: int| 0 <= i < ops.len() ==> (#[trigger] ops[i]).key != key,
    ensures
        lsm_laws::last_on(ops, key) is None,
    decreases ops.len(),
{
    if ops.len() > 0 {
        let shorter = ops.drop_last();
        assert(ops[ops.len() - 1].key != key);
        assert forall|i: int| 0 <= i < shorter.len() implies (#[trigger] shorter[i]).key != key by {
            assert(ops[i].key != key);
        }
        lemma_not_on(shorter, key);
    }
}

/// However the writes of a transaction are listed, the last one on a key is what the
/// transaction wrote.
proof fn lemma_listed_writes(ops: Seq<OperationView>, w: WritesView, key: Seq<u8>)
    requires
        mvcc::lists_writes(ops, w),
        w.puts.dom().disjoint(w.deletes),
    ensures
        match w.get(key) {
            Some(v) => lsm_laws::last_on(ops, key) matches Some(op) && op.value == v,
            None => lsm_laws::last_on(ops, key) is None,
        },
{
    let (puts, deletes) = choose|puts: Seq<OperationView>, deletes: Seq<OperationView>|
        #![trigger puts.add(deletes)]
        ops == puts.add(deletes) && mvcc::lists_puts(puts, w.puts) && mvcc::lists_deletes(
            deletes,
            w.deletes,
        );
    let m = puts.len() as int;
    assert forall|i: int, j: int|
        #![trigger ops[i], ops[j]]
        0 <= i < j < ops.len() implies ops[i].key != ops[j].key by {
        if j < m {
            assert(puts[i] == ops[i] && puts[j] == ops[j]);
        } else if i >= m {
            assert(deletes[i - m] == ops[i] && deletes[j - m] == ops[j]);
        } else {
            assert(puts[i] == ops[i] && deletes[j - m] == ops[j]);
            assert(w.puts.dom().contains(ops[i].key));
            assert(w.deletes.contains(ops[j].key));
        }
    }
    if w.deletes.contains(key) {
        let i = choose|i: int| 0 <= i < deletes.len() && (#[trigger] deletes[i]).key == key;
        assert(ops[m + i] == deletes[i]);
        lemma_last_on(ops, m + i);
    } else if w.puts.contains_key(key) {
        let i = choose|i: int| 0 <= i < puts.len() && (#[trigger] puts[i]).key == key;
        assert(ops[i] == puts[i]);
        lemma_last_on(ops, i);
    } else {
        assert forall|i: int| 0 <= i < ops.len() implies (#[trigger] ops[i]).key != key by {
            if i < m {
                assert(puts[i] == ops[i]);
            } else {
                assert(deletes[i - m] == ops[i]);
            }
        }
        lemma_not_on(ops, key);
    }
}

/// There are timestamps for the writes of a transaction, and they are, with what is in
/// memory before them, not too many and not too long for a table.
pub open spec fn moderate(s: LsmView, w: WritesView) -> bool {
    let compression = s.options.compression;
    let count = w.puts.len() + w.deletes.len();
    &&& w.puts.dom().finite()
    &&& w.deletes.finite()
    &&& s.next_ts + count <= u64::MAX
    &&& size_laws::memory_moderate(compression, s.mem.entries, count)
    &&& forall|key: Seq<u8>| #[trigger]
        w.puts.contains_key(key) ==> size_laws::version_len(key, Some(w.puts[key]))
            <= size_laws::longest_entry(compression)
    &&& forall|key: Seq<u8>| #[trigger]
        w.deletes.contains(key) ==> key.len() <= size_laws::longest_entry(compression)
}

/// A list of writes on keys of a set, each key once, is no longer than the set.
proof fn lemma_distinct_writes(list: Seq<OperationView>, keys: Set<Seq<u8>>)
    requires
        keys.finite(),
        forall|i: int| 0 <= i < list.len() ==> keys.contains((#[trigger] list[i]).key),
        forall|i: int, j: int|
            0 <= i < j < list.len() ==> (#[trigger] list[i]).key != (#[trigger] list[j]).key,
    ensures
        list.len() <= keys.len(),
{
    let of = list.map_values(|op: OperationView| op.key);
    assert(of.no_duplicates()) by {
        assert forall|i: int, j: int|
            0 <= i < of.len() && 0 <= j < of.len() && i != j implies of[i] != of[j] by {
            assert(of[i] == list[i].key && of[j] == list[j].key);
        }
    }
    of.unique_seq_to_set();
    assert(of.to_set().subset_of(keys)) by {
        assert forall|key: Seq<u8>| #[trigger] of.to_set().contains(key) implies keys.contains(
            key,
        ) by {
            let i = choose|i: int| 0 <= i < of.len() && of[i] == key;
            assert(of[i] == list[i].key);
        }
    }
    vstd::set_lib::lemma_len_subset(of.to_set(), keys);
}

/// However the writes of such a transaction are listed, they are moderate.
proof fn lemma_listed_moderate(s: LsmView, w: WritesView, ops: Seq<OperationView>)
    requires
        moderate(s, w),
        mvcc::lists_writes(ops, w),
    ensures
        size_laws::moderate(s, ops),
        ops.len() <= w.puts.len() + w.deletes.len(),
{
    let (puts, deletes) = choose|puts: Seq<OperationView>, deletes: Seq<OperationView>|
        #![trigger puts.add(deletes)]
        ops == puts.add(deletes) && mvcc::lists_puts(puts, w.puts) && mvcc::lists_deletes(
            deletes,
            w.deletes,
        );
    assert forall|i: int| 0 <= i < puts.len() implies w.puts.dom().contains(
        (#[trigger] puts[i]).key,
    ) by {
        assert(w.puts.contains_key(puts[i].key));
    }
    lemma_distinct_writes(puts, w.puts.dom());
    lemma_distinct_writes(deletes, w.deletes);
    assert forall|i: int| 0 <= i < ops.len() implies size_laws::version_len(
        (#[trigger] ops[i]).key,
        ops[i].value,
    ) <= size_laws::longest_entry(s.options.compression) by {
        if i < puts.len() {
            assert(ops[i] == puts[i]);
            assert(w.puts.contains_key(puts[i].key));
        } else {
            assert(ops[i] == deletes[i - puts.len()]);
            assert(w.deletes.contains(deletes[i - puts.len()].key));
        }
    }
}

/// Nothing fails in the tree when the writes of a transaction go to it, as long as there are
/// numbers for tables.
pub proof fn lemma_writes_apply(
    s: LsmView,
    w: WritesView,
    after: LsmView,
    effects: Seq<EffectView>,
    fault: Option<Fault>,
)
    requires
        mvcc::applied(s, w, after, effects, fault),
        moderate(s, w),
        s.manifest.next_sst_id + w.puts.len() + w.deletes.len() <= MAX_ID + 1,
    ensures
        fault is None,
{
    let (ops, n) = choose|ops: Seq<OperationView>, n: int|
        #![trigger s.stored_all(ops.take(n), after, effects, fault)]
        mvcc::lists_writes(ops, w) && 0 <= n <= ops.len() && s.stored_all(
            ops.take(n),
            after,
            effects,
            fault,
        ) && (fault is None ==> n == ops.len());
    lemma_listed_moderate(s, w, ops);
    assert(ops =~= ops.take(n) + ops.skip(n));
    size_laws::lemma_fewer_moderate(s, ops.take(n), ops.skip(n));
    size_laws::lemma_writes_succeed(s, ops.take(n), after, effects, fault);
}

/// The commit of an active transaction that is not checked for what it read succeeds,
/// whether or not tables are written on the way.
pub proof fn lemma_commit_succeeds(
    s: EngineView,
    t: TxnView,
    after: EngineView,
    t_after: TxnView,
    effects: Seq<EffectView>,
    fault: Option<Fault>,
)
    requires
        s.committed(t, after, t_after, effects, fault),
        t.isolation != IsolationLevel::Serializable,
        t.state == TransactionState::Active,
        moderate(s.storage, t.writes),
        s.storage.manifest.next_sst_id + t.writes.puts.len() + t.writes.deletes.len() <= MAX_ID + 1,
    ensures
        fault is None,
{
    let commit_ts = s.storage.next_ts;
    assert(s.validated(t, commit_ts, s.ssi, None));
    let checked = EngineView { ssi: s.ssi, ..s };
    assert(checked.pushed_through(t, commit_ts, after, t_after, effects, fault));
    let (storage, trouble) = choose|storage: LsmView, trouble: Option<Fault>| #[trigger]
        mvcc::applied(checked.storage, t.writes, storage, effects, trouble) && if trouble is Some {
            &&& after == (EngineView { storage, ..checked })
            &&& t_after == checked.manager.prepared(t, commit_ts).0
            &&& fault == trouble
        } else {
            (after, t_after, fault) == (EngineView { storage, ..checked }).concluded(
                checked.manager.prepared(t, commit_ts).0,
            )
        };
    lemma_writes_apply(s.storage, t.writes, storage, effects, trouble);
}

/// A commit that has succeeded changes nothing for those who began before it. Those who
/// begin behind it read what the transaction wrote, and of other keys what was there.
pub proof fn lemma_committed_is_read(
    s: EngineView,
    t: TxnView,
    after: EngineView,
    t_after: TxnView,
    effects: Seq<EffectView>,
    key: Seq<u8>,
    ts: u64,
    answer: Result<Option<Seq<u8>>, Fault>,
)
    requires
        s.committed(t, after, t_after, effects, None),
        t.writes.puts.dom().disjoint(t.writes.deletes),
        lsm_laws::settled(s.storage),
        moderate(s.storage, t.writes),
    ensures
        lsm_laws::settled(after.storage),
        s.storage.next_ts <= after.storage.next_ts,
        ts < s.storage.next_ts || t.writes.get(key) is None ==> (after.storage.reads(
            key,
            ts,
            answer,
        ) <==> s.storage.reads(key, ts, answer)),
        ts >= after.storage.next_ts - 1 ==> (t.writes.get(key) matches Some(v) ==> (
        after.storage.reads(key, ts, answer) <==> answer == Ok::<Option<Seq<u8>>, Fault>(v))),
{
    lemma_commit_applies(s, t, after, t_after, effects);
    let ops = choose|ops: Seq<OperationView>| #[trigger]
        mvcc::lists_writes(ops, t.writes) && s.storage.stored_all(
            ops,
            after.storage,
            effects,
            None,
        );
    lemma_listed_moderate(s.storage, t.writes, ops);
    lsm_laws::lemma_stored_all_is_read(
        s.storage,
        ops,
        after.storage,
        effects,
        key,
        ts,
        answer,
    );
    lemma_listed_writes(ops, t.writes, key);
}

/// A commit that has succeeded has put all writes of the transaction into the tree.
pub proof fn lemma_commit_applies(
    s: EngineView,
    t: TxnView,
    after: EngineView,
    t_after: TxnView,
    effects: Seq<EffectView>,
)
    requires
        s.committed(t, after, t_after, effects, None),
    ensures
        exists|ops: Seq<OperationView>| #[trigger]
            mvcc::lists_writes(ops, t.writes) && s.storage.stored_all(
                ops,
                after.storage,
                effects,
                None,
            ),
{
    let commit_ts = s.storage.next_ts;
    let (after_ssi, conflict) = choose|ssi: SsiView, conflict: Option<Fault>| #[trigger]
        s.validated(t, commit_ts, ssi, conflict) && if conflict is Some {
            &&& after == (EngineView { ssi, ..s })
            &&& t_after == t
            &&& effects == Seq::<EffectView>::empty()
            &&& None::<Fault> == conflict
        } else {
            (EngineView { ssi, ..s }).pushed_through(
                t,
                commit_ts,
                after,
                t_after,
                effects,
                None,
            )
        };
    let checked = EngineView { ssi: after_ssi, ..s };
    let prepared = checked.manager.prepared(t, commit_ts).0;
    let (storage, trouble) = choose|storage: LsmView, trouble: Option<Fault>| #[trigger]
        mvcc::applied(checked.storage, t.writes, storage, effects, trouble) && if trouble is Some {
            &&& after == (EngineView { storage, ..checked })
            &&& t_after == prepared
            &&& None::<Fault> == trouble
        } else {
            (after, t_after, None::<Fault>) == (EngineView { storage, ..checked }).concluded(
                prepared,
            )
        };
    let (ops, n) = choose|ops: Seq<OperationView>, n: int|
        #![trigger s.storage.stored_all(ops.take(n), storage, effects, trouble)]
        mvcc::lists_writes(ops, t.writes) && 0 <= n <= ops.len() && s.storage.stored_all(
            ops.take(n),
            storage,
            effects,
            trouble,
        ) && (trouble is None ==> n == ops.len());
    assert(ops.take(n) =~= ops);
}

/// A value that is written in a transaction of its own is read by the next one: the commit
/// succeeds, and behind beginning, writing and committing, a transaction that begins then
/// reads it.
pub proof fn lemma_put_then_get(
    s: EngineView,
    op: OperationView,
    wrote: (EngineView, TxnView),
    committed: (EngineView, TxnView),
    effects: Seq<EffectView>,
    fault: Option<Fault>,
    read: (EngineView, TxnView),
    answer: Result<Option<Seq<u8>>, Fault>,
)
    requires
        lsm_laws::settled(s.storage),
        s.storage.manifest.next_sst_id <= MAX_ID,
        ({
            let (began, t) = s.begun(IsolationLevel::Snapshot);
            let (next, u) = committed.0.begun(IsolationLevel::Snapshot);
            &&& began.wrote(t, op, wrote.0, wrote.1, Ok(WriteStep::Done))
            &&& wrote.0.committed(wrote.1, committed.0, committed.1, effects, fault)
            &&& next.read(u, op.key, read.0, read.1, answer)
            &&& moderate(s.storage, t.with_write(op).writes)
        }),
    ensures
        fault is None,
        answer == Ok::<Option<Seq<u8>>, Fault>(op.value),
{
    let (began, t) = s.begun(IsolationLevel::Snapshot);
    let (next, u) = committed.0.begun(IsolationLevel::Snapshot);
    let w = t.with_write(op).writes;
    assert(wrote.1 == t.with_write(op));
    assert(w.puts.dom().disjoint(w.deletes));
    assert(w.get(op.key) == Some(op.value));
    assert(w.puts.len() + w.deletes.len() == 1) by {
        assert(t.writes.puts.dom() =~= Set::empty());
        assert(w.puts.dom().len() + w.deletes.len() == 1);
    }
    lemma_commit_succeeds(wrote.0, wrote.1, committed.0, committed.1, effects, fault);
    lemma_committed_is_read(
        wrote.0,
        wrote.1,
        committed.0,
        committed.1,
        effects,
        op.key,
        u.start_ts,
        answer,
    );
}

/// Snapshot isolation. A transaction that has not written a key reads of it what the tree
/// held when the transaction began, whatever another one commits in the meantime.
pub proof fn lemma_snapshot_is_stable(
    s: EngineView,
    isolation: IsolationLevel,
    before: EngineView,
    other: TxnView,
    after: EngineView,
    other_after: TxnView,
    effects: Seq<EffectView>,
    key: Seq<u8>,
    answer: Result<Option<Seq<u8>>, Fault>,
)
    requires
        1 <= s.storage.next_ts <= before.storage.next_ts,
        before.committed(other, after, other_after, effects, None),
        other.writes.puts.dom().disjoint(other.writes.deletes),
        lsm_laws::settled(before.storage),
        moderate(before.storage, other.writes),
    ensures
        ({
            let t = s.begun(isolation).1;
            after.storage.reads(key, t.start_ts, answer) <==> before.storage.reads(
                key,
                t.start_ts,
                answer,
            )
        }),
        s.storage.next_ts <= after.storage.next_ts,
        lsm_laws::settled(after.storage),
{
    let t = s.begun(isolation).1;
    lemma_committed_is_read(
        before,
        other,
        after,
        other_after,
        effects,
        key,
        t.start_ts,
        answer,
    );
}

/// The same for a whole read: behind the commit of another transaction, the read comes to
/// what it would have come to before it.
pub proof fn lemma_read_is_repeatable(
    s: EngineView,
    isolation: IsolationLevel,
    other: TxnView,
    after: EngineView,
    other_after: TxnView,
    effects: Seq<EffectView>,
    key: Seq<u8>,
    read: (EngineView, TxnView),
    answer: Result<Option<Seq<u8>>, Fault>,
)
    requires
        s.storage.next_ts >= 1,
        s.begun(isolation).0.committed(other, after, other_after, effects, None),
        other.writes.puts.dom().disjoint(other.writes.deletes),
        lsm_laws::settled(s.storage),
        moderate(s.storage, other.writes),
        after.read(s.begun(isolation).1, key, read.0, read.1, answer),
    ensures
        s.storage.reads(key, s.begun(isolation).1.start_ts, answer),
{
    let (began, t) = s.begun(isolation);
    lemma_snapshot_is_stable(
        s,
        isolation,
        began,
        other,
        after,
        other_after,
        effects,
        key,
        answer,
    );
}

} // verus!
