//! A model of what the log-structured store holds: the logs it has
//! appended, by generation, with the index that points into them. The
//! key/value map of the store is read through the index from the logs, and
//! the laws below show how setting, removing, reopening and compacting act
//! on that map.

use vstd::prelude::*;
use crate::engines::index::lemma_sorted_distinct;
use crate::engines::keyorder::strictly_sorted;
use crate::engines::kvs::{
    entry_start, index_after_set, is_compaction_log, law_open_points_at_set_commands,
    law_reopen_recovers_history,
    lemma_prefix_sum_monotone, open_index, prefix_sum, record_all, record_history,
    set_command_at, Command, CommandPos, LogEntry,
};

verus! {

/// The logs a store has written, by generation, and its index.
pub struct LogModel {
    pub logs: Map<u64, Seq<LogEntry>>,
    pub index: Map<Seq<char>, CommandPos>,
}

/// Every command of the log `e` takes up at least one byte.
pub open spec fn well_spaced(e: Seq<LogEntry>) -> bool {
    forall|j: int| 0 <= j < e.len() ==> entry_start(e, j) < (#[trigger] e[j]).end
}

/// The offset at which the next command of the log `e` is written.
pub open spec fn log_end(e: Seq<LogEntry>) -> u64 {
    entry_start(e, e.len() as int)
}

/// The logs are well spaced and each key of the index points at a set
/// command for that key in the log of the generation it names.
pub open spec fn sound(st: LogModel) -> bool {
    &&& forall|g: u64| #[trigger] st.logs.contains_key(g) ==> well_spaced(st.logs[g])
    &&& forall|k: Seq<char>|
        #[trigger] st.index.contains_key(k) ==> st.logs.contains_key(st.index[k].gen) && exists|
            j: int,
        | set_command_at(st.logs[st.index[k].gen], j, k, st.index[k].gen, st.index[k])
}

/// The place in its log of the command that the index gives for `k`.
pub open spec fn slot_of(st: LogModel, k: Seq<char>) -> int {
    choose|j: int| set_command_at(st.logs[st.index[k].gen], j, k, st.index[k].gen, st.index[k])
}

/// The command that the index gives for `k`.
pub open spec fn command_of(st: LogModel, k: Seq<char>) -> Command {
    st.logs[st.index[k].gen][slot_of(st, k)].command
}

/// The value that reading `k` through the index gives.
pub open spec fn value_of(st: LogModel, k: Seq<char>) -> Seq<char> {
    command_of(st, k)->SetValue_value@
}

/// The key/value map of the store: each live key with the value its set
/// command holds.
pub open spec fn kv_map(st: LogModel) -> Map<Seq<char>, Seq<char>> {
    Map::new(|k: Seq<char>| st.index.contains_key(k), |k: Seq<char>| value_of(st, k))
}

/// The model after a set of `key` to `value` written at the end of the log
/// of generation `gen`, ending at `end`, and recorded in the index.
pub open spec fn model_set(st: LogModel, gen: u64, key: String, value: String, end: u64) -> LogModel {
    let e = st.logs[gen];
    LogModel {
        logs: st.logs.insert(
            gen,
            e.push(LogEntry { command: Command::SetValue { key, value }, end }),
        ),
        index: index_after_set(st.index, key@, gen, log_end(e), end),
    }
}

/// The model after a remove of `key` written at the end of the log of
/// generation `gen`, ending at `end`, and recorded in the index.
pub open spec fn model_remove(st: LogModel, gen: u64, key: String, end: u64) -> LogModel {
    LogModel {
        logs: st.logs.insert(
            gen,
            st.logs[gen].push(LogEntry { command: Command::Remove { key }, end }),
        ),
        index: st.index.remove(key@),
    }
}

proof fn lemma_ends_before(e: Seq<LogEntry>, i: int, j: int)
    requires
        well_spaced(e),
        0 <= i < j <= e.len(),
    ensures
        e[i].end <= entry_start(e, j),
    decreases j - i,
{
    if j > i + 1 {
        lemma_ends_before(e, i, j - 1);
        assert(entry_start(e, j - 1) < e[j - 1].end);
    }
}

proof fn lemma_slot_unique(e: Seq<LogEntry>, j1: int, j2: int, k: Seq<char>, g: u64, cp: CommandPos)
    requires
        well_spaced(e),
        set_command_at(e, j1, k, g, cp),
        set_command_at(e, j2, k, g, cp),
    ensures
        j1 == j2,
{
    if j1 < j2 {
        lemma_ends_before(e, j1, j2);
        assert(entry_start(e, j1) < e[j1].end);
    } else if j2 < j1 {
        lemma_ends_before(e, j2, j1);
        assert(entry_start(e, j2) < e[j2].end);
    }
}

proof fn lemma_slot(st: LogModel, k: Seq<char>)
    requires
        sound(st),
        st.index.contains_key(k),
    ensures
        set_command_at(st.logs[st.index[k].gen], slot_of(st, k), k, st.index[k].gen, st.index[k]),
{
}

/// The log `e` with one more command that ends past its end stays well
/// spaced, and its earlier commands keep their places.
proof fn lemma_push_well_spaced(e: Seq<LogEntry>, x: LogEntry)
    requires
        well_spaced(e),
        log_end(e) < x.end,
    ensures
        well_spaced(e.push(x)),
        entry_start(e.push(x), e.len() as int) == log_end(e),
        forall|j: int|
            0 <= j < e.len() ==> #[trigger] entry_start(e.push(x), j) == entry_start(e, j)
                && e.push(x)[j] == e[j],
{
    let e2 = e.push(x);
    assert forall|j: int| 0 <= j < e2.len() implies entry_start(e2, j) < (#[trigger] e2[j]).end by {
        if j < e.len() {
            assert(e2[j] == e[j]);
            assert(entry_start(e, j) < e[j].end);
            if j > 0 {
                assert(e2[j - 1] == e[j - 1]);
            }
        } else if j > 0 {
            assert(e2[j - 1] == e[j - 1]);
        }
    }
    if e.len() > 0 {
        assert(e2[e.len() - 1] == e[e.len() - 1]);
    }
    assert forall|j: int| 0 <= j < e.len() implies #[trigger] entry_start(e2, j) == entry_start(e, j)
        && e2[j] == e[j] by {
        if j > 0 {
            assert(e2[j - 1] == e[j - 1]);
        }
    }
}

/// Keys other than the one written keep their command and value when a
/// command is appended to a log.
proof fn lemma_other_key_after_append(
    st: LogModel,
    st2: LogModel,
    gen: u64,
    x: LogEntry,
    k: Seq<char>,
)
    requires
        sound(st),
        st.logs.contains_key(gen),
        log_end(st.logs[gen]) < x.end,
        st2.logs == st.logs.insert(gen, st.logs[gen].push(x)),
        st.index.contains_key(k),
        st2.index.contains_key(k),
        st2.index[k] == st.index[k],
    ensures
        st2.logs.contains_key(st2.index[k].gen),
        set_command_at(st2.logs[st2.index[k].gen], slot_of(st, k), k, st2.index[k].gen, st2.index[k]),
        well_spaced(st2.logs[st2.index[k].gen]) ==> slot_of(st2, k) == slot_of(st, k) && command_of(
            st2,
            k,
        ) == command_of(st, k),
{
    let cp = st.index[k];
    lemma_slot(st, k);
    let j0 = slot_of(st, k);
    if cp.gen == gen {
        lemma_push_well_spaced(st.logs[gen], x);
        assert(entry_start(st2.logs[gen], j0) == entry_start(st.logs[gen], j0));
        assert(st2.logs[gen][j0] == st.logs[gen][j0]);
    }
    assert(set_command_at(st2.logs[cp.gen], j0, k, cp.gen, cp));
    if well_spaced(st2.logs[cp.gen]) {
        let j2 = slot_of(st2, k);
        lemma_slot_unique(st2.logs[cp.gen], j0, j2, k, cp.gen, cp);
    }
}

/// A set acts on the store's map as an insert: the key gets the value set,
/// any old value is overwritten, and every other key keeps its value. The
/// index keeps pointing at set commands.
pub proof fn law_set_updates_map(st: LogModel, gen: u64, key: String, value: String, end: u64)
    requires
        sound(st),
        st.logs.contains_key(gen),
        log_end(st.logs[gen]) < end,
    ensures
        sound(model_set(st, gen, key, value, end)),
        kv_map(model_set(st, gen, key, value, end)) == kv_map(st).insert(key@, value@),
{
    let st2 = model_set(st, gen, key, value, end);
    let e = st.logs[gen];
    let x = LogEntry { command: Command::SetValue { key, value }, end };
    lemma_push_well_spaced(e, x);
    let cp = CommandPos { gen, pos: log_end(e), len: (end - log_end(e)) as u64 };
    assert(set_command_at(st2.logs[gen], e.len() as int, key@, gen, cp));
    assert forall|g: u64| #[trigger] st2.logs.contains_key(g) implies well_spaced(st2.logs[g]) by {}
    assert forall|k: Seq<char>| #[trigger] st2.index.contains_key(k) implies st2.logs.contains_key(
        st2.index[k].gen,
    ) && exists|j: int| set_command_at(st2.logs[st2.index[k].gen], j, k, st2.index[k].gen, st2.index[k]) by {
        if k == key@ {
            assert(set_command_at(st2.logs[st2.index[k].gen], e.len() as int, k, st2.index[k].gen, st2.index[k]));
        } else {
            lemma_other_key_after_append(st, st2, gen, x, k);
        }
    }
    assert forall|k: Seq<char>| #[trigger] st2.index.contains_key(k) implies value_of(st2, k)
        == kv_map(st).insert(key@, value@)[k] by {
        if k == key@ {
            let j2 = slot_of(st2, k);
            lemma_slot_unique(st2.logs[gen], j2, e.len() as int, k, gen, cp);
        } else {
            lemma_other_key_after_append(st, st2, gen, x, k);
        }
    }
    assert(kv_map(st2) =~= kv_map(st).insert(key@, value@));
}

/// A remove acts on the store's map as a removal: the key is gone and
/// every other key keeps its value.
pub proof fn law_remove_updates_map(st: LogModel, gen: u64, key: String, end: u64)
    requires
        sound(st),
        st.logs.contains_key(gen),
        log_end(st.logs[gen]) < end,
    ensures
        sound(model_remove(st, gen, key, end)),
        kv_map(model_remove(st, gen, key, end)) == kv_map(st).remove(key@),
{
    let st2 = model_remove(st, gen, key, end);
    let x = LogEntry { command: Command::Remove { key }, end };
    lemma_push_well_spaced(st.logs[gen], x);
    assert forall|g: u64| #[trigger] st2.logs.contains_key(g) implies well_spaced(st2.logs[g]) by {}
    assert forall|k: Seq<char>| #[trigger] st2.index.contains_key(k) implies st2.logs.contains_key(
        st2.index[k].gen,
    ) && exists|j: int| set_command_at(st2.logs[st2.index[k].gen], j, k, st2.index[k].gen, st2.index[k]) by {
        lemma_other_key_after_append(st, st2, gen, x, k);
    }
    assert forall|k: Seq<char>| #[trigger] st2.index.contains_key(k) implies value_of(st2, k)
        == kv_map(st)[k] by {
        lemma_other_key_after_append(st, st2, gen, x, k);
    }
    assert(kv_map(st2) =~= kv_map(st).remove(key@));
}

/// A set of a key the map lacks, followed by its remove, gives the map
/// back; the key is then absent, so a second remove fails with
/// `KeyNotFound`.
pub proof fn law_set_then_remove_restores_map(
    st: LogModel,
    gen: u64,
    key: String,
    value: String,
    end: u64,
    remove_end: u64,
)
    requires
        sound(st),
        st.logs.contains_key(gen),
        log_end(st.logs[gen]) < end < remove_end,
        !kv_map(st).contains_key(key@),
    ensures
        kv_map(model_remove(model_set(st, gen, key, value, end), gen, key, remove_end)) == kv_map(
            st,
        ),
        !model_remove(model_set(st, gen, key, value, end), gen, key, remove_end).index.contains_key(
            key@,
        ),
{
    let st2 = model_set(st, gen, key, value, end);
    law_set_updates_map(st, gen, key, value, end);
    assert(log_end(st2.logs[gen]) == end) by {
        assert(st2.logs[gen].len() == st.logs[gen].len() + 1);
    }
    law_remove_updates_map(st2, gen, key, remove_end);
    assert(kv_map(st).insert(key@, value@).remove(key@) =~= kv_map(st));
}

/// The logs, in the order of the generations `gens`.
pub open spec fn logs_in_order(st: LogModel, gens: Seq<u64>) -> Seq<Seq<LogEntry>> {
    gens.map_values(|g: u64| st.logs[g])
}

/// The index of `st` is what recording the commands of its logs, taken
/// generation after generation in the order `gens`, built.
pub open spec fn recorded(st: LogModel, gens: Seq<u64>) -> bool {
    &&& gens.no_duplicates()
    &&& forall|i: int| 0 <= i < gens.len() ==> st.logs.contains_key(#[trigger] gens[i])
    &&& st.index == record_history(gens, logs_in_order(st, gens), gens.len())
}

proof fn lemma_record_all_prefix(
    m: Map<Seq<char>, CommandPos>,
    gen: u64,
    e1: Seq<LogEntry>,
    e2: Seq<LogEntry>,
    n: nat,
)
    requires
        n <= e1.len(),
        n <= e2.len(),
        forall|i: int| 0 <= i < n ==> e1[i] == e2[i],
    ensures
        record_all(m, gen, e1, n) == record_all(m, gen, e2, n),
    decreases n,
{
    if n > 0 {
        lemma_record_all_prefix(m, gen, e1, e2, (n - 1) as nat);
        if n >= 2 {
            assert(e1[n - 2] == e2[n - 2]);
        }
        assert(e1[n - 1] == e2[n - 1]);
    }
}

proof fn lemma_record_history_prefix(
    gens: Seq<u64>,
    l1: Seq<Seq<LogEntry>>,
    l2: Seq<Seq<LogEntry>>,
    n: nat,
)
    requires
        n <= l1.len(),
        n <= l2.len(),
        forall|i: int| 0 <= i < n ==> l1[i] == l2[i],
    ensures
        record_history(gens, l1, n) == record_history(gens, l2, n),
    decreases n,
{
    if n > 0 {
        lemma_record_history_prefix(gens, l1, l2, (n - 1) as nat);
        assert(l1[n - 1] == l2[n - 1]);
    }
}

/// Appending a command to the log of the last generation keeps the earlier
/// logs in order and lengthens the last one.
proof fn lemma_append_last_recorded(st: LogModel, st2: LogModel, gens: Seq<u64>, x: LogEntry)
    requires
        recorded(st, gens),
        gens.len() > 0,
        st2.logs == st.logs.insert(gens.last(), st.logs[gens.last()].push(x)),
    ensures
        record_history(gens, logs_in_order(st2, gens), gens.len()) == record_all(
            record_history(gens, logs_in_order(st, gens), (gens.len() - 1) as nat),
            gens.last(),
            st.logs[gens.last()].push(x),
            st.logs[gens.last()].len() + 1,
        ),
        record_all(
            record_history(gens, logs_in_order(st, gens), (gens.len() - 1) as nat),
            gens.last(),
            st.logs[gens.last()].push(x),
            st.logs[gens.last()].len(),
        ) == st.index,
{
    let n = gens.len();
    let g = gens.last();
    let l1 = logs_in_order(st, gens);
    let l2 = logs_in_order(st2, gens);
    assert forall|i: int| 0 <= i < n - 1 implies l1[i] == l2[i] by {
        assert(gens[i] != gens[n - 1]);
    }
    lemma_record_history_prefix(gens, l1, l2, (n - 1) as nat);
    let e = st.logs[g];
    assert(l2[n - 1] == e.push(x));
    assert(l1[n - 1] == e);
    lemma_record_all_prefix(
        record_history(gens, l1, (n - 1) as nat),
        g,
        e.push(x),
        e,
        e.len(),
    );
}

/// Writing a set to the log of the last generation keeps the index what
/// recording the logs gives.
pub proof fn law_set_keeps_recorded(st: LogModel, gens: Seq<u64>, key: String, value: String, end: u64)
    requires
        recorded(st, gens),
        gens.len() > 0,
    ensures
        recorded(model_set(st, gens.last(), key, value, end), gens),
{
    let st2 = model_set(st, gens.last(), key, value, end);
    let x = LogEntry { command: Command::SetValue { key, value }, end };
    lemma_append_last_recorded(st, st2, gens, x);
    let e = st.logs[gens.last()];
    assert(entry_start(e.push(x), e.len() as int) == log_end(e)) by {
        if e.len() > 0 {
            assert(e.push(x)[e.len() - 1] == e[e.len() - 1]);
        }
    }
    assert forall|i: int| 0 <= i < gens.len() implies st2.logs.contains_key(#[trigger] gens[i]) by {
        assert(st.logs.contains_key(gens[i]));
    }
}

/// Writing a remove to the log of the last generation keeps the index what
/// recording the logs gives.
pub proof fn law_remove_keeps_recorded(st: LogModel, gens: Seq<u64>, key: String, end: u64)
    requires
        recorded(st, gens),
        gens.len() > 0,
    ensures
        recorded(model_remove(st, gens.last(), key, end), gens),
{
    let st2 = model_remove(st, gens.last(), key, end);
    let x = LogEntry { command: Command::Remove { key }, end };
    lemma_append_last_recorded(st, st2, gens, x);
    assert forall|i: int| 0 <= i < gens.len() implies st2.logs.contains_key(#[trigger] gens[i]) by {
        assert(st.logs.contains_key(gens[i]));
    }
}

/// A store just opened on the logs of `gens`, with a new empty log for its
/// generation `current` after them, has the index that recording gives.
pub proof fn law_open_is_recorded(logs: Map<u64, Seq<LogEntry>>, gens: Seq<u64>, current: u64)
    requires
        gens.no_duplicates(),
        !gens.contains(current),
        forall|i: int| 0 <= i < gens.len() ==> logs.contains_key(#[trigger] gens[i]),
    ensures
        recorded(
            LogModel {
                logs: logs.insert(current, Seq::empty()),
                index: open_index(gens, gens.map_values(|g: u64| logs[g]), gens.len()),
            },
            gens.push(current),
        ),
{
    let st = LogModel {
        logs: logs.insert(current, Seq::empty()),
        index: open_index(gens, gens.map_values(|g: u64| logs[g]), gens.len()),
    };
    let all = gens.push(current);
    let n = gens.len();
    law_reopen_recovers_history(gens, gens.map_values(|g: u64| logs[g]), n);
    assert(all.no_duplicates()) by {
        assert forall|a: int, b: int| 0 <= a < b < all.len() implies all[a] != all[b] by {
            if b == n {
                assert(gens.contains(all[a]));
            }
        }
    }
    let l = logs_in_order(st, all);
    let l0 = gens.map_values(|g: u64| logs[g]);
    assert forall|i: int| 0 <= i < n implies l[i] == l0[i] by {
        assert(all[i] == gens[i]);
        assert(gens[i] != current);
    }
    lemma_record_history_prefix(all, l, l0, n);
    lemma_record_history_gens(all, gens, l0, n);
    assert(l[n as int] == Seq::<LogEntry>::empty());
    assert forall|i: int| 0 <= i < all.len() implies st.logs.contains_key(#[trigger] all[i]) by {
        if i < n {
            assert(logs.contains_key(gens[i]));
        }
    }
}

/// A store just opened on well-spaced logs is sound: every key of the
/// replayed index points at a set command for it.
pub proof fn law_open_is_sound(logs: Map<u64, Seq<LogEntry>>, gens: Seq<u64>)
    requires
        forall|i: int| 0 <= i < gens.len() ==> logs.contains_key(#[trigger] gens[i]),
        forall|g: u64| #[trigger] logs.contains_key(g) ==> well_spaced(logs[g]),
    ensures
        sound(
            LogModel {
                logs,
                index: open_index(gens, gens.map_values(|g: u64| logs[g]), gens.len()),
            },
        ),
{
    let l = gens.map_values(|g: u64| logs[g]);
    let st = LogModel { logs, index: open_index(gens, l, gens.len()) };
    law_open_points_at_set_commands(gens, l, gens.len());
    assert forall|k: Seq<char>| #[trigger] st.index.contains_key(k) implies st.logs.contains_key(
        st.index[k].gen,
    ) && exists|j: int| set_command_at(st.logs[st.index[k].gen], j, k, st.index[k].gen, st.index[k]) by {
        let (i, j) = choose|i: int, j: int|
            0 <= i < gens.len() && set_command_at(l[i], j, k, gens[i], st.index[k]);
        assert(l[i] == logs[gens[i]]);
        assert(logs.contains_key(gens[i]));
        assert(set_command_at(st.logs[st.index[k].gen], j, k, st.index[k].gen, st.index[k]));
    }
}

proof fn lemma_record_history_gens(g1: Seq<u64>, g2: Seq<u64>, l: Seq<Seq<LogEntry>>, n: nat)
    requires
        n <= g1.len(),
        n <= g2.len(),
        forall|i: int| 0 <= i < n ==> g1[i] == g2[i],
    ensures
        record_history(g1, l, n) == record_history(g2, l, n),
    decreases n,
{
    if n > 0 {
        lemma_record_history_gens(g1, g2, l, (n - 1) as nat);
        assert(g1[n - 1] == g2[n - 1]);
    }
}

/// Reopening keeps the map: replaying the logs of a recorded store,
/// generation after generation, gives back its index, and so the same
/// key/value map.
pub proof fn law_reopen_keeps_map(st: LogModel, gens: Seq<u64>)
    requires
        recorded(st, gens),
    ensures
        open_index(gens, logs_in_order(st, gens), gens.len()) == st.index,
        kv_map(LogModel { logs: st.logs, index: open_index(gens, logs_in_order(st, gens), gens.len()) })
            == kv_map(st),
{
    law_reopen_recovers_history(gens, logs_in_order(st, gens), gens.len());
}

/// The lengths of the commands the index gives for `keys`.
pub open spec fn lens_of(st: LogModel, keys: Seq<Seq<char>>) -> Seq<u64> {
    Seq::new(keys.len(), |i: int| st.index[keys[i]].len)
}

/// The compaction log: the commands that the index gives for `keys`,
/// copied one after another from offset 0.
pub open spec fn compaction_log(st: LogModel, keys: Seq<Seq<char>>) -> Seq<LogEntry> {
    Seq::new(
        keys.len(),
        |i: int|
            LogEntry {
                command: command_of(st, keys[i]),
                end: prefix_sum(lens_of(st, keys), i + 1) as u64,
            },
    )
}

/// The logs after a compaction into generation `compaction_gen`: the logs
/// older than it are deleted and the compaction log is added.
pub open spec fn compacted_logs(st: LogModel, keys: Seq<Seq<char>>, compaction_gen: u64) -> Map<
    u64,
    Seq<LogEntry>,
> {
    Map::new(|g: u64| st.logs.contains_key(g) && g > compaction_gen, |g: u64| st.logs[g]).insert(
        compaction_gen,
        compaction_log(st, keys),
    )
}

proof fn lemma_compaction_log_facts(st: LogModel, keys: Seq<Seq<char>>)
    requires
        sound(st),
        keys.to_set() == st.index.dom(),
        prefix_sum(lens_of(st, keys), keys.len() as int) <= u64::MAX,
    ensures
        well_spaced(compaction_log(st, keys)),
        is_compaction_log(compaction_log(st, keys), keys, lens_of(st, keys)),
        forall|i: int|
            0 <= i < keys.len() ==> #[trigger] entry_start(compaction_log(st, keys), i)
                == prefix_sum(lens_of(st, keys), i),
{
    let lens = lens_of(st, keys);
    let clog = compaction_log(st, keys);
    let n = keys.len();
    assert forall|i: int| 0 <= i < n implies lens[i] > 0 && (#[trigger] clog[i]).command
        is SetValue && clog[i].command->SetValue_key@ == keys[i] by {
        assert(keys.to_set().contains(keys[i]));
        lemma_slot(st, keys[i]);
        let cp = st.index[keys[i]];
        let e = st.logs[cp.gen];
        let j = slot_of(st, keys[i]);
        assert(entry_start(e, j) < e[j].end);
    }
    assert forall|i: int| 0 <= i <= n implies prefix_sum(lens, i) <= u64::MAX && 0 <= prefix_sum(
        lens,
        i,
    ) by {
        lemma_prefix_sum_monotone(lens, i, n as int);
        lemma_prefix_sum_monotone(lens, 0, i);
    }
    assert forall|i: int| 0 <= i < n implies #[trigger] entry_start(clog, i) == prefix_sum(lens, i)
        by {
        if i > 0 {
            assert(clog[i - 1].end == prefix_sum(lens, i) as u64);
        }
    }
    assert forall|j: int| 0 <= j < clog.len() implies entry_start(clog, j) < (
    #[trigger] clog[j]).end by {
        assert(entry_start(clog, j) == prefix_sum(lens, j));
        assert(prefix_sum(lens, j + 1) == prefix_sum(lens, j) + lens[j]);
    }
    assert forall|i: int| 0 <= i < clog.len() implies (#[trigger] clog[i]).end == prefix_sum(
        lens,
        i + 1,
    ) && clog[i].command is SetValue && clog[i].command->SetValue_key@ == keys[i] by {}
}

/// Compaction keeps the map: once the live commands, in key order, are
/// copied to the compaction log and the index relocated to the copies (as
/// `relocate` records), and the older logs are deleted, every key still
/// reads its value, no other key appears, and the index still points at set
/// commands. The compaction log is the one that replaying recovers (see
/// `law_compaction_log_replays_to_relocated_index`).
pub proof fn law_compaction_keeps_map(
    st: LogModel,
    keys: Seq<Seq<char>>,
    compaction_gen: u64,
    after: Map<Seq<char>, CommandPos>,
)
    requires
        sound(st),
        strictly_sorted(keys),
        keys.to_set() == st.index.dom(),
        prefix_sum(lens_of(st, keys), keys.len() as int) <= u64::MAX,
        after.dom() == st.index.dom(),
        forall|i: int|
            0 <= i < keys.len() ==> after[#[trigger] keys[i]] == (CommandPos {
                gen: compaction_gen,
                pos: prefix_sum(lens_of(st, keys), i) as u64,
                len: lens_of(st, keys)[i],
            }),
    ensures
        is_compaction_log(compaction_log(st, keys), keys, lens_of(st, keys)),
        sound(LogModel { logs: compacted_logs(st, keys, compaction_gen), index: after }),
        kv_map(LogModel { logs: compacted_logs(st, keys, compaction_gen), index: after }) == kv_map(
            st,
        ),
        forall|g: u64| #[trigger]
            compacted_logs(st, keys, compaction_gen).contains_key(g) ==> g >= compaction_gen,
{
    let lens = lens_of(st, keys);
    let clog = compaction_log(st, keys);
    let logs2 = compacted_logs(st, keys, compaction_gen);
    let st2 = LogModel { logs: logs2, index: after };
    let n = keys.len();
    lemma_compaction_log_facts(st, keys);
    assert forall|i: int| 0 <= i < n implies set_command_at(
        clog,
        i,
        keys[i],
        compaction_gen,
        #[trigger] after[keys[i]],
    ) by {
        assert(entry_start(clog, i) == prefix_sum(lens, i));
    }
    assert forall|g: u64| #[trigger] st2.logs.contains_key(g) implies well_spaced(st2.logs[g]) by {
        if g != compaction_gen {
            assert(st.logs.contains_key(g));
        }
    }
    assert forall|k: Seq<char>| #[trigger] st2.index.contains_key(k) implies st2.logs.contains_key(
        st2.index[k].gen,
    ) && exists|j: int| set_command_at(st2.logs[st2.index[k].gen], j, k, st2.index[k].gen, st2.index[k]) && value_of(st2, k) == value_of(st, k) by {
        assert(keys.to_set().contains(k));
        let i = choose|i: int| 0 <= i < n && keys[i] == k;
        assert(set_command_at(clog, i, keys[i], compaction_gen, after[keys[i]]));
        assert(st2.logs[compaction_gen] == clog);
        let j2 = slot_of(st2, k);
        lemma_slot_unique(clog, j2, i, k, compaction_gen, after[k]);
    }
    assert(kv_map(st2) =~= kv_map(st));
}

} // verus!
