//! The log-structured engine: commands, their positions in the generation
//! logs, and the in-memory state that decides where each live value lies.

use vstd::prelude::*;
use core::ops::Range;
use crate::engines::index::{lemma_sorted_distinct, KeyIndex};
use crate::engines::keyorder::strictly_sorted;
use crate::engines::logfiles::sorted_u64;
use crate::error::{KvsError, Result};

verus! {

/// A command as it is written to a log.
#[derive(Debug, Clone)]
pub enum Command {
    /// Give `key` the value `value`.
    SetValue { key: String, value: String },
    /// Remove `key`.
    Remove { key: String },
}

impl Command {
    /// The command that sets `key` to `value`.
    pub fn set(key: String, value: String) -> (c: Command)
        ensures
            c == (Command::SetValue { key, value }),
    {
        Command::SetValue { key, value }
    }

    /// The command that removes `key`.
    pub fn remove(key: String) -> (c: Command)
        ensures
            c == (Command::Remove { key }),
    {
        Command::Remove { key }
    }
}

/// The position and length of a serialized command in the log of
/// generation `gen`.
#[derive(Debug, Clone, Copy, PartialEq, Eq, Structural)]
pub struct CommandPos {
    pub gen: u64,
    pub pos: u64,
    pub len: u64,
}

impl CommandPos {
    /// The position of the command of generation `pair.0` that occupies
    /// the byte range `pair.1`.
    pub fn from(pair: (u64, Range<u64>)) -> (c: CommandPos)
        requires
            pair.1.start <= pair.1.end,
        ensures
            c == (CommandPos { gen: pair.0, pos: pair.1.start, len: (pair.1.end - pair.1.start) as u64 }),
    {
        let (gen, range) = pair;
        CommandPos { gen: gen, pos: range.start, len: range.end - range.start }
    }
}

/// A command read back from a log, with the offset at which its bytes end.
#[derive(Debug)]
pub struct LogEntry {
    pub command: Command,
    pub end: u64,
}

/// The offset at which entry `i` of a log starts: where the one before it
/// ends, or the start of the file.
pub open spec fn entry_start(entries: Seq<LogEntry>, i: int) -> u64 {
    if i <= 0 {
        0
    } else {
        entries[i - 1].end
    }
}

/// The entries end at offsets that never decrease.
pub open spec fn ends_nondecreasing(entries: Seq<LogEntry>) -> bool {
    forall|i: int, j: int| 0 <= i <= j < entries.len() ==> entries[i].end <= entries[j].end
}

/// The length recorded for `key` in `index`, or nothing when it is absent.
pub open spec fn stale_len(index: Map<Seq<char>, CommandPos>, key: Seq<char>) -> int {
    if index.contains_key(key) {
        index[key].len as int
    } else {
        0
    }
}

/// Replays one command of generation `gen` that occupies `start..end` onto
/// the index `index` and the count `u` of stale bytes.
pub open spec fn replay_step(
    index: Map<Seq<char>, CommandPos>,
    u: int,
    gen: u64,
    command: Command,
    start: u64,
    end: u64,
) -> (Map<Seq<char>, CommandPos>, int) {
    match command {
        Command::SetValue { key, value: _ } => (
            index.insert(key@, CommandPos { gen, pos: start, len: (end - start) as u64 }),
            u + stale_len(index, key@),
        ),
        Command::Remove { key } => (
            index.remove(key@),
            u + stale_len(index, key@) + (end - start),
        ),
    }
}

/// The index and the count of stale bytes after replaying the first `n`
/// entries of the log of generation `gen` onto `index`, counting from zero.
pub open spec fn replay(
    index: Map<Seq<char>, CommandPos>,
    gen: u64,
    entries: Seq<LogEntry>,
    n: nat,
) -> (Map<Seq<char>, CommandPos>, int)
    decreases n,
{
    if n == 0 {
        (index, 0)
    } else {
        let before = replay(index, gen, entries, (n - 1) as nat);
        replay_step(
            before.0,
            before.1,
            gen,
            entries[n - 1].command,
            entry_start(entries, n - 1),
            entries[n - 1].end,
        )
    }
}

/// Replaying more entries never lowers the count of stale bytes.
pub proof fn lemma_replay_stale_monotone(
    index: Map<Seq<char>, CommandPos>,
    gen: u64,
    entries: Seq<LogEntry>,
    i: nat,
    n: nat,
)
    requires
        i <= n <= entries.len(),
        ends_nondecreasing(entries),
    ensures
        replay(index, gen, entries, i).1 <= replay(index, gen, entries, n).1,
    decreases n,
{
    if i < n {
        lemma_replay_stale_monotone(index, gen, entries, i, (n - 1) as nat);
        if n >= 2 {
            assert(entries[n - 2].end <= entries[n - 1].end);
        }
    }
}

/// A replayed index holds, for each key, either what it held before or a
/// position in the replayed generation.
pub proof fn lemma_replay_gens(
    index: Map<Seq<char>, CommandPos>,
    gen: u64,
    entries: Seq<LogEntry>,
    n: nat,
)
    requires
        n <= entries.len(),
    ensures
        forall|k: Seq<char>|
            #[trigger] replay(index, gen, entries, n).0.contains_key(k) ==> (index.contains_key(k)
                && replay(index, gen, entries, n).0[k] == index[k]) || replay(
                index,
                gen,
                entries,
                n,
            ).0[k].gen == gen,
    decreases n,
{
    if n > 0 {
        lemma_replay_gens(index, gen, entries, (n - 1) as nat);
        let before = replay(index, gen, entries, (n - 1) as nat);
        let after = replay(index, gen, entries, n);
        assert forall|k: Seq<char>| #[trigger] after.0.contains_key(k) implies (index.contains_key(k)
            && after.0[k] == index[k]) || after.0[k].gen == gen by {
            match entries[n - 1].command {
                Command::SetValue { key, value: _ } => {
                    if k != key@ {
                        assert(before.0.contains_key(k));
                    }
                },
                Command::Remove { key } => {
                    assert(before.0.contains_key(k));
                },
            }
        }
    }
}

/// The total length of the commands that `m` records for the keys `ks`.
pub open spec fn sum_lens(m: Map<Seq<char>, CommandPos>, ks: Set<Seq<char>>) -> int
    decreases ks.len(),
{
    if ks.finite() && ks.len() > 0 {
        let k = ks.choose();
        m[k].len + sum_lens(m, ks.remove(k))
    } else {
        0
    }
}

/// The number of bytes of the live commands that `m` records.
pub open spec fn live_bytes(m: Map<Seq<char>, CommandPos>) -> int {
    sum_lens(m, m.dom())
}

proof fn lemma_sum_lens_remove(m: Map<Seq<char>, CommandPos>, ks: Set<Seq<char>>, k: Seq<char>)
    requires
        ks.finite(),
        ks.contains(k),
    ensures
        sum_lens(m, ks) == m[k].len + sum_lens(m, ks.remove(k)),
    decreases ks.len(),
{
    let c = ks.choose();
    if c != k {
        lemma_sum_lens_remove(m, ks.remove(c), k);
        lemma_sum_lens_remove(m, ks.remove(k), c);
        assert(ks.remove(c).remove(k) =~= ks.remove(k).remove(c));
    }
}

proof fn lemma_sum_lens_agree(
    m1: Map<Seq<char>, CommandPos>,
    m2: Map<Seq<char>, CommandPos>,
    ks: Set<Seq<char>>,
)
    requires
        forall|k: Seq<char>| #[trigger] ks.contains(k) ==> m1[k].len == m2[k].len,
    ensures
        sum_lens(m1, ks) == sum_lens(m2, ks),
    decreases ks.len(),
{
    if ks.finite() && ks.len() > 0 {
        lemma_sum_lens_agree(m1, m2, ks.remove(ks.choose()));
    }
}

proof fn lemma_live_bytes_insert(m: Map<Seq<char>, CommandPos>, k: Seq<char>, v: CommandPos)
    requires
        m.dom().finite(),
    ensures
        live_bytes(m.insert(k, v)) == live_bytes(m) - stale_len(m, k) + v.len,
{
    let d = m.dom();
    let m2 = m.insert(k, v);
    assert(m2.dom() =~= d.insert(k));
    lemma_sum_lens_remove(m2, m2.dom(), k);
    assert(m2.dom().remove(k) =~= d.remove(k));
    lemma_sum_lens_agree(m2, m, d.remove(k));
    if d.contains(k) {
        lemma_sum_lens_remove(m, d, k);
    } else {
        assert(d.remove(k) =~= d);
    }
}

proof fn lemma_live_bytes_remove(m: Map<Seq<char>, CommandPos>, k: Seq<char>)
    requires
        m.dom().finite(),
    ensures
        live_bytes(m.remove(k)) == live_bytes(m) - stale_len(m, k),
{
    let d = m.dom();
    let m2 = m.remove(k);
    assert(m2.dom() =~= d.remove(k));
    lemma_sum_lens_agree(m2, m, d.remove(k));
    if d.contains(k) {
        lemma_sum_lens_remove(m, d, k);
    } else {
        assert(d.remove(k) =~= d);
    }
}

/// Replaying a log accounts for every byte it reads: the stale bytes it
/// counts plus the bytes of the live commands afterwards equal the bytes
/// of the live commands before plus the bytes read. Replayed onto an empty
/// index, stale and live bytes together make up the whole log.
pub proof fn law_replay_accounts_for_every_byte(
    m: Map<Seq<char>, CommandPos>,
    gen: u64,
    entries: Seq<LogEntry>,
    n: nat,
)
    requires
        m.dom().finite(),
        ends_nondecreasing(entries),
        n <= entries.len(),
    ensures
        replay(m, gen, entries, n).0.dom().finite(),
        replay(m, gen, entries, n).1 + live_bytes(replay(m, gen, entries, n).0) == live_bytes(m)
            + entry_start(entries, n as int),
    decreases n,
{
    if n > 0 {
        law_replay_accounts_for_every_byte(m, gen, entries, (n - 1) as nat);
        let before = replay(m, gen, entries, (n - 1) as nat);
        let start = entry_start(entries, n - 1);
        let end = entries[n - 1].end;
        if n >= 2 {
            assert(entries[n - 2].end <= entries[n - 1].end);
        }
        match entries[n - 1].command {
            Command::SetValue { key, value: _ } => {
                lemma_live_bytes_insert(
                    before.0,
                    key@,
                    CommandPos { gen, pos: start, len: (end - start) as u64 },
                );
            },
            Command::Remove { key } => {
                lemma_live_bytes_remove(before.0, key@);
            },
        }
    }
}

/// The total length that `m` records for the distinct keys `keys`, summed in
/// their order.
pub open spec fn seq_lens(m: Map<Seq<char>, CommandPos>, keys: Seq<Seq<char>>) -> int
    decreases keys.len(),
{
    if keys.len() == 0 {
        0
    } else {
        seq_lens(m, keys.drop_last()) + m[keys.last()].len
    }
}

proof fn lemma_sum_lens_of_keys(m: Map<Seq<char>, CommandPos>, keys: Seq<Seq<char>>)
    requires
        keys.no_duplicates(),
    ensures
        sum_lens(m, keys.to_set()) == seq_lens(m, keys),
    decreases keys.len(),
{
    if keys.len() == 0 {
        assert(keys.to_set() =~= Set::<Seq<char>>::empty());
    } else {
        let rest = keys.drop_last();
        let x = keys.last();
        assert(rest.no_duplicates()) by {
            assert forall|a: int, b: int| 0 <= a < b < rest.len() implies rest[a] != rest[b] by {
                assert(rest[a] == keys[a] && rest[b] == keys[b]);
            }
        }
        lemma_sum_lens_of_keys(m, rest);
        assert(keys =~= rest.push(x));
        rest.lemma_push_to_set_commute(x);
        assert(!rest.contains(x)) by {
            if rest.contains(x) {
                let t = choose|t: int| 0 <= t < rest.len() && rest[t] == x;
                assert(keys[t] == keys[keys.len() - 1]);
            }
        }
        vstd::seq_lib::seq_to_set_is_finite(keys);
        lemma_sum_lens_remove(m, keys.to_set(), x);
        assert(keys.to_set().remove(x) =~= rest.to_set());
    }
}

/// A full compaction leaves no stale byte behind: when every live command,
/// taken in key order, was copied to the compaction log one after another,
/// the live commands lie back to back from offset 0 and their bytes are
/// exactly the bytes copied.
pub proof fn law_compaction_packs_live_bytes(
    index: Map<Seq<char>, CommandPos>,
    keys: Seq<Seq<char>>,
    copied: Seq<u64>,
    compaction_gen: u64,
)
    requires
        strictly_sorted(keys),
        index.dom() == keys.to_set(),
        copied.len() == keys.len(),
        prefix_sum(copied, copied.len() as int) <= u64::MAX,
        forall|i: int|
            0 <= i < keys.len() ==> index[#[trigger] keys[i]] == (CommandPos {
                gen: compaction_gen,
                pos: prefix_sum(copied, i) as u64,
                len: copied[i],
            }),
    ensures
        live_bytes(index) == prefix_sum(copied, copied.len() as int),
        keys.len() > 0 ==> index[keys[0]].pos == 0,
        forall|i: int|
            0 <= i < keys.len() - 1 ==> #[trigger] index[keys[i + 1]].pos == index[keys[i]].pos
                + index[keys[i]].len,
{
    assert(keys.no_duplicates()) by {
        assert forall|a: int, b: int| 0 <= a < b < keys.len() implies keys[a] != keys[b] by {
            lemma_sorted_distinct(keys, a, b);
        }
    }
    lemma_sum_lens_of_keys(index, keys);
    assert forall|n: int| 0 <= n <= keys.len() implies seq_lens(index, keys.take(n)) == prefix_sum(
        copied,
        n,
    ) by {
        lemma_seq_lens_prefix(index, keys, copied, compaction_gen, n);
    }
    assert(keys.take(keys.len() as int) =~= keys);
    assert forall|i: int| 0 <= i < keys.len() - 1 implies #[trigger] index[keys[i + 1]].pos
        == index[keys[i]].pos + index[keys[i]].len by {
        lemma_prefix_sum_monotone(copied, i + 1, copied.len() as int);
        lemma_prefix_sum_monotone(copied, 0, i);
    }
}

proof fn lemma_seq_lens_prefix(
    index: Map<Seq<char>, CommandPos>,
    keys: Seq<Seq<char>>,
    copied: Seq<u64>,
    compaction_gen: u64,
    n: int,
)
    requires
        0 <= n <= keys.len(),
        copied.len() == keys.len(),
        forall|i: int|
            0 <= i < keys.len() ==> index[#[trigger] keys[i]] == (CommandPos {
                gen: compaction_gen,
                pos: prefix_sum(copied, i) as u64,
                len: copied[i],
            }),
    ensures
        seq_lens(index, keys.take(n)) == prefix_sum(copied, n),
    decreases n,
{
    if n > 0 {
        lemma_seq_lens_prefix(index, keys, copied, compaction_gen, n - 1);
        assert(keys.take(n).drop_last() =~= keys.take(n - 1));
        assert(keys.take(n).last() == keys[n - 1]);
    }
}

/// Replays the log `entries` of generation `gen` into `index`: a set
/// command records where it lies, a remove command drops its key. Gives
/// back how many bytes of the log, and of the commands it replaced, are
/// stale, or `None` where that count does not fit in 64 bits.
pub fn load(gen: u64, entries: &Vec<LogEntry>, index: &mut KeyIndex) -> (r: Option<u64>)
    requires
        old(index).wf(),
        ends_nondecreasing(entries@),
    ensures
        final(index).wf(),
        final(index)@ == replay(old(index)@, gen, entries@, entries@.len()).0,
        r == (if replay(old(index)@, gen, entries@, entries@.len()).1 <= u64::MAX {
            Some(replay(old(index)@, gen, entries@, entries@.len()).1 as u64)
        } else {
            None::<u64>
        }),
{
    let ghost m0 = index@;
    let mut pos: u64 = 0;
    let mut uncompacted: u64 = 0;
    let mut overflow = false;
    let mut i: usize = 0;
    while i < entries.len()
        invariant
            i <= entries.len(),
            index.wf(),
            ends_nondecreasing(entries@),
            index@ == replay(m0, gen, entries@, i as nat).0,
            pos == entry_start(entries@, i as int),
            !overflow ==> uncompacted == replay(m0, gen, entries@, i as nat).1,
            overflow ==> replay(m0, gen, entries@, i as nat).1 > u64::MAX,
        decreases entries.len() - i,
    {
        let new_pos = entries[i].end;
        if i > 0 {
            assert(entries@[i - 1].end <= entries@[i as int].end);
        }
        let ghost before = replay(m0, gen, entries@, i as nat);
        let mut stale: u64 = 0;
        let mut extra: u64 = 0;
        match &entries[i].command {
            Command::SetValue { key, value: _ } => {
                let previous = index.insert(key.clone(), CommandPos::from((gen, pos..new_pos)));
                if let Some(p) = previous {
                    stale = p.len;
                }
            },
            Command::Remove { key } => {
                let previous = index.remove(key.as_str());
                if let Some(p) = previous {
                    stale = p.len;
                }
                extra = new_pos - pos;
            },
        }
        assert(replay(m0, gen, entries@, (i + 1) as nat).1 == before.1 + stale + extra);
        if !overflow {
            match uncompacted.checked_add(stale) {
                Some(v) => match v.checked_add(extra) {
                    Some(w) => {
                        uncompacted = w;
                    },
                    None => {
                        overflow = true;
                    },
                },
                None => {
                    overflow = true;
                },
            }
        }
        pos = new_pos;
        i = i + 1;
    }
    if overflow {
        None
    } else {
        Some(uncompacted)
    }
}

/// Where `index` says the command that set `key` lies, if `key` is live.
pub open spec fn lookup(index: Map<Seq<char>, CommandPos>, key: Seq<char>) -> Option<CommandPos> {
    if index.contains_key(key) {
        Some(index[key])
    } else {
        None
    }
}

/// The index after recording a set command for `key` at `pos..end` of
/// generation `gen`.
pub open spec fn index_after_set(
    index: Map<Seq<char>, CommandPos>,
    key: Seq<char>,
    gen: u64,
    pos: u64,
    end: u64,
) -> Map<Seq<char>, CommandPos> {
    index.insert(key, CommandPos { gen, pos, len: (end - pos) as u64 })
}

/// A get after a set finds the command just written, whole.
pub proof fn law_get_after_set(
    index: Map<Seq<char>, CommandPos>,
    key: Seq<char>,
    gen: u64,
    pos: u64,
    end: u64,
)
    requires
        pos <= end,
    ensures
        lookup(index_after_set(index, key, gen, pos, end), key) == Some(
            CommandPos { gen, pos, len: (end - pos) as u64 },
        ),
        lookup(index_after_set(index, key, gen, pos, end), key).unwrap().pos + lookup(
            index_after_set(index, key, gen, pos, end),
            key,
        ).unwrap().len == end,
{
}

/// A get after a remove finds nothing.
pub proof fn law_get_after_remove(index: Map<Seq<char>, CommandPos>, key: Seq<char>)
    ensures
        lookup(index.remove(key), key) == None::<CommandPos>,
{
}

/// Setting or removing one key leaves where the others lie unchanged.
pub proof fn law_other_keys_stay(
    index: Map<Seq<char>, CommandPos>,
    key: Seq<char>,
    other: Seq<char>,
    gen: u64,
    pos: u64,
    end: u64,
)
    requires
        key != other,
    ensures
        lookup(index_after_set(index, key, gen, pos, end), other) == lookup(index, other),
        lookup(index.remove(key), other) == lookup(index, other),
{
}

/// Setting a key makes the command it replaces stale and only that one:
/// the stale count grows by the replaced command's length, or not at all
/// for a new key.
pub proof fn law_overwrite_makes_old_command_stale(
    index: Map<Seq<char>, CommandPos>,
    key: Seq<char>,
    old_pos: CommandPos,
)
    requires
        lookup(index, key) == Some(old_pos),
    ensures
        stale_len(index, key) == old_pos.len,
        stale_len(index.remove(key), key) == 0,
{
}

/// The index that recording the first `n` commands of `entries` one after
/// another builds from `index`, as the store does while it writes them to
/// the log of generation `gen`: a set is recorded where it was written, a
/// remove drops its key.
pub open spec fn record_all(
    index: Map<Seq<char>, CommandPos>,
    gen: u64,
    entries: Seq<LogEntry>,
    n: nat,
) -> Map<Seq<char>, CommandPos>
    decreases n,
{
    if n == 0 {
        index
    } else {
        let before = record_all(index, gen, entries, (n - 1) as nat);
        match entries[n - 1].command {
            Command::SetValue { key, value: _ } => index_after_set(
                before,
                key@,
                gen,
                entry_start(entries, n - 1),
                entries[n - 1].end,
            ),
            Command::Remove { key } => before.remove(key@),
        }
    }
}

/// Reopening recovers the index: replaying a log gives the index that
/// recording its commands built while they were written.
pub proof fn law_reopen_recovers_index(
    index: Map<Seq<char>, CommandPos>,
    gen: u64,
    entries: Seq<LogEntry>,
    n: nat,
)
    requires
        n <= entries.len(),
    ensures
        replay(index, gen, entries, n).0 == record_all(index, gen, entries, n),
    decreases n,
{
    if n > 0 {
        law_reopen_recovers_index(index, gen, entries, (n - 1) as nat);
    }
}

/// The index that recording, generation after generation, the commands of
/// the first `n` logs builds from an empty index.
pub open spec fn record_history(gens: Seq<u64>, logs: Seq<Seq<LogEntry>>, n: nat) -> Map<
    Seq<char>,
    CommandPos,
>
    decreases n,
{
    if n == 0 {
        Map::empty()
    } else {
        let i = n - 1;
        record_all(record_history(gens, logs, i as nat), gens[i], logs[i], logs[i].len())
    }
}

/// Reopening recovers the index across generations: opening a directory
/// whose logs were written generation after generation gives the index
/// that recording all their commands built.
pub proof fn law_reopen_recovers_history(gens: Seq<u64>, logs: Seq<Seq<LogEntry>>, n: nat)
    requires
        n <= gens.len(),
        n <= logs.len(),
    ensures
        open_index(gens, logs, n) == record_history(gens, logs, n),
    decreases n,
{
    if n > 0 {
        let i = (n - 1) as nat;
        law_reopen_recovers_history(gens, logs, i);
        law_reopen_recovers_index(open_index(gens, logs, i), gens[i as int], logs[i as int], logs[i as int].len());
    }
}

/// The command at place `j` of the log `entries` of generation `gen` sets
/// the key `k`, and `cp` is where it lies.
pub open spec fn set_command_at(
    entries: Seq<LogEntry>,
    j: int,
    k: Seq<char>,
    gen: u64,
    cp: CommandPos,
) -> bool {
    &&& 0 <= j < entries.len()
    &&& entries[j].command is SetValue
    &&& entries[j].command->SetValue_key@ == k
    &&& cp == CommandPos {
        gen,
        pos: entry_start(entries, j),
        len: (entries[j].end - entry_start(entries, j)) as u64,
    }
}

/// After a replay, each key either keeps what the index held or points at
/// a set command for that very key in the replayed log; so a get reads
/// back that command's value.
pub proof fn law_replay_points_at_set_commands(
    m: Map<Seq<char>, CommandPos>,
    gen: u64,
    entries: Seq<LogEntry>,
    n: nat,
)
    requires
        n <= entries.len(),
    ensures
        forall|k: Seq<char>|
            #[trigger] replay(m, gen, entries, n).0.contains_key(k) ==> (m.contains_key(k)
                && replay(m, gen, entries, n).0[k] == m[k]) || exists|j: int|
                j < n && set_command_at(entries, j, k, gen, replay(m, gen, entries, n).0[k]),
    decreases n,
{
    if n > 0 {
        law_replay_points_at_set_commands(m, gen, entries, (n - 1) as nat);
        let before = replay(m, gen, entries, (n - 1) as nat);
        let after = replay(m, gen, entries, n);
        assert forall|k: Seq<char>| #[trigger] after.0.contains_key(k) implies (m.contains_key(k)
            && after.0[k] == m[k]) || exists|j: int|
            j < n && set_command_at(entries, j, k, gen, after.0[k]) by {
            match entries[n - 1].command {
                Command::SetValue { key, value: _ } => {
                    if k == key@ {
                        assert(set_command_at(entries, n - 1, k, gen, after.0[k]));
                    } else {
                        assert(before.0.contains_key(k));
                        if !(m.contains_key(k) && before.0[k] == m[k]) {
                            let j = choose|j: int|
                                j < n - 1 && set_command_at(entries, j, k, gen, before.0[k]);
                            assert(set_command_at(entries, j, k, gen, after.0[k]));
                        }
                    }
                },
                Command::Remove { key } => {
                    assert(before.0.contains_key(k));
                    if !(m.contains_key(k) && before.0[k] == m[k]) {
                        let j = choose|j: int|
                            j < n - 1 && set_command_at(entries, j, k, gen, before.0[k]);
                        assert(set_command_at(entries, j, k, gen, after.0[k]));
                    }
                },
            }
        }
    }
}

/// Every key of an opened store points at a set command for that very key
/// in one of the logs, lying where the index says.
pub proof fn law_open_points_at_set_commands(gens: Seq<u64>, logs: Seq<Seq<LogEntry>>, n: nat)
    requires
        n <= gens.len(),
        n <= logs.len(),
    ensures
        forall|k: Seq<char>|
            #[trigger] open_index(gens, logs, n).contains_key(k) ==> exists|i: int, j: int|
                0 <= i < n && set_command_at(
                    logs[i],
                    j,
                    k,
                    gens[i],
                    open_index(gens, logs, n)[k],
                ),
    decreases n,
{
    if n > 0 {
        let p = (n - 1) as nat;
        law_open_points_at_set_commands(gens, logs, p);
        let before = open_index(gens, logs, p);
        let after = open_index(gens, logs, n);
        law_replay_points_at_set_commands(before, gens[p as int], logs[p as int], logs[p as int].len());
        assert forall|k: Seq<char>| #[trigger] after.contains_key(k) implies exists|i: int, j: int|
            0 <= i < n && set_command_at(logs[i], j, k, gens[i], after[k]) by {
            if before.contains_key(k) && after[k] == before[k] {
                let (i, j) = choose|i: int, j: int|
                    0 <= i < p && set_command_at(logs[i], j, k, gens[i], before[k]);
                assert(set_command_at(logs[i], j, k, gens[i], after[k]));
            } else {
                let j = choose|j: int|
                    j < logs[p as int].len() && set_command_at(
                        logs[p as int],
                        j,
                        k,
                        gens[p as int],
                        after[k],
                    );
                assert(set_command_at(logs[p as int], j, k, gens[p as int], after[k]));
            }
        }
    }
}

/// The compaction log of keys `keys` and copy lengths `copied`: its command
/// at place `i` sets `keys[i]` and ends where the first `i + 1` copies end.
pub open spec fn is_compaction_log(
    entries: Seq<LogEntry>,
    keys: Seq<Seq<char>>,
    copied: Seq<u64>,
) -> bool {
    &&& entries.len() == keys.len()
    &&& copied.len() == keys.len()
    &&& forall|i: int|
        0 <= i < entries.len() ==> (#[trigger] entries[i]).end == prefix_sum(copied, i + 1)
            && entries[i].command is SetValue && entries[i].command->SetValue_key@ == keys[i]
}

proof fn lemma_compaction_log_prefix(
    entries: Seq<LogEntry>,
    keys: Seq<Seq<char>>,
    copied: Seq<u64>,
    compaction_gen: u64,
    m: nat,
)
    requires
        strictly_sorted(keys),
        is_compaction_log(entries, keys, copied),
        prefix_sum(copied, copied.len() as int) <= u64::MAX,
        m <= keys.len(),
    ensures
        replay(Map::empty(), compaction_gen, entries, m).0.dom() == keys.take(m as int).to_set(),
        forall|i: int|
            0 <= i < m ==> replay(Map::empty(), compaction_gen, entries, m).0[#[trigger] keys[i]]
                == (CommandPos {
                gen: compaction_gen,
                pos: prefix_sum(copied, i) as u64,
                len: copied[i],
            }),
    decreases m,
{
    let r = replay(Map::empty(), compaction_gen, entries, m).0;
    if m == 0 {
        assert(keys.take(0).to_set() =~= Set::<Seq<char>>::empty());
        assert(r.dom() =~= Set::<Seq<char>>::empty());
    } else {
        let p = (m - 1) as nat;
        lemma_compaction_log_prefix(entries, keys, copied, compaction_gen, p);
        let before = replay(Map::empty(), compaction_gen, entries, p).0;
        lemma_prefix_sum_monotone(copied, p as int, m as int);
        lemma_prefix_sum_monotone(copied, m as int, copied.len() as int);
        lemma_prefix_sum_monotone(copied, 0, p as int);
        if p > 0 {
            assert(entries[p - 1].end == prefix_sum(copied, p as int));
        }
        assert(entry_start(entries, p as int) == prefix_sum(copied, p as int));
        assert(entries[p as int].end == prefix_sum(copied, m as int));
        assert(keys.take(m as int) =~= keys.take(p as int).push(keys[p as int]));
        keys.take(p as int).lemma_push_to_set_commute(keys[p as int]);
        assert(r.dom() =~= keys.take(m as int).to_set());
        assert forall|i: int| 0 <= i < m implies r[#[trigger] keys[i]] == (CommandPos {
            gen: compaction_gen,
            pos: prefix_sum(copied, i) as u64,
            len: copied[i],
        }) by {
            if i < p {
                lemma_sorted_distinct(keys, i, p as int);
            }
        }
    }
}

/// Reopening after a compaction recovers the compacted index: replaying
/// the compaction log, which holds the live commands in key order one
/// after another, gives exactly the index that the compaction recorded
/// (`relocate` of every command), each key pointing at its own copied set
/// command, so it keeps the value that command holds.
pub proof fn law_compaction_log_replays_to_relocated_index(
    entries: Seq<LogEntry>,
    keys: Seq<Seq<char>>,
    copied: Seq<u64>,
    compaction_gen: u64,
)
    requires
        strictly_sorted(keys),
        is_compaction_log(entries, keys, copied),
        prefix_sum(copied, copied.len() as int) <= u64::MAX,
    ensures
        replay(Map::empty(), compaction_gen, entries, entries.len()).0.dom() == keys.to_set(),
        forall|i: int|
            0 <= i < keys.len() ==> replay(Map::empty(), compaction_gen, entries, entries.len()).0[
                #[trigger] keys[i]] == (CommandPos {
                gen: compaction_gen,
                pos: prefix_sum(copied, i) as u64,
                len: copied[i],
            }),
        forall|i: int|
            0 <= i < keys.len() ==> set_command_at(
                entries,
                i,
                keys[i],
                compaction_gen,
                #[trigger] replay(Map::empty(), compaction_gen, entries, entries.len()).0[keys[i]],
            ),
{
    lemma_compaction_log_prefix(entries, keys, copied, compaction_gen, keys.len());
    assert(keys.take(keys.len() as int) =~= keys);
    assert forall|i: int| 0 <= i < keys.len() implies set_command_at(
        entries,
        i,
        keys[i],
        compaction_gen,
        #[trigger] replay(Map::empty(), compaction_gen, entries, entries.len()).0[keys[i]],
    ) by {
        lemma_prefix_sum_monotone(copied, i + 1, copied.len() as int);
        lemma_prefix_sum_monotone(copied, 0, i);
        if i > 0 {
            assert(entries[i - 1].end == prefix_sum(copied, i));
        }
        assert(entries[i].end == prefix_sum(copied, i + 1));
    }
}

/// A set of a new key followed by its remove gives the index back, and the
/// key is then absent, so a second remove fails with `KeyNotFound`; the
/// set made nothing stale and the remove makes the set command stale.
pub proof fn law_set_then_remove_restores_index(
    index: Map<Seq<char>, CommandPos>,
    key: Seq<char>,
    gen: u64,
    pos: u64,
    end: u64,
)
    requires
        !index.contains_key(key),
        pos <= end,
    ensures
        index_after_set(index, key, gen, pos, end).remove(key) == index,
        !index_after_set(index, key, gen, pos, end).remove(key).contains_key(key),
        stale_len(index, key) == 0,
        stale_len(index_after_set(index, key, gen, pos, end), key) == end - pos,
{
    assert(index_after_set(index, key, gen, pos, end).remove(key) =~= index);
}

/// How many stale bytes the logs may hold before a compaction is due.
pub const COMPACTION_THRESHOLD: u64 = 1024 * 1024;

/// The index built by replaying, in turn, the first `n` logs of `logs`, the
/// one at place `i` being of generation `gens[i]`.
pub open spec fn open_index(gens: Seq<u64>, logs: Seq<Seq<LogEntry>>, n: nat) -> Map<
    Seq<char>,
    CommandPos,
>
    decreases n,
{
    if n == 0 {
        Map::empty()
    } else {
        let i = n - 1;
        replay(open_index(gens, logs, i as nat), gens[i], logs[i], logs[i].len()).0
    }
}

/// The count of stale bytes that loading the log at place `i` gives.
pub open spec fn load_stale(gens: Seq<u64>, logs: Seq<Seq<LogEntry>>, i: nat) -> int {
    replay(open_index(gens, logs, i), gens[i as int], logs[i as int], logs[i as int].len()).1
}

/// The stale bytes of the first `n` logs: the counts of their loads, added
/// up.
pub open spec fn total_stale(gens: Seq<u64>, logs: Seq<Seq<LogEntry>>, n: nat) -> int
    decreases n,
{
    if n == 0 {
        0
    } else {
        total_stale(gens, logs, (n - 1) as nat) + load_stale(gens, logs, (n - 1) as nat)
    }
}

/// Loads count no negative amounts, so the total grows with the logs.
pub proof fn lemma_total_stale_monotone(gens: Seq<u64>, logs: Seq<Seq<LogEntry>>, i: nat, n: nat)
    requires
        i <= n <= logs.len(),
        n <= gens.len(),
        forall|j: int| 0 <= j < logs.len() ==> ends_nondecreasing(#[trigger] logs[j]),
    ensures
        0 <= total_stale(gens, logs, i) <= total_stale(gens, logs, n),
    decreases n,
{
    if n > 0 {
        let m = (n - 1) as nat;
        lemma_total_stale_monotone(gens, logs, if i == n { m } else { i }, m);
        lemma_replay_stale_monotone(open_index(gens, logs, m), gens[m as int], logs[m as int], 0, logs[m as int].len());
    }
}

/// Opening the logs `logs` of generations `gens` stays within 64 bits: the
/// stale bytes of all logs add up to at most `u64::MAX`, and the last
/// generation leaves room for the next.
pub open spec fn open_fits(gens: Seq<u64>, logs: Seq<Seq<LogEntry>>) -> bool {
    &&& total_stale(gens, logs, gens.len()) <= u64::MAX
    &&& gens.len() > 0 ==> gens.last() < u64::MAX
}

/// Opening fails only where a number would not fit in 64 bits: the stale
/// bytes of all logs together, or the generation after the last. Which
/// generations the logs have, and in which order, never makes it fail; a
/// directory left by a compaction (say generations 3 and 4) opens.
pub proof fn law_open_fails_only_on_overflow(gens: Seq<u64>, logs: Seq<Seq<LogEntry>>)
    ensures
        !open_fits(gens, logs) <==> (total_stale(gens, logs, gens.len()) > u64::MAX || (gens.len()
            > 0 && gens.last() == u64::MAX)),
{
}

/// The generation of the log that an opened store writes to: one past the
/// last generation found, or 1 when none was.
pub open spec fn opened_gen(gens: Seq<u64>) -> int {
    if gens.len() == 0 {
        1
    } else {
        gens.last() + 1
    }
}

/// When the generations found are in ascending order, the generation that
/// an opened store writes to is newer than all of them: new commands never
/// go to an existing log.
pub proof fn law_opened_gen_is_fresh(gens: Seq<u64>)
    requires
        sorted_u64(gens),
    ensures
        forall|i: int| 0 <= i < gens.len() ==> gens[i] < opened_gen(gens),
        !gens.contains(opened_gen(gens) as u64) || opened_gen(gens) > u64::MAX,
{
    if gens.len() > 0 {
        assert forall|i: int| 0 <= i < gens.len() implies gens[i] < opened_gen(gens) by {
            assert(gens[i] <= gens[gens.len() - 1]);
        }
    }
}

/// The sum of the first `i` lengths of `lens`.
pub open spec fn prefix_sum(lens: Seq<u64>, i: int) -> int
    decreases i,
{
    if i <= 0 {
        0
    } else {
        prefix_sum(lens, i - 1) + lens[i - 1]
    }
}

/// Prefix sums grow with the prefix.
pub proof fn lemma_prefix_sum_monotone(lens: Seq<u64>, i: int, j: int)
    requires
        0 <= i <= j <= lens.len(),
    ensures
        0 <= prefix_sum(lens, i) <= prefix_sum(lens, j),
    decreases j,
{
    if i < j {
        lemma_prefix_sum_monotone(lens, i, j - 1);
    } else if i > 0 {
        lemma_prefix_sum_monotone(lens, i - 1, i - 1);
    }
}

/// The value a command read back for a `get` yields: the value of a set
/// command; any other command is an error.
pub fn command_value(command: Command) -> (r: Result<String>)
    ensures
        match command {
            Command::SetValue { key: _, value } => (r matches Ok(v) && v == value),
            Command::Remove { key: _ } => r matches Err(KvsError::UnexpectedCommandType),
        },
{
    match command {
        Command::SetValue { key: _, value } => Ok(value),
        Command::Remove { key: _ } => Err(KvsError::UnexpectedCommandType),
    }
}

/// Pushing a value that is not in a list of distinct values keeps them
/// distinct and adds just that value.
proof fn lemma_push_fresh(s: Seq<u64>, g: u64)
    requires
        s.no_duplicates(),
        !s.contains(g),
    ensures
        s.push(g).no_duplicates(),
        forall|x: u64| #[trigger] s.push(g).contains(x) <==> s.contains(x) || x == g,
{
    let t = s.push(g);
    assert forall|x: u64| #[trigger] t.contains(x) <==> s.contains(x) || x == g by {
        if t.contains(x) {
            let i = choose|i: int| 0 <= i < t.len() && t[i] == x;
            if i < s.len() {
                assert(s[i] == x);
            }
        }
        if s.contains(x) {
            let i = choose|i: int| 0 <= i < s.len() && s[i] == x;
            assert(t[i] == x);
        }
        if x == g {
            assert(t[s.len() as int] == x);
        }
    }
    assert forall|a: int, b: int| 0 <= a < b < t.len() implies t[a] != t[b] by {
        if b == s.len() {
            assert(s.contains(t[a]));
        }
    }
}

/// Adds `g` to the list of generations `gens`, unless it is there already.
fn push_unique(gens: &mut Vec<u64>, g: u64)
    requires
        old(gens)@.no_duplicates(),
    ensures
        final(gens)@.no_duplicates(),
        final(gens)@.to_set() == old(gens)@.to_set().insert(g),
{
    let mut j: usize = 0;
    while j < gens.len()
        invariant
            j <= gens.len(),
            gens@ == old(gens)@,
            gens@.no_duplicates(),
            forall|t: int| 0 <= t < j ==> gens@[t] != g,
        decreases gens.len() - j,
    {
        if gens[j] == g {
            assert(gens@.to_set() =~= gens@.to_set().insert(g));
            return;
        }
        j = j + 1;
    }
    let ghost before = gens@;
    proof {
        lemma_push_fresh(before, g);
        before.lemma_push_to_set_commute(g);
    }
    gens.push(g);
}

/// Splits the list of distinct generations `gens` into those at or after
/// `compaction_gen` and those before it.
fn split_gens(gens: &Vec<u64>, compaction_gen: u64) -> (r: (Vec<u64>, Vec<u64>))
    requires
        gens@.no_duplicates(),
    ensures
        r.0@.no_duplicates(),
        r.1@.no_duplicates(),
        forall|x: u64| #[trigger] r.0@.contains(x) <==> (gens@.contains(x) && x >= compaction_gen),
        forall|x: u64| #[trigger] r.1@.contains(x) <==> (gens@.contains(x) && x < compaction_gen),
{
        let mut kept: Vec<u64> = Vec::new();
        let mut stale: Vec<u64> = Vec::new();
        let mut i: usize = 0;
        while i < gens.len()
            invariant
                i <= gens.len(),
                gens@.no_duplicates(),
                kept@.no_duplicates(),
                stale@.no_duplicates(),
                forall|x: u64|
                    kept@.contains(x) <==> (gens@.subrange(0, i as int).contains(x) && x
                        >= compaction_gen),
                forall|x: u64|
                    stale@.contains(x) <==> (gens@.subrange(0, i as int).contains(x) && x
                        < compaction_gen),
            decreases gens.len() - i,
        {
            let g = gens[i];
            let ghost prefix = gens@.subrange(0, i as int);
            let ghost next = gens@.subrange(0, i + 1);
            proof {
                assert(next =~= prefix.push(g));
                assert forall|x: u64| next.contains(x) <==> prefix.contains(x) || x == g by {
                    if next.contains(x) {
                        let t = choose|t: int| 0 <= t < next.len() && next[t] == x;
                        if t < i {
                            assert(prefix[t] == x);
                        }
                    }
                    if prefix.contains(x) {
                        let t = choose|t: int| 0 <= t < prefix.len() && prefix[t] == x;
                        assert(next[t] == x);
                    }
                    if x == g {
                        assert(next[i as int] == x);
                    }
                }
                assert(!prefix.contains(g));
            }
            let ghost kept_before = kept@;
            let ghost stale_before = stale@;
            if g < compaction_gen {
                proof {
                    lemma_push_fresh(stale_before, g);
                }
                stale.push(g);
            } else {
                proof {
                    lemma_push_fresh(kept_before, g);
                }
                kept.push(g);
            }
            assert forall|x: u64| kept@.contains(x) <==> (next.contains(x) && x >= compaction_gen) by {
                assert(kept_before.contains(x) <==> (prefix.contains(x) && x >= compaction_gen));
            }
            assert forall|x: u64| stale@.contains(x) <==> (next.contains(x) && x < compaction_gen) by {
                assert(stale_before.contains(x) <==> (prefix.contains(x) && x < compaction_gen));
            }
            i = i + 1;
        }
        proof {
            assert(gens@.subrange(0, gens@.len() as int) =~= gens@);
        }
        (kept, stale)
}

/// The in-memory state of the log-structured store: the index of live
/// commands in ascending key order, the generation that new commands go
/// to, the number of stale bytes a compaction would reclaim, and the
/// generations whose logs are open for reading.
pub struct KvStore {
    index: KeyIndex,
    current_gen: u64,
    uncompacted: u64,
    gens: Vec<u64>,
}

/// What a `KvStore` holds, as mathematical values.
pub struct KvStoreView {
    /// Where the command that set each live key lies.
    pub index: Map<Seq<char>, CommandPos>,
    /// The live keys in ascending order.
    pub keys: Seq<Seq<char>>,
    /// The generation that new commands are written to.
    pub current_gen: u64,
    /// The number of stale bytes in the logs.
    pub uncompacted: u64,
    /// The generations whose logs are open for reading.
    pub gens: Set<u64>,
}

impl View for KvStore {
    type V = KvStoreView;

    closed spec fn view(&self) -> KvStoreView {
        KvStoreView {
            index: self.index@,
            keys: self.index.keys(),
            current_gen: self.current_gen,
            uncompacted: self.uncompacted,
            gens: self.gens@.to_set(),
        }
    }
}

impl KvStore {
    /// The index is well formed, the open generations are listed once each,
    /// and each live command lies in an open generation.
    pub closed spec fn wf(&self) -> bool {
        &&& self.index.wf()
        &&& self.gens@.no_duplicates()
        &&& forall|k: Seq<char>|
            #[trigger] self.index@.contains_key(k) ==> self.gens@.contains(self.index@[k].gen)
        &&& forall|i: int| 0 <= i < self.gens@.len() ==> self.gens@[i] <= self.current_gen
    }

    /// In a well-formed store the keys are in strictly ascending order and
    /// are exactly the live keys, and every live command lies in a
    /// generation whose log is open for reading.
    pub proof fn lemma_wf(&self)
        requires
            self.wf(),
        ensures
            strictly_sorted(self@.keys),
            forall|k: Seq<char>| #[trigger]
                self@.index.contains_key(k) <==> self@.keys.contains(k),
            forall|k: Seq<char>| #[trigger]
                self@.index.contains_key(k) ==> self@.gens.contains(self@.index[k].gen),
            forall|g: u64| #[trigger] self@.gens.contains(g) ==> g <= self@.current_gen,
    {
        assert forall|k: Seq<char>| #[trigger]
            self@.index.contains_key(k) <==> self@.keys.contains(k) by {
            assert(self.index@.contains_key(k) <==> self.index.keys().contains(k));
        }
    }

    /// Builds the state of a store whose directory holds the logs `logs` of
    /// the generations `gen_list`, in that order: each log is replayed into
    /// the index, the stale count adds up the stale bytes of every log, and a new
    /// generation one past the last is opened for writing. `None` where a
    /// count or the new generation does not fit in 64 bits.
    pub fn open(gen_list: &Vec<u64>, logs: &Vec<Vec<LogEntry>>) -> (r: Option<KvStore>)
        requires
            gen_list.len() == logs.len(),
            sorted_u64(gen_list@),
            forall|i: int| 0 <= i < logs.len() ==> ends_nondecreasing(#[trigger] logs@[i]@),
        ensures
            r is None <==> (total_stale(
                gen_list@,
                logs@.map_values(|v: Vec<LogEntry>| v@),
                gen_list.len() as nat,
            ) > u64::MAX || (gen_list.len() > 0 && gen_list@.last() == u64::MAX)),
            r matches Some(s) ==> s@.current_gen == (if gen_list.len() == 0 {
                1
            } else {
                gen_list@.last() + 1
            }),
            match r {
                None => !open_fits(gen_list@, logs@.map_values(|v: Vec<LogEntry>| v@)),
                Some(s) => {
                    let ls = logs@.map_values(|v: Vec<LogEntry>| v@);
                    let n = gen_list.len();
                    &&& open_fits(gen_list@, ls)
                    &&& s.wf()
                    &&& s@.index == open_index(gen_list@, ls, n as nat)
                    &&& s@.current_gen == opened_gen(gen_list@)
                    &&& s@.uncompacted == total_stale(gen_list@, ls, n as nat)
                    &&& s@.gens == gen_list@.to_set().insert(s@.current_gen)
                    &&& !gen_list@.contains(s@.current_gen)
                },
            },
    {
        let ghost ls = logs@.map_values(|v: Vec<LogEntry>| v@);
        assert forall|j: int| 0 <= j < ls.len() implies ends_nondecreasing(#[trigger] ls[j]) by {
            assert(ls[j] == logs@[j]@);
        }
        let mut index = KeyIndex::new();
        let mut gens: Vec<u64> = Vec::new();
        let mut uncompacted: u64 = 0;
        let mut i: usize = 0;
        while i < gen_list.len()
            invariant
                i <= gen_list.len(),
                gen_list.len() == logs.len(),
                ls == logs@.map_values(|v: Vec<LogEntry>| v@),
                forall|j: int| 0 <= j < logs.len() ==> ends_nondecreasing(#[trigger] logs@[j]@),
                index.wf(),
                index@ == open_index(gen_list@, ls, i as nat),
                forall|j: int| 0 <= j < ls.len() ==> ends_nondecreasing(#[trigger] ls[j]),
                uncompacted == total_stale(gen_list@, ls, i as nat),
                gens@.no_duplicates(),
                gens@.to_set() == gen_list@.subrange(0, i as int).to_set(),
                forall|k: Seq<char>| #[trigger]
                    index@.contains_key(k) ==> gens@.contains(index@[k].gen),
            decreases gen_list.len() - i,
        {
            let gen = gen_list[i];
            let ghost before = index@;
            assert(ls[i as int] == logs@[i as int]@);
            let loaded = load(gen, &logs[i], &mut index);
            proof {
                lemma_replay_gens(before, gen, ls[i as int], ls[i as int].len());
                lemma_replay_stale_monotone(before, gen, ls[i as int], 0, ls[i as int].len());
            }
            match loaded {
                None => {
                    proof {
                        lemma_total_stale_monotone(gen_list@, ls, i as nat, gen_list.len() as nat);
                        lemma_total_stale_monotone(
                            gen_list@,
                            ls,
                            (i + 1) as nat,
                            gen_list.len() as nat,
                        );
                    }
                    return None;
                },
                Some(u) => {
                    assert(load_stale(gen_list@, ls, i as nat) == u);
                    match uncompacted.checked_add(u) {
                        Some(w) => {
                            uncompacted = w;
                        },
                        None => {
                            proof {
                                lemma_total_stale_monotone(
                                    gen_list@,
                                    ls,
                                    (i + 1) as nat,
                                    gen_list.len() as nat,
                                );
                            }
                            return None;
                        },
                    }
                },
            }
            let ghost gens_before = gens@;
            push_unique(&mut gens, gen);
            proof {
                assert(gen_list@.subrange(0, i + 1) =~= gen_list@.subrange(0, i as int).push(gen));
                gen_list@.subrange(0, i as int).lemma_push_to_set_commute(gen);
                assert forall|k: Seq<char>| #[trigger]
                    index@.contains_key(k) implies gens@.contains(index@[k].gen) by {
                    if before.contains_key(k) && index@[k] == before[k] {
                        assert(gens_before.contains(index@[k].gen));
                        assert(gens@.to_set().contains(index@[k].gen));
                    } else {
                        assert(gens@.to_set().contains(gen));
                    }
                }
            }
            i = i + 1;
        }
        proof {
            assert(gen_list@.subrange(0, gen_list.len() as int) =~= gen_list@);
        }
        let n = gen_list.len();
        let current_gen = if n == 0 {
            1
        } else {
            let last = gen_list[n - 1];
            if last == u64::MAX {
                return None;
            }
            last + 1
        };
        let ghost listed = gens@;
        push_unique(&mut gens, current_gen);
        proof {
            assert forall|k: Seq<char>| #[trigger]
                index@.contains_key(k) implies gens@.contains(index@[k].gen) by {
                assert(gens@.to_set().contains(index@[k].gen));
            }
            law_opened_gen_is_fresh(gen_list@);
            assert forall|i: int| 0 <= i < gens@.len() implies gens@[i] <= current_gen by {
                assert(gens@.to_set().contains(gens@[i]));
                if gens@[i] != current_gen {
                    assert(listed.to_set().contains(gens@[i]));
                    assert(gen_list@.to_set().contains(gens@[i]));
                }
            }
        }
        Some(KvStore { index, current_gen, uncompacted, gens })
    }

    /// The generation that new commands are written to.
    pub fn current_gen(&self) -> (g: u64)
        ensures
            g == self@.current_gen,
    {
        self.current_gen
    }

    /// The number of stale bytes in the logs.
    pub fn uncompacted(&self) -> (u: u64)
        ensures
            u == self@.uncompacted,
    {
        self.uncompacted
    }

    /// Whether the log of generation `gen` is open for reading.
    pub fn has_generation(&self, gen: u64) -> (b: bool)
        ensures
            b == self@.gens.contains(gen),
    {
        let mut j: usize = 0;
        while j < self.gens.len()
            invariant
                j <= self.gens.len(),
                forall|t: int| 0 <= t < j ==> self.gens@[t] != gen,
            decreases self.gens.len() - j,
        {
            if self.gens[j] == gen {
                return true;
            }
            j = j + 1;
        }
        false
    }

    /// Whether enough stale bytes have piled up for a compaction.
    pub fn needs_compaction(&self) -> (b: bool)
        ensures
            b == (self@.uncompacted > COMPACTION_THRESHOLD),
    {
        self.uncompacted > COMPACTION_THRESHOLD
    }

    /// Whether `key` is live.
    pub fn contains_key(&self, key: &str) -> (b: bool)
        ensures
            b == self@.index.contains_key(key@),
    {
        self.index.contains_key(key)
    }

    /// Where the command that set `key` lies, if `key` is live.
    pub fn get(&self, key: &str) -> (r: Option<CommandPos>)
        ensures
            r == lookup(self@.index, key@),
    {
        self.index.get(key)
    }

    /// The command that removes `key`, which is only written when `key` is
    /// live; otherwise the removal fails with `KeyNotFound`.
    pub fn remove_command(&self, key: String) -> (r: Result<Command>)
        ensures
            self@.index.contains_key(key@) ==> (r matches Ok(c) && c == (Command::Remove { key })),
            !self@.index.contains_key(key@) ==> r matches Err(KvsError::KeyNotFound),
    {
        if self.index.contains_key(key.as_str()) {
            Ok(Command::remove(key))
        } else {
            Err(KvsError::KeyNotFound)
        }
    }

    /// Records that the set command for `key` was written at `pos..end` of
    /// the current generation's log. The command it replaces, if any,
    /// becomes stale. Gives back whether a compaction is now due.
    pub fn record_set(&mut self, key: String, pos: u64, end: u64) -> (compact: bool)
        requires
            old(self).wf(),
            pos <= end,
            old(self)@.gens.contains(old(self)@.current_gen),
            old(self)@.uncompacted + stale_len(old(self)@.index, key@) <= u64::MAX,
        ensures
            final(self).wf(),
            final(self)@.index == index_after_set(old(self)@.index, key@, old(self)@.current_gen, pos, end),
            final(self)@.uncompacted == old(self)@.uncompacted + stale_len(old(self)@.index, key@),
            final(self)@.current_gen == old(self)@.current_gen,
            final(self)@.gens == old(self)@.gens,
            compact == (final(self)@.uncompacted > COMPACTION_THRESHOLD),
    {
        let pos = CommandPos::from((self.current_gen, pos..end));
        let previous = self.index.insert(key, pos);
        if let Some(p) = previous {
            self.uncompacted = self.uncompacted + p.len;
        }
        proof {
            assert forall|k: Seq<char>| #[trigger]
                self.index@.contains_key(k) implies self.gens@.contains(self.index@[k].gen) by {
                assert(self.gens@.to_set().contains(self.current_gen));
                if old(self).index@.contains_key(k) {
                    assert(self.gens@.contains(old(self).index@[k].gen));
                }
            }
        }
        self.uncompacted > COMPACTION_THRESHOLD
    }

    /// Records that a remove command for the live key `key` was written:
    /// the key leaves the index and the command that set it becomes stale.
    pub fn record_remove(&mut self, key: &str)
        requires
            old(self).wf(),
            old(self)@.index.contains_key(key@),
            old(self)@.uncompacted + old(self)@.index[key@].len <= u64::MAX,
        ensures
            final(self).wf(),
            final(self)@.index == old(self)@.index.remove(key@),
            final(self)@.uncompacted == old(self)@.uncompacted + old(self)@.index[key@].len,
            final(self)@.current_gen == old(self)@.current_gen,
            final(self)@.gens == old(self)@.gens,
    {
        let previous = self.index.remove(key);
        if let Some(p) = previous {
            self.uncompacted = self.uncompacted + p.len;
        }
        proof {
            assert forall|k: Seq<char>| #[trigger]
                self.index@.contains_key(k) implies self.gens@.contains(self.index@[k].gen) by {
                assert(old(self).index@.contains_key(k));
            }
        }
    }

    /// Starts a compaction: the generation after the current one receives
    /// the compacted commands and the one after that receives new commands.
    /// Gives back the compaction's generation.
    pub fn begin_compaction(&mut self) -> (compaction_gen: u64)
        requires
            old(self).wf(),
            old(self)@.current_gen + 2 <= u64::MAX,
        ensures
            final(self).wf(),
            compaction_gen == old(self)@.current_gen + 1,
            final(self)@.current_gen == old(self)@.current_gen + 2,
            final(self)@.index == old(self)@.index,
            final(self)@.keys == old(self)@.keys,
            final(self)@.uncompacted == old(self)@.uncompacted,
            final(self)@.gens == old(self)@.gens,
            !old(self)@.gens.contains(compaction_gen),
            !old(self)@.gens.contains(final(self)@.current_gen),
    {
        proof {
            self.lemma_wf();
        }
        let compaction_gen = self.current_gen + 1;
        self.current_gen = self.current_gen + 2;
        compaction_gen
    }

    /// Records that the log of generation `gen` is open for reading.
    pub fn add_generation(&mut self, gen: u64)
        requires
            old(self).wf(),
            gen <= old(self)@.current_gen,
        ensures
            final(self).wf(),
            final(self)@.gens == old(self)@.gens.insert(gen),
            final(self)@.index == old(self)@.index,
            final(self)@.keys == old(self)@.keys,
            final(self)@.current_gen == old(self)@.current_gen,
            final(self)@.uncompacted == old(self)@.uncompacted,
    {
        let ghost before = self.gens@;
        push_unique(&mut self.gens, gen);
        proof {
            assert forall|k: Seq<char>| #[trigger]
                self.index@.contains_key(k) implies self.gens@.contains(self.index@[k].gen) by {
                assert(before.contains(self.index@[k].gen));
                assert(self.gens@.to_set().contains(self.index@[k].gen));
            }
            assert forall|i: int| 0 <= i < self.gens@.len() implies self.gens@[i]
                <= self.current_gen by {
                assert(self.gens@.to_set().contains(self.gens@[i]));
                if self.gens@[i] != gen {
                    assert(before.to_set().contains(self.gens@[i]));
                }
            }
        }
    }

    /// The positions of the live commands, in ascending order of their keys:
    /// the order in which a compaction copies them.
    pub fn compaction_entries(&self) -> (r: Vec<CommandPos>)
        requires
            self.wf(),
        ensures
            r@.len() == self@.keys.len(),
            forall|i: int| 0 <= i < r@.len() ==> r@[i] == self@.index[#[trigger] self@.keys[i]],
    {
        self.index.values_in_order()
    }

    /// Records that the first `copied.len()` live commands, in key order,
    /// were copied one after another to the start of the log of generation
    /// `compaction_gen`, the one at place `i` being `copied[i]` bytes long.
    pub fn relocate(&mut self, compaction_gen: u64, copied: &Vec<u64>)
        requires
            old(self).wf(),
            copied.len() <= old(self)@.keys.len(),
            old(self)@.gens.contains(compaction_gen),
            prefix_sum(copied@, copied.len() as int) <= u64::MAX,
        ensures
            final(self).wf(),
            final(self)@.keys == old(self)@.keys,
            final(self)@.index.dom() == old(self)@.index.dom(),
            forall|i: int|
                0 <= i < copied.len() ==> final(self)@.index[#[trigger] old(self)@.keys[i]] == (
                CommandPos {
                    gen: compaction_gen,
                    pos: prefix_sum(copied@, i) as u64,
                    len: copied@[i],
                }),
            forall|i: int|
                copied.len() <= i < old(self)@.keys.len() ==> final(self)@.index[#[trigger] old(
                    self,
                )@.keys[i]] == old(self)@.index[old(self)@.keys[i]],
            final(self)@.current_gen == old(self)@.current_gen,
            final(self)@.uncompacted == old(self)@.uncompacted,
            final(self)@.gens == old(self)@.gens,
    {
        let ghost keys = self.index.keys();
        let ghost m0 = self.index@;
        let mut new_pos: u64 = 0;
        let mut i: usize = 0;
        while i < copied.len()
            invariant
                i <= copied.len(),
                copied.len() <= keys.len(),
                self.wf(),
                self.index.keys() == keys,
                self.gens@.to_set().contains(compaction_gen),
                self.current_gen == old(self).current_gen,
                self.uncompacted == old(self).uncompacted,
                self.gens == old(self).gens,
                self.index@.dom() == m0.dom(),
                keys == old(self)@.keys,
                m0 == old(self)@.index,
                prefix_sum(copied@, copied.len() as int) <= u64::MAX,
                new_pos == prefix_sum(copied@, i as int),
                forall|j: int|
                    0 <= j < i ==> self.index@[#[trigger] keys[j]] == (CommandPos {
                        gen: compaction_gen,
                        pos: prefix_sum(copied@, j) as u64,
                        len: copied@[j],
                    }),
                forall|j: int| i <= j < keys.len() ==> self.index@[#[trigger] keys[j]] == m0[keys[j]],
            decreases copied.len() - i,
        {
            let len = copied[i];
            proof {
                lemma_prefix_sum_monotone(copied@, i + 1, copied.len() as int);
                lemma_prefix_sum_monotone(copied@, 0, i as int);
            }
            let ghost before = self.index@;
            self.index.set_at(i, CommandPos::from((compaction_gen, new_pos..new_pos + len)));
            proof {
                assert forall|j: int| 0 <= j < keys.len() && j != i implies self.index@[
                    #[trigger] keys[j]] == before[keys[j]] by {
                    lemma_sorted_distinct(keys, i as int, j);
                }
                assert forall|k: Seq<char>| #[trigger]
                    self.index@.contains_key(k) implies self.gens@.contains(self.index@[k].gen) by {
                    if k != keys[i as int] {
                        assert(before.contains_key(k));
                    }
                }
                assert(self.index@.dom() =~= m0.dom());
            }
            new_pos = new_pos + len;
            i = i + 1;
        }
    }

    /// The generations older than `compaction_gen` whose logs are open:
    /// the logs that a compaction into `compaction_gen` leaves stale.
    pub fn stale_generations(&self, compaction_gen: u64) -> (stale: Vec<u64>)
        requires
            self.wf(),
        ensures
            stale@.no_duplicates(),
            stale@.to_set() == self@.gens.filter(|g: u64| g < compaction_gen),
    {
        let (_, stale) = split_gens(&self.gens, compaction_gen);
        assert(stale@.to_set() =~= self@.gens.filter(|g: u64| g < compaction_gen));
        stale
    }

    /// Ends a compaction into generation `compaction_gen`, once every live
    /// command lies in it or later: the logs of the older generations are
    /// closed and no byte is stale any more.
    pub fn complete_compaction(&mut self, compaction_gen: u64)
        requires
            old(self).wf(),
            forall|k: Seq<char>| #[trigger]
                old(self)@.index.contains_key(k) ==> old(self)@.index[k].gen >= compaction_gen,
        ensures
            final(self).wf(),
            final(self)@.index == old(self)@.index,
            final(self)@.keys == old(self)@.keys,
            final(self)@.current_gen == old(self)@.current_gen,
            final(self)@.uncompacted == 0,
            final(self)@.gens == old(self)@.gens.filter(|g: u64| g >= compaction_gen),
    {
        let (kept, _) = split_gens(&self.gens, compaction_gen);
        proof {
            assert(kept@.to_set() =~= self.gens@.to_set().filter(|g: u64| g >= compaction_gen));
        }
        let ghost gens_before = self.gens@;
        self.gens = kept;
        self.uncompacted = 0;
        proof {
            assert forall|k: Seq<char>| #[trigger]
                self.index@.contains_key(k) implies self.gens@.contains(self.index@[k].gen) by {
                assert(old(self)@.index.contains_key(k));
                assert(self.index@[k].gen >= compaction_gen);
                assert(gens_before.contains(self.index@[k].gen));
            }
            assert forall|i: int| 0 <= i < self.gens@.len() implies self.gens@[i]
                <= self.current_gen by {
                assert(self.gens@.contains(self.gens@[i]));
                assert(gens_before.contains(self.gens@[i]));
                let t = choose|t: int| 0 <= t < gens_before.len() && gens_before[t] == self.gens@[i];
                assert(gens_before[t] <= self.current_gen);
            }
        }
    }
}

} // verus!
