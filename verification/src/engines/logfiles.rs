//! The names of generation log files: generation `g` is logged in the file
//! named `g.log`, and a directory listing yields its generations in order.

use vstd::prelude::*;
use crate::decimal::{
    decimal, is_digit, law_parse_decimal, lemma_decimal, parse_u64, parse_u64_spec,
    to_decimal,
};

verus! {

broadcast use vstd::seq_lib::group_to_multiset_ensures;

/// The extension of log files, with its dot.
pub open spec fn log_suffix() -> Seq<char> {
    seq!['.', 'l', 'o', 'g']
}

/// Whether `s` ends with `.log`.
pub open spec fn ends_with_log(s: Seq<char>) -> bool {
    s.len() >= 4 && s.subrange(s.len() - 4, s.len() as int) == log_suffix()
}

/// `s` with every trailing `.log` cut off.
pub open spec fn trim_log(s: Seq<char>) -> Seq<char>
    decreases s.len(),
{
    if ends_with_log(s) {
        trim_log(s.subrange(0, s.len() - 4))
    } else {
        s
    }
}

/// The generation that the file named `name` logs: the name must have the
/// extension `log` (a non-empty stem before `.log`), and what remains once
/// every trailing `.log` is cut off must read as a `u64`.
pub open spec fn log_file_gen(name: Seq<char>) -> Option<u64> {
    if ends_with_log(name) && name.len() > 4 {
        parse_u64_spec(trim_log(name))
    } else {
        None
    }
}

/// The name of the log file of generation `gen`.
pub open spec fn log_file_name_spec(gen: u64) -> Seq<char> {
    decimal(gen as nat) + log_suffix()
}

/// The generations that the files named `names` log, in the order of the
/// names, skipping the names that name no log.
pub open spec fn gens_of(names: Seq<String>) -> Seq<u64>
    decreases names.len(),
{
    if names.len() == 0 {
        Seq::empty()
    } else {
        let rest = gens_of(names.drop_last());
        match log_file_gen(names.last()@) {
            Some(g) => rest.push(g),
            None => rest,
        }
    }
}

/// The values of `s` never decrease.
pub open spec fn sorted_u64(s: Seq<u64>) -> bool {
    forall|i: int, j: int| 0 <= i <= j < s.len() ==> s[i] <= s[j]
}

/// The log file named for generation `gen` is read back as generation
/// `gen`.
pub proof fn law_log_file_name_round_trip(gen: u64)
    ensures
        log_file_gen(log_file_name_spec(gen)) == Some(gen),
{
    let d = decimal(gen as nat);
    let name = log_file_name_spec(gen);
    lemma_decimal(gen as nat);
    law_parse_decimal(gen);
    assert(name.subrange(name.len() - 4, name.len() as int) =~= log_suffix());
    assert(name.subrange(0, name.len() - 4) =~= d);
    assert(is_digit(d[d.len() - 1]));
    assert(!ends_with_log(d)) by {
        if ends_with_log(d) {
            assert(d.subrange(d.len() - 4, d.len() as int)[3] == d[d.len() - 1]);
        }
    }
    assert(trim_log(d) == d);
    assert(trim_log(name) == trim_log(d));
}

/// The log files made for the generations `gs` are read back as exactly
/// those generations, in the same order; so listing a directory holding
/// just them gives `gs` sorted (see `sorted_gen_list`).
pub proof fn law_log_files_list_their_generations(names: Seq<String>, gs: Seq<u64>)
    requires
        names.len() == gs.len(),
        forall|i: int| 0 <= i < names.len() ==> (#[trigger] names[i])@ == log_file_name_spec(gs[i]),
    ensures
        gens_of(names) == gs,
    decreases names.len(),
{
    if names.len() > 0 {
        let n = names.len() - 1;
        law_log_files_list_their_generations(names.drop_last(), gs.drop_last());
        law_log_file_name_round_trip(gs[n]);
        assert(names.last()@ == log_file_name_spec(gs[n]));
        assert(gs =~= gs.drop_last().push(gs[n]));
    }
}

/// The name of the log file of generation `gen`.
pub fn log_file_name(gen: u64) -> (name: String)
    ensures
        name@ == log_file_name_spec(gen),
{
    let mut name = to_decimal(gen);
    proof {
        reveal_strlit(".log");
    }
    name.append(".log");
    name
}

/// Whether `s` ends with `.log`.
fn has_log_suffix(s: &str) -> (b: bool)
    ensures
        b == ends_with_log(s@),
{
    let n = s.unicode_len();
    if n < 4 {
        return false;
    }
    let b = s.get_char(n - 4) == '.' && s.get_char(n - 3) == 'l' && s.get_char(n - 2) == 'o'
        && s.get_char(n - 1) == 'g';
    proof {
        let tail = s@.subrange(n - 4, n as int);
        if b {
            assert(tail =~= log_suffix());
        } else if tail == log_suffix() {
            assert(tail[0] == s@[n - 4] && tail[1] == s@[n - 3] && tail[2] == s@[n - 2] && tail[3]
                == s@[n - 1]);
        }
    }
    b
}

/// The generation that the file named `name` logs, if it is a log file
/// whose stem reads as a `u64`.
pub fn log_file_gen_of(name: &str) -> (r: Option<u64>)
    ensures
        r == log_file_gen(name@),
{
    if !has_log_suffix(name) || name.unicode_len() <= 4 {
        return None;
    }
    let mut stem: &str = name;
    while has_log_suffix(stem)
        invariant
            trim_log(stem@) == trim_log(name@),
        decreases stem@.len(),
    {
        let n = stem.unicode_len();
        stem = stem.substring_char(0, n - 4);
    }
    parse_u64(stem)
}

/// Inserts `g` into the sorted list `v`, keeping it sorted.
fn insert_sorted(v: &mut Vec<u64>, g: u64)
    requires
        sorted_u64(old(v)@),
    ensures
        sorted_u64(final(v)@),
        final(v)@.to_multiset() == old(v)@.to_multiset().insert(g),
{
    let mut p: usize = 0;
    while p < v.len() && v[p] <= g
        invariant
            p <= v.len(),
            v@ == old(v)@,
            forall|j: int| 0 <= j < p ==> v@[j] <= g,
        decreases v.len() - p,
    {
        p = p + 1;
    }
    let ghost before = v@;
    v.insert(p, g);
    proof {
        assert forall|i: int, j: int| 0 <= i <= j < v@.len() implies v@[i] <= v@[j] by {
            if i < p && j < p {
                assert(v@[i] == before[i] && v@[j] == before[j]);
            } else if i < p && j == p {
                assert(v@[i] == before[i]);
            } else if i < p {
                assert(v@[i] == before[i] && v@[j] == before[j - 1]);
            } else if i == p && j > p {
                assert(v@[j] == before[j - 1]);
                assert(before[p as int] > g);
            } else if i > p {
                assert(v@[i] == before[i - 1] && v@[j] == before[j - 1]);
            }
        }
    }
}

/// The generations that the files named `names` log, in ascending order.
pub fn sorted_gen_list(names: &Vec<String>) -> (gens: Vec<u64>)
    ensures
        sorted_u64(gens@),
        gens@.to_multiset() == gens_of(names@).to_multiset(),
{
    let mut gens: Vec<u64> = Vec::new();
    let mut i: usize = 0;
    while i < names.len()
        invariant
            i <= names.len(),
            sorted_u64(gens@),
            gens@.to_multiset() == gens_of(names@.take(i as int)).to_multiset(),
        decreases names.len() - i,
    {
        assert(names@.take(i + 1).drop_last() =~= names@.take(i as int));
        match log_file_gen_of(names[i].as_str()) {
            Some(g) => {
                insert_sorted(&mut gens, g);
            },
            None => {},
        }
        i = i + 1;
    }
    assert(names@.take(names.len() as int) =~= names@);
    gens
}

} // verus!
