//! What holds of the store as a whole: of encoding and decoding together, of
//! a log and its replay, and of a store and the log it is reopened from.

use crate::codec::{encodable, fits, lemma_parse_record_bytes, parse_record, record_bytes};
use crate::command::CommandView;
use crate::index::{apply_spec, replay_spec};
use crate::log::{
    all_encodable, lemma_parse_log_append, lemma_parse_record_local, log_bytes, parse_log,
};
use crate::store::KvStore;
use vstd::prelude::*;

verus! {

/// Decoding undoes encoding. Every command, whatever its strings hold, empty
/// ones and ones that look like records included, reads back from its own
/// record as itself, and the record is consumed to its last byte.
pub proof fn round_trip(c: CommandView)
    requires
        encodable(c),
    ensures
        parse_record(record_bytes(c)) == Some((c, record_bytes(c).len() as int)),
{
    lemma_parse_record_bytes(c, Seq::empty());
    assert(record_bytes(c) + Seq::<u8>::empty() =~= record_bytes(c));
}

/// A complete log is never taken for a corrupt one: the log written from a
/// sequence of commands replays as that sequence.
pub proof fn written_log_is_readable(cmds: Seq<CommandView>)
    requires
        all_encodable(cmds),
    ensures
        parse_log(log_bytes(cmds)) == Some(cmds),
    decreases cmds.len(),
{
    if cmds.len() > 0 {
        written_log_is_readable(cmds.drop_last());
        lemma_parse_log_append(log_bytes(cmds.drop_last()), cmds.last());
        assert(cmds.drop_last().push(cmds.last()) =~= cmds);
    }
}

/// Replay is a function of the log: two stores opened on the same readable
/// log hold the same keys with the same values.
pub proof fn replay_is_deterministic(log: Seq<u8>, first: KvStore, second: KvStore)
    requires
        parse_log(log) is Some,
        first.wf(),
        second.wf(),
        first.history() == parse_log(log).unwrap(),
        second.history() == parse_log(log).unwrap(),
    ensures
        first@ == second@,
{
}

/// Replaying a log with one more command at its end is replaying the log and
/// then applying that command.
pub proof fn replay_of_appended(m: Map<Seq<char>, Seq<char>>, cmds: Seq<CommandView>, c: CommandView)
    ensures
        replay_spec(m, cmds.push(c)) == apply_spec(replay_spec(m, cmds), c),
{
    assert(cmds.push(c).drop_last() =~= cmds);
}

/// A mutation survives a reopening. Once the record of a command stands at
/// the end of a readable log, a store opened on that log holds what the store
/// that was open before holds after applying the command; after a `Put`, it
/// holds the key with the value that was put.
pub proof fn mutation_survives_reopen(log: Seq<u8>, c: CommandView)
    requires
        parse_log(log) is Some,
        encodable(c),
    ensures
        parse_log(log + record_bytes(c)) == Some(parse_log(log).unwrap().push(c)),
        replay_spec(Map::empty(), parse_log(log + record_bytes(c)).unwrap()) == apply_spec(
            replay_spec(Map::empty(), parse_log(log).unwrap()),
            c,
        ),
        c matches CommandView::Put { key, value } ==> {
            let reopened = replay_spec(Map::empty(), parse_log(log + record_bytes(c)).unwrap());
            reopened.contains_key(key) && reopened[key] == value
        },
{
    lemma_parse_log_append(log, c);
    replay_of_appended(Map::empty(), parse_log(log).unwrap(), c);
}

/// Setting a key and then removing it leaves the key absent: the removal
/// finds the key, a read after it finds nothing, and a second removal finds
/// nothing to remove and changes nothing.
pub proof fn remove_after_set(m: Map<Seq<char>, Seq<char>>, key: Seq<char>, value: Seq<char>)
    ensures
        ({
            let set = apply_spec(m, CommandView::Put { key, value });
            let removed = apply_spec(set, CommandView::Remove { key });
            &&& set.contains_key(key) && set[key] == value
            &&& !removed.contains_key(key)
            &&& apply_spec(removed, CommandView::Remove { key }) == removed
        }),
{
    let set = apply_spec(m, CommandView::Put { key, value });
    let removed = apply_spec(set, CommandView::Remove { key });
    assert(apply_spec(removed, CommandView::Remove { key }) =~= removed);
}

/// The record of a removal is harmless on replay, whether or not the key was
/// there: a readable log stays readable with the record at its end, and the
/// replay of it holds what was held before, without the key.
pub proof fn logged_remove_replays(log: Seq<u8>, key: Seq<char>)
    requires
        parse_log(log) is Some,
        fits(key),
    ensures
        ({
            let before = parse_log(log).unwrap();
            let after = parse_log(log + record_bytes(CommandView::Remove { key }));
            &&& after == Some(before.push(CommandView::Remove { key }))
            &&& replay_spec(Map::empty(), after.unwrap()) == replay_spec(
                Map::empty(),
                before,
            ).remove(key)
            &&& !replay_spec(Map::empty(), after.unwrap()).contains_key(key)
        }),
{
    let c = CommandView::Remove { key };
    lemma_parse_log_append(log, c);
    replay_of_appended(Map::empty(), parse_log(log).unwrap(), c);
}

/// The `Put` commands of a sequence of key-value pairs.
pub open spec fn puts(pairs: Seq<(Seq<char>, Seq<char>)>) -> Seq<CommandView> {
    pairs.map_values(|p: (Seq<char>, Seq<char>)| CommandView::Put { key: p.0, value: p.1 })
}

/// No write is lost. After any number of sets of distinct keys, in whatever
/// order they reached the log, every one of the keys is held with its value.
pub proof fn distinct_sets_all_present(
    m: Map<Seq<char>, Seq<char>>,
    pairs: Seq<(Seq<char>, Seq<char>)>,
    i: int,
)
    requires
        forall|a: int, b: int| 0 <= a < b < pairs.len() ==> pairs[a].0 != pairs[b].0,
        0 <= i < pairs.len(),
    ensures
        replay_spec(m, puts(pairs)).contains_key(pairs[i].0),
        replay_spec(m, puts(pairs))[pairs[i].0] == pairs[i].1,
    decreases pairs.len(),
{
    let shorter = pairs.drop_last();
    assert(puts(pairs).drop_last() =~= puts(shorter));
    if i < pairs.len() - 1 {
        distinct_sets_all_present(m, shorter, i);
    }
}

/// The log of a command followed by others is the command's record followed
/// by the log of the others.
pub proof fn log_bytes_of_first(c: CommandView, rest: Seq<CommandView>)
    ensures
        log_bytes(seq![c] + rest) == record_bytes(c) + log_bytes(rest),
    decreases rest.len(),
{
    let all = seq![c] + rest;
    if rest.len() == 0 {
        assert(all.drop_last() =~= Seq::<CommandView>::empty());
        assert(log_bytes(all.drop_last()) =~= Seq::<u8>::empty());
        assert(log_bytes(all) =~= record_bytes(c) + log_bytes(rest));
    } else {
        assert(all.drop_last() =~= seq![c] + rest.drop_last());
        log_bytes_of_first(c, rest.drop_last());
        assert(log_bytes(all) =~= record_bytes(c) + log_bytes(rest));
    }
}

/// A log cut between two records is a complete log: the bytes up to the end
/// of the record before `j` replay as the commands before `j`.
pub proof fn log_cut_at_boundary_is_readable(cmds: Seq<CommandView>, j: int)
    requires
        all_encodable(cmds),
        0 <= j <= cmds.len(),
    ensures
        log_bytes(cmds.take(j)).len() <= log_bytes(cmds).len(),
        log_bytes(cmds).take(log_bytes(cmds.take(j)).len() as int) == log_bytes(cmds.take(j)),
        parse_log(log_bytes(cmds).take(log_bytes(cmds.take(j)).len() as int)) == Some(
            cmds.take(j),
        ),
    decreases cmds.len(),
{
    written_log_is_readable(cmds.take(j));
    if j == cmds.len() {
        assert(cmds.take(j) =~= cmds);
        assert(log_bytes(cmds).take(log_bytes(cmds).len() as int) =~= log_bytes(cmds));
    } else {
        let shorter = cmds.drop_last();
        assert(shorter.take(j) =~= cmds.take(j));
        log_cut_at_boundary_is_readable(shorter, j);
        let n = log_bytes(cmds.take(j)).len() as int;
        assert(log_bytes(cmds).take(n) =~= log_bytes(shorter).take(n));
    }
}

/// A log cut inside a record is corrupt. Where the cut falls after the
/// beginning and before the end of the record of the command at `j`, the
/// bytes up to the cut do not replay: not as the commands before `j`, not as
/// anything.
pub proof fn truncated_log_is_unreadable(cmds: Seq<CommandView>, j: int, cut: int)
    requires
        all_encodable(cmds),
        0 <= j < cmds.len(),
        log_bytes(cmds.take(j)).len() < cut < log_bytes(cmds.take(j + 1)).len(),
    ensures
        cut < log_bytes(cmds).len(),
        parse_log(log_bytes(cmds).take(cut)) is None,
    decreases j,
{
    let first = cmds[0];
    let rest = cmds.drop_first();
    let record = record_bytes(first);
    let whole = log_bytes(cmds);
    assert(cmds =~= seq![first] + rest);
    log_bytes_of_first(first, rest);
    lemma_parse_record_bytes(first, log_bytes(rest));
    assert(cmds.take(j + 1) =~= seq![first] + rest.take(j));
    log_bytes_of_first(first, rest.take(j));
    if j == 0 {
        assert(cmds.take(0) =~= Seq::<CommandView>::empty());
        assert(rest.take(0) =~= Seq::<CommandView>::empty());
        assert(log_bytes(rest.take(0)) =~= Seq::<u8>::empty());
        let cut_bytes = whole.take(cut);
        if parse_record(cut_bytes) is Some {
            lemma_parse_record_local(cut_bytes, cut_bytes);
            let n = parse_record(cut_bytes).unwrap().1;
            assert(whole.take(n) =~= cut_bytes.take(n));
            lemma_parse_record_local(cut_bytes, whole);
        }
    } else {
        assert(cmds.take(j) =~= seq![first] + rest.take(j - 1));
        log_bytes_of_first(first, rest.take(j - 1));
        assert(all_encodable(rest)) by {
            assert forall|i: int| 0 <= i < rest.len() implies encodable(#[trigger] rest[i]) by {
                assert(rest[i] == cmds[i + 1]);
            }
        }
        truncated_log_is_unreadable(rest, j - 1, cut - record.len());
        let cut_bytes = whole.take(cut);
        let n = record.len() as int;
        assert(cut_bytes.take(n) =~= whole.take(n));
        lemma_parse_record_local(whole, cut_bytes);
        assert(cut_bytes.skip(n) =~= log_bytes(rest).take(cut - n));
    }
}

} // verus!
