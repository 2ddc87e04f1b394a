//! The log as a whole: records laid end to end, read back by one linear scan.

use crate::codec::{decode, encodable, lemma_parse_record_bytes, parse_record, parse_str, record_bytes};
use crate::command::{Command, CommandView};
use crate::error::KvsError;
use vstd::prelude::*;
use vstd::slice::slice_subrange;

verus! {

/// The bytes of a log that holds `cmds` in order.
pub open spec fn log_bytes(cmds: Seq<CommandView>) -> Seq<u8>
    decreases cmds.len(),
{
    if cmds.len() == 0 {
        Seq::empty()
    } else {
        log_bytes(cmds.drop_last()) + record_bytes(cmds.last())
    }
}

/// Whether every command of the sequence can be encoded.
pub open spec fn all_encodable(cmds: Seq<CommandView>) -> bool {
    forall|i: int| 0 <= i < cmds.len() ==> encodable(#[trigger] cmds[i])
}

/// Reads a whole log. The end of the bytes is a clean end only at a record
/// boundary: bytes that stop inside a record, or hold anything that is no
/// record, make the whole log unreadable (`None`).
pub open spec fn parse_log(bytes: Seq<u8>) -> Option<Seq<CommandView>>
    decreases bytes.len(),
{
    if bytes.len() == 0 {
        Some(Seq::empty())
    } else {
        match parse_record(bytes) {
            Some((c, n)) => if 0 < n <= bytes.len() {
                match parse_log(bytes.skip(n)) {
                    Some(rest) => Some(seq![c] + rest),
                    None => None,
                }
            } else {
                None
            },
            None => None,
        }
    }
}

/// The commands of a vector as mathematical values.
pub open spec fn command_views(cmds: Seq<Command>) -> Seq<CommandView> {
    cmds.map_values(|c: Command| c@)
}

/// A string that parses occupies at least its length field and no more than
/// the bytes given, and parses the same from any bytes that begin alike.
pub proof fn lemma_parse_str_local(x: Seq<u8>, y: Seq<u8>)
    requires
        parse_str(x) is Some,
        y.len() >= parse_str(x).unwrap().1,
        y.take(parse_str(x).unwrap().1) == x.take(parse_str(x).unwrap().1),
    ensures
        8 <= parse_str(x).unwrap().1 <= x.len(),
        parse_str(y) == parse_str(x),
{
    let n = parse_str(x).unwrap().1;
    assert(x.subrange(0, 8) =~= x.take(n).subrange(0, 8));
    assert(y.subrange(0, 8) =~= y.take(n).subrange(0, 8));
    assert(x.subrange(8, n) =~= x.take(n).subrange(8, n));
    assert(y.subrange(8, n) =~= y.take(n).subrange(8, n));
}

/// A record that parses occupies at least twelve bytes and no more than the
/// bytes given, and parses the same from any bytes that begin alike.
pub proof fn lemma_parse_record_local(x: Seq<u8>, y: Seq<u8>)
    requires
        parse_record(x) is Some,
        y.len() >= parse_record(x).unwrap().1,
        y.take(parse_record(x).unwrap().1) == x.take(parse_record(x).unwrap().1),
    ensures
        12 <= parse_record(x).unwrap().1 <= x.len(),
        parse_record(y) == parse_record(x),
{
    let n = parse_record(x).unwrap().1;
    assert(x.subrange(0, 4) =~= x.take(n).subrange(0, 4));
    assert(y.subrange(0, 4) =~= y.take(n).subrange(0, 4));
    let k = parse_str(x.skip(4)).unwrap().1;
    assert(x.skip(4).take(k) =~= x.take(n).subrange(4, 4 + k));
    assert(y.skip(4).take(k) =~= y.take(n).subrange(4, 4 + k));
    lemma_parse_str_local(x.skip(4), y.skip(4));
    if parse_record(x).unwrap().0 is Put {
        let m = parse_str(x.skip(4 + k)).unwrap().1;
        assert(x.skip(4 + k).take(m) =~= x.take(n).subrange(4 + k, n));
        assert(y.skip(4 + k).take(m) =~= y.take(n).subrange(4 + k, n));
        lemma_parse_str_local(x.skip(4 + k), y.skip(4 + k));
    }
}

/// Appending one record to a readable log gives a readable log with that
/// command at its end.
pub proof fn lemma_parse_log_append(bytes: Seq<u8>, c: CommandView)
    requires
        parse_log(bytes) is Some,
        encodable(c),
    ensures
        parse_log(bytes + record_bytes(c)) == Some(parse_log(bytes).unwrap().push(c)),
    decreases bytes.len(),
{
    let record = record_bytes(c);
    let all = bytes + record;
    if bytes.len() == 0 {
        lemma_parse_record_bytes(c, Seq::empty());
        assert(all =~= record + Seq::<u8>::empty());
        assert(all.skip(record.len() as int) =~= Seq::<u8>::empty());
        assert(parse_log(all.skip(record.len() as int)) == Some(Seq::<CommandView>::empty()));
        assert(seq![c] + Seq::<CommandView>::empty() =~= Seq::<CommandView>::empty().push(c));
        assert(parse_log(all) == Some(seq![c] + Seq::<CommandView>::empty()));
    } else {
        lemma_parse_record_bytes(c, Seq::empty());
        let (first, n) = parse_record(bytes).unwrap();
        assert(all.take(n) =~= bytes.take(n));
        lemma_parse_record_local(bytes, all);
        assert(all.skip(n) =~= bytes.skip(n) + record);
        lemma_parse_log_append(bytes.skip(n), c);
        let rest = parse_log(bytes.skip(n)).unwrap();
        assert(seq![first] + rest.push(c) =~= (seq![first] + rest).push(c));
        assert(parse_log(all) == Some(seq![first] + rest.push(c)));
    }
}

/// Reads every command of a log, in order. Succeeds exactly on a log that is
/// complete records from its first byte to its last; fails with `Serde` on
/// any other, however much of it could be read.
pub fn replay(bytes: &[u8]) -> (r: Result<Vec<Command>, KvsError>)
    ensures
        match parse_log(bytes@) {
            Some(cmds) => r matches Ok(v) && command_views(v@) == cmds,
            None => r matches Err(e) && e is Serde,
        },
{
    let mut out: Vec<Command> = Vec::new();
    let mut pos: usize = 0;
    assert(bytes@.skip(0) =~= bytes@);
    assert(command_views(out@) =~= Seq::<CommandView>::empty());
    while pos < bytes.len()
        invariant
            pos <= bytes.len(),
            match parse_log(bytes@.skip(pos as int)) {
                Some(rest) => parse_log(bytes@) == Some(command_views(out@) + rest),
                None => parse_log(bytes@) is None,
            },
        decreases bytes.len() - pos,
    {
        let remaining = slice_subrange(bytes, pos, bytes.len());
        assert(remaining@ =~= bytes@.skip(pos as int));
        match decode(remaining) {
            Ok((command, used)) => {
                proof {
                    lemma_parse_record_local(remaining@, remaining@);
                    assert(remaining@.skip(used as int) =~= bytes@.skip(pos + used));
                    let ghost before = command_views(out@);
                    if parse_log(remaining@.skip(used as int)) is Some {
                        let rest = parse_log(remaining@.skip(used as int)).unwrap();
                        assert(before.push(command@) + rest =~= before + (seq![command@] + rest));
                    }
                    assert(command_views(out@.push(command)) =~= before.push(command@));
                }
                out.push(command);
                pos = pos + used;
            },
            Err(e) => {
                return Err(e);
            },
        }
    }
    proof {
        assert(bytes@.skip(pos as int) =~= Seq::<u8>::empty());
        assert(command_views(out@) + Seq::<CommandView>::empty() =~= command_views(out@));
    }
    Ok(out)
}

} // verus!
