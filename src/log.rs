//! A log segment's contents: records written one after another, with no
//! separator between them.
use vstd::prelude::*;

use crate::command::{decode_command_at, encode_command, Command, CommandModel};
use crate::json::bytes_at;

verus! {

/// The bytes of a segment that holds the records `recs`, in order.
pub open spec fn encode_log(recs: Seq<CommandModel>) -> Seq<u8>
    decreases recs.len(),
{
    if recs.len() == 0 {
        Seq::empty()
    } else {
        encode_log(recs.drop_last()) + encode_command(recs.last())
    }
}

/// A record read from a segment, with where it stands in it.
pub struct LogRecord {
    pub command: Command,
    pub pos: u64,
    pub len: u64,
}

/// The commands of a run of records.
pub open spec fn commands_of(v: Seq<LogRecord>) -> Seq<CommandModel> {
    v.map_values(|e: LogRecord| e.command@)
}

pub proof fn lemma_encode_command_nonempty(c: CommandModel)
    ensures
        encode_command(c).len() > 0,
{
}

pub proof fn lemma_encode_log_concat(a: Seq<CommandModel>, b: Seq<CommandModel>)
    ensures
        encode_log(a + b) == encode_log(a) + encode_log(b),
    decreases b.len(),
{
    if b.len() == 0 {
        assert(a + b =~= a);
        assert(encode_log(a) + encode_log(b) =~= encode_log(a));
    } else {
        assert((a + b).drop_last() =~= a + b.drop_last());
        assert((a + b).last() == b.last());
        lemma_encode_log_concat(a, b.drop_last());
        assert(encode_log(a + b) =~= encode_log(a) + encode_log(b));
    }
}

pub proof fn lemma_encode_log_push(a: Seq<CommandModel>, c: CommandModel)
    ensures
        encode_log(a.push(c)) == encode_log(a) + encode_command(c),
{
    assert(a.push(c).drop_last() =~= a);
}

/// The bytes of records `recs` around its `k`-th record.
pub proof fn lemma_encode_log_split(recs: Seq<CommandModel>, k: int)
    requires
        0 <= k < recs.len(),
    ensures
        encode_log(recs) == encode_log(recs.subrange(0, k)) + encode_command(recs[k]) + encode_log(
            recs.subrange(k + 1, recs.len() as int),
        ),
{
    let pre = recs.subrange(0, k);
    let post = recs.subrange(k + 1, recs.len() as int);
    assert(recs =~= pre.push(recs[k]) + post);
    lemma_encode_log_concat(pre.push(recs[k]), post);
    lemma_encode_log_push(pre, recs[k]);
}

/// Reads every record of a segment, in order. Only bytes made of whole
/// records are read: a segment cut inside a record, or holding anything
/// else, gives `None`.
pub fn decode_log(data: &Vec<u8>) -> (r: Option<Vec<LogRecord>>)
    ensures
        r matches Some(v) ==> {
            &&& data@ == encode_log(commands_of(v@))
            &&& forall|j: int|
                0 <= j < v@.len() ==> #[trigger] v@[j].pos == encode_log(
                    commands_of(v@).subrange(0, j),
                ).len() && v@[j].len == encode_command(v@[j].command@).len()
        },
        forall|recs: Seq<CommandModel>| #[trigger]
            encode_log(recs) == data@ ==> (r matches Some(v) && commands_of(v@) == recs),
{
    let mut out: Vec<LogRecord> = Vec::new();
    let mut p: usize = 0;
    let n = data.len();
    assert(data@.subrange(0, 0) =~= encode_log(commands_of(out@)));
    loop
        invariant
            n == data@.len(),
            p <= n,
            data@.subrange(0, p as int) == encode_log(commands_of(out@)),
            forall|j: int|
                0 <= j < out@.len() ==> #[trigger] out@[j].pos == encode_log(
                    commands_of(out@).subrange(0, j),
                ).len() && out@[j].len == encode_command(out@[j].command@).len(),
            forall|recs: Seq<CommandModel>| #[trigger]
                encode_log(recs) == data@ ==> commands_of(out@).len() <= recs.len() && commands_of(
                    out@,
                ) == recs.subrange(0, out@.len() as int),
        decreases n - p,
    {
        let ghost done = commands_of(out@);
        let ghost k = out@.len() as int;
        assert forall|recs: Seq<CommandModel>| #[trigger] encode_log(recs) == data@ implies (k
            == recs.len() && p == n) || (k < recs.len() && p < n && bytes_at(
            data@,
            p as int,
            encode_command(recs[k]),
        )) by {
            assert(done =~= recs.subrange(0, k));
            if k < recs.len() {
                lemma_encode_log_split(recs, k);
                let e = encode_command(recs[k]);
                lemma_encode_command_nonempty(recs[k]);
                let rest = encode_log(recs.subrange(k + 1, recs.len() as int));
                assert(data@ =~= encode_log(done) + e + rest);
                assert(data@.subrange(p as int, p + e.len()) =~= e);
            } else {
                assert(done =~= recs);
            }
        }
        if p == n {
            assert(data@.subrange(0, p as int) =~= data@);
            return Some(out);
        }
        match decode_command_at(data, p) {
            None => {
                return None;
            },
            Some((command, end)) => {
                let ghost c = command@;
                let rec = LogRecord { command, pos: p as u64, len: (end - p) as u64 };
                out.push(rec);
                proof {
                    assert(commands_of(out@) =~= done.push(c));
                    lemma_encode_log_push(done, c);
                    assert(data@.subrange(0, end as int) =~= data@.subrange(0, p as int)
                        + data@.subrange(p as int, end as int));
                    assert forall|j: int| 0 <= j < out@.len() implies #[trigger] out@[j].pos
                        == encode_log(commands_of(out@).subrange(0, j)).len() && out@[j].len
                        == encode_command(out@[j].command@).len() by {
                        if j < k {
                            assert(commands_of(out@).subrange(0, j) =~= done.subrange(0, j));
                        } else {
                            assert(commands_of(out@).subrange(0, j) =~= done);
                        }
                    }
                    assert forall|recs: Seq<CommandModel>| #[trigger]
                        encode_log(recs) == data@ implies commands_of(out@).len() <= recs.len()
                        && commands_of(out@) == recs.subrange(0, out@.len() as int) by {
                        assert(recs.subrange(0, k + 1) =~= recs.subrange(0, k).push(recs[k]));
                    }
                }
                p = end;
            },
        }
    }
}

} // verus!
