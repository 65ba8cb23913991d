//! The log-structured store: segments of records, an index of live keys,
//! replay on open, and compaction once enough bytes have gone stale.
//!
//! The store keeps the image of each segment file and says, as a list of
//! `DiskOp`s, what must be done to the data directory to match it; the
//! caller performs those before it acknowledges an operation.
use vstd::prelude::*;
use vstd::string::*;

use crate::command::{encode_command, Command, CommandModel};
use crate::error::KvError;
use crate::index::{CommandPos, Index};
use crate::json::bytes_at;
use crate::log::{commands_of, decode_log, encode_log, lemma_encode_log_push, lemma_encode_log_split};

verus! {

/// Stale bytes at which a mutation compacts the log.
pub const COMPACTION_THRESHOLD: u64 = 1048576;

/// The bytes of one segment, with a cursor for sequential reads.
pub struct BufReaderWithPos {
    data: Vec<u8>,
    pos: u64,
}

impl BufReaderWithPos {
    pub closed spec fn bytes(&self) -> Seq<u8> {
        self.data@
    }

    pub closed spec fn position(&self) -> u64 {
        self.pos
    }

    /// A reader over `data`, at its start.
    pub fn new(data: Vec<u8>) -> (r: BufReaderWithPos)
        ensures
            r.bytes() == data@,
            r.position() == 0,
    {
        BufReaderWithPos { data, pos: 0 }
    }

    /// The number of bytes in the segment.
    pub fn len(&self) -> (r: u64)
        ensures
            r == self.bytes().len(),
    {
        self.data.len() as u64
    }

    /// Moves the cursor to `pos`, and returns it.
    pub fn seek(&mut self, pos: u64) -> (r: u64)
        ensures
            r == pos,
            final(self).position() == pos,
            final(self).bytes() == old(self).bytes(),
    {
        self.pos = pos;
        pos
    }

    /// Reads exactly `len` bytes at the cursor and moves past them; `None`,
    /// and no move, where fewer remain.
    pub fn read_exact(&mut self, len: u64) -> (r: Option<Vec<u8>>)
        ensures
            final(self).bytes() == old(self).bytes(),
            old(self).position() + len <= old(self).bytes().len() ==> (r matches Some(b) && b@
                == old(self).bytes().subrange(
                old(self).position() as int,
                old(self).position() + len,
            ) && final(self).position() == old(self).position() + len),
            old(self).position() + len > old(self).bytes().len() ==> {
                let p = final(self).position();
                &&& r is None
                &&& p == old(self).position()
            },
    {
        let _n = self.data.len();
        let r = self.read_at(self.pos, len);
        if r.is_some() {
            self.pos = self.pos + len;
        }
        r
    }

    /// The `len` bytes at `pos`, leaving the cursor where it is.
    pub fn read_at(&self, pos: u64, len: u64) -> (r: Option<Vec<u8>>)
        ensures
            pos + len <= self.bytes().len() ==> (r matches Some(b) && b@ == self.bytes().subrange(
                pos as int,
                pos + len,
            )),
            pos + len > self.bytes().len() ==> r is None,
    {
        let n = self.data.len() as u64;
        if pos > n || n - pos < len {
            return None;
        }
        let mut out: Vec<u8> = Vec::new();
        let mut i: usize = pos as usize;
        let end: usize = (pos + len) as usize;
        while i < end
            invariant
                pos <= i <= end,
                end == pos + len,
                end <= self.data@.len(),
                out@ == self.data@.subrange(pos as int, i as int),
            decreases end - i,
        {
            out.push(self.data[i]);
            i = i + 1;
            assert(out@ =~= self.data@.subrange(pos as int, i as int));
        }
        Some(out)
    }

    fn append(&mut self, b: &[u8])
        ensures
            final(self).bytes() == old(self).bytes() + b@,
            final(self).position() == old(self).position(),
    {
        self.data.extend_from_slice(b);
    }
}

/// What must be done to the data directory: create the empty file of a
/// segment, append bytes to one, or delete one.
#[derive(Debug, PartialEq, Eq)]
pub enum DiskOp {
    Create { id: u64 },
    Append { id: u64, bytes: Vec<u8> },
    Delete { id: u64 },
}

/// A directory of segment files, by id.
pub open spec fn dir_of(files: Seq<(u64, Seq<u8>)>) -> Map<u64, Seq<u8>>
    decreases files.len(),
{
    if files.len() == 0 {
        Map::empty()
    } else {
        dir_of(files.drop_last()).insert(files.last().0, files.last().1)
    }
}

/// The directory after one operation: creating keeps a file that exists,
/// appending creates one that does not.
pub open spec fn apply_op(d: Map<u64, Seq<u8>>, op: DiskOp) -> Map<u64, Seq<u8>> {
    match op {
        DiskOp::Create { id } => if d.contains_key(id) {
            d
        } else {
            d.insert(id, Seq::empty())
        },
        DiskOp::Append { id, bytes } => d.insert(
            id,
            (if d.contains_key(id) {
                d[id]
            } else {
                Seq::empty()
            }) + bytes@,
        ),
        DiskOp::Delete { id } => d.remove(id),
    }
}

/// The directory after operations, in order.
pub open spec fn apply_ops(d: Map<u64, Seq<u8>>, ops: Seq<DiskOp>) -> Map<u64, Seq<u8>>
    decreases ops.len(),
{
    if ops.len() == 0 {
        d
    } else {
        apply_op(apply_ops(d, ops.drop_last()), ops.last())
    }
}

/// A `Delete` for each file, in order.
pub open spec fn deletes(files: Seq<(u64, Seq<u8>)>) -> Seq<DiskOp> {
    files.map_values(|f: (u64, Seq<u8>)| DiskOp::Delete { id: f.0 })
}

/// The ids of the files.
pub open spec fn ids_of(files: Seq<(u64, Seq<u8>)>) -> Set<u64> {
    Set::new(|k: u64| exists|j: int| 0 <= j < files.len() && files[j].0 == k)
}

pub proof fn lemma_dir_of_dom(files: Seq<(u64, Seq<u8>)>)
    ensures
        dir_of(files).dom() == ids_of(files),
    decreases files.len(),
{
    if files.len() > 0 {
        lemma_dir_of_dom(files.drop_last());
        assert forall|k: u64| #[trigger] ids_of(files).contains(k) <==> dir_of(files).dom().contains(k) by {
            if ids_of(files).contains(k) && k != files.last().0 {
                let j = choose|j: int| 0 <= j < files.len() && files[j].0 == k;
                assert(files.drop_last()[j].0 == k);
            }
            if ids_of(files.drop_last()).contains(k) {
                let j = choose|j: int| 0 <= j < files.drop_last().len() && files.drop_last()[j].0 == k;
                assert(files[j].0 == k);
            }
            if k == files.last().0 {
                assert(files[files.len() - 1].0 == k);
            }
        }
        assert(dir_of(files).dom() =~= ids_of(files));
    } else {
        assert(dir_of(files).dom() =~= ids_of(files));
    }
}

pub proof fn lemma_apply_ops_concat(d: Map<u64, Seq<u8>>, a: Seq<DiskOp>, b: Seq<DiskOp>)
    ensures
        apply_ops(d, a + b) == apply_ops(apply_ops(d, a), b),
    decreases b.len(),
{
    if b.len() == 0 {
        assert(a + b =~= a);
    } else {
        assert((a + b).drop_last() =~= a + b.drop_last());
        assert((a + b).last() == b.last());
        lemma_apply_ops_concat(d, a, b.drop_last());
    }
}

pub proof fn lemma_apply_deletes(d: Map<u64, Seq<u8>>, files: Seq<(u64, Seq<u8>)>)
    ensures
        apply_ops(d, deletes(files)) == d.remove_keys(ids_of(files)),
    decreases files.len(),
{
    if files.len() == 0 {
        assert(deletes(files) =~= Seq::<DiskOp>::empty());
        assert(d.remove_keys(ids_of(files)) =~= d);
    } else {
        let f = files.drop_last();
        assert(deletes(files).drop_last() =~= deletes(f));
        assert(deletes(files).last() == (DiskOp::Delete { id: files.last().0 }));
        lemma_apply_deletes(d, f);
        assert forall|k: u64| #[trigger] ids_of(files).contains(k) <==> (ids_of(f).contains(k) || k
            == files.last().0) by {
            if ids_of(files).contains(k) && k != files.last().0 {
                let j = choose|j: int| 0 <= j < files.len() && files[j].0 == k;
                assert(f[j].0 == k);
            }
            if ids_of(f).contains(k) {
                let j = choose|j: int| 0 <= j < f.len() && f[j].0 == k;
                assert(files[j].0 == k);
            }
            if k == files.last().0 {
                assert(files[files.len() - 1].0 == k);
            }
        }
        assert(d.remove_keys(ids_of(f)).remove(files.last().0) =~= d.remove_keys(ids_of(files)));
    }
}

struct Segment {
    id: u64,
    reader: BufReaderWithPos,
}

/// The contents `m` after the record `c`.
pub open spec fn apply_command(m: Map<Seq<char>, Seq<char>>, c: CommandModel) -> Map<
    Seq<char>,
    Seq<char>,
> {
    match c {
        CommandModel::Put { key, value } => m.insert(key, value),
        CommandModel::Remove { key } => m.remove(key),
        CommandModel::Get { .. } => m,
    }
}

/// The contents that a run of records leaves, from an empty store.
pub open spec fn replay(recs: Seq<CommandModel>) -> Map<Seq<char>, Seq<char>>
    decreases recs.len(),
{
    if recs.len() == 0 {
        Map::empty()
    } else {
        apply_command(replay(recs.drop_last()), recs.last())
    }
}

/// The bytes that record `c` makes stale, applied to contents `m`: the live
/// record of its key, and a `Remove` record itself.
pub open spec fn superseded(m: Map<Seq<char>, Seq<char>>, c: CommandModel) -> int {
    let live = if m.contains_key(c.key()) {
        encode_command(CommandModel::Put { key: c.key(), value: m[c.key()] }).len() as int
    } else {
        0
    };
    match c {
        CommandModel::Put { .. } => live,
        CommandModel::Remove { .. } => live + encode_command(c).len(),
        CommandModel::Get { .. } => 0,
    }
}

/// `x`, or the largest `u64` where `x` is larger.
pub open spec fn saturate(x: int) -> u64 {
    if x > u64::MAX {
        u64::MAX
    } else {
        x as u64
    }
}

/// The stale-byte count that replaying a run of records leaves.
pub open spec fn replay_stale(recs: Seq<CommandModel>) -> u64
    decreases recs.len(),
{
    if recs.len() == 0 {
        0
    } else {
        saturate(replay_stale(recs.drop_last()) + superseded(replay(recs.drop_last()), recs.last()))
    }
}

/// The records of all segments, in write order.
pub open spec fn all_records(logs: Seq<Seq<CommandModel>>) -> Seq<CommandModel>
    decreases logs.len(),
{
    if logs.len() == 0 {
        Seq::empty()
    } else {
        all_records(logs.drop_last()) + logs.last()
    }
}

/// Segment files, as (id, bytes), with strictly increasing ids.
pub open spec fn ids_ascending(files: Seq<(u64, Seq<u8>)>) -> bool {
    forall|i: int, j: int| 0 <= i < j < files.len() ==> files[i].0 < files[j].0
}

/// Each file holds the records of the matching log.
pub open spec fn holds_logs(files: Seq<(u64, Seq<u8>)>, logs: Seq<Seq<CommandModel>>) -> bool {
    &&& files.len() == logs.len()
    &&& forall|j: int| 0 <= j < files.len() ==> #[trigger] files[j].1 == encode_log(logs[j])
}

/// The (id, bytes) view of segment files handed over by value.
pub open spec fn files_view(files: Seq<(u64, Vec<u8>)>) -> Seq<(u64, Seq<u8>)> {
    files.map_values(|f: (u64, Vec<u8>)| (f.0, f.1@))
}

/// The record `c` stands at `p` in the file `img`.
pub open spec fn holds_at(img: (u64, Seq<u8>), p: CommandPos, c: CommandModel) -> bool {
    &&& img.0 == p.id
    &&& bytes_at(img.1, p.pos as int, encode_command(c))
    &&& p.len == encode_command(c).len()
}

/// The record `c` stands at `p` in one of the files.
pub open spec fn record_in(files: Seq<(u64, Seq<u8>)>, p: CommandPos, c: CommandModel) -> bool {
    exists|j: int| 0 <= j < files.len() && #[trigger] holds_at(files[j], p, c)
}

/// The total size of the files.
pub open spec fn total_bytes(files: Seq<(u64, Seq<u8>)>) -> int
    decreases files.len(),
{
    if files.len() == 0 {
        0
    } else {
        total_bytes(files.drop_last()) + files.last().1.len()
    }
}

/// The summed lengths of the records that the index points at, over `keys`.
pub open spec fn live_bytes(keys: Seq<Seq<char>>, pos: Map<Seq<char>, CommandPos>) -> int
    decreases keys.len(),
{
    if keys.len() == 0 {
        0
    } else {
        live_bytes(keys.drop_last(), pos) + pos[keys.last()].len
    }
}

/// `live_bytes` reads only the positions of the keys it is given.
proof fn lemma_live_bytes_agree(
    keys: Seq<Seq<char>>,
    o1: Map<Seq<char>, CommandPos>,
    o2: Map<Seq<char>, CommandPos>,
)
    requires
        forall|t: int| 0 <= t < keys.len() ==> o1[#[trigger] keys[t]] == o2[keys[t]],
    ensures
        live_bytes(keys, o1) == live_bytes(keys, o2),
    decreases keys.len(),
{
    if keys.len() > 0 {
        let k = keys.drop_last();
        assert forall|t: int| 0 <= t < k.len() implies o1[#[trigger] k[t]] == o2[k[t]] by {
            assert(k[t] == keys[t]);
        }
        lemma_live_bytes_agree(k, o1, o2);
        assert(o1[keys.last()] == o2[keys.last()]);
    }
}

pub proof fn lemma_replay_push(recs: Seq<CommandModel>, c: CommandModel)
    ensures
        replay(recs.push(c)) == apply_command(replay(recs), c),
{
    assert(recs.push(c).drop_last() =~= recs);
}

pub proof fn lemma_replay_stale_push(recs: Seq<CommandModel>, c: CommandModel)
    ensures
        replay_stale(recs.push(c)) == saturate(replay_stale(recs) + superseded(replay(recs), c)),
{
    assert(recs.push(c).drop_last() =~= recs);
}

pub proof fn lemma_all_records_push(logs: Seq<Seq<CommandModel>>, l: Seq<CommandModel>)
    ensures
        all_records(logs.push(l)) == all_records(logs) + l,
{
    assert(logs.push(l).drop_last() =~= logs);
}

pub proof fn lemma_all_records_extend_last(logs: Seq<Seq<CommandModel>>, c: CommandModel)
    requires
        logs.len() > 0,
    ensures
        all_records(logs.update(logs.len() - 1, logs.last().push(c))) == all_records(logs).push(c),
{
    let l2 = logs.update(logs.len() - 1, logs.last().push(c));
    assert(l2.drop_last() =~= logs.drop_last());
    assert(l2.last() == logs.last().push(c));
    assert(all_records(l2) =~= all_records(logs).push(c));
}

proof fn lemma_bytes_at_extend(s: Seq<u8>, i: int, t: Seq<u8>, u: Seq<u8>)
    requires
        bytes_at(s, i, t),
    ensures
        bytes_at(s + u, i, t),
{
    assert((s + u).subrange(i, i + t.len()) =~= s.subrange(i, i + t.len()));
}

/// A record stays where it is when the last file grows.
proof fn lemma_record_in_grow(
    files: Seq<(u64, Seq<u8>)>,
    extra: Seq<u8>,
    p: CommandPos,
    c: CommandModel,
)
    requires
        files.len() > 0,
        record_in(files, p, c),
    ensures
        record_in(files.update(files.len() - 1, (files.last().0, files.last().1 + extra)), p, c),
{
    let f2 = files.update(files.len() - 1, (files.last().0, files.last().1 + extra));
    let j = choose|j: int| 0 <= j < files.len() && #[trigger] holds_at(files[j], p, c);
    if j == files.len() - 1 {
        lemma_bytes_at_extend(files[j].1, p.pos as int, encode_command(c), extra);
    }
    assert(holds_at(f2[j], p, c));
}

/// A record stays where it is when a file is added.
proof fn lemma_record_in_push(
    files: Seq<(u64, Seq<u8>)>,
    f: (u64, Seq<u8>),
    p: CommandPos,
    c: CommandModel,
)
    requires
        record_in(files, p, c),
    ensures
        record_in(files.push(f), p, c),
{
    let j = choose|j: int| 0 <= j < files.len() && #[trigger] holds_at(files[j], p, c);
    assert(holds_at(files.push(f)[j], p, c));
}

/// The `t`-th record of a file whose bytes are `encode_log(recs)`.
proof fn lemma_record_of_log(recs: Seq<CommandModel>, t: int)
    requires
        0 <= t < recs.len(),
    ensures
        bytes_at(
            encode_log(recs),
            encode_log(recs.subrange(0, t)).len() as int,
            encode_command(recs[t]),
        ),
{
    lemma_encode_log_split(recs, t);
    let a = encode_log(recs.subrange(0, t));
    let e = encode_command(recs[t]);
    let b = encode_log(recs.subrange(t + 1, recs.len() as int));
    assert((a + e + b).subrange(a.len() as int, (a.len() + e.len()) as int) =~= e);
}

/// Applies one replayed record to the index, and returns the stale-byte count
/// after it.
fn replay_record(
    index: &mut Index,
    stale: u64,
    rec: &crate::log::LogRecord,
    id: u64,
    Ghost(files): Ghost<Seq<(u64, Seq<u8>)>>,
    Ghost(m): Ghost<Map<Seq<char>, Seq<char>>>,
) -> (r: u64)
    requires
        old(index).wf(),
        old(index)@.dom() == m.dom(),
        forall|k: Seq<char>| #[trigger]
            old(index)@.contains_key(k) ==> record_in(
                files,
                old(index)@[k],
                CommandModel::Put { key: k, value: m[k] },
            ),
        rec.command@ is Put ==> record_in(
            files,
            CommandPos { id, pos: rec.pos, len: rec.len },
            rec.command@,
        ),
        rec.len == encode_command(rec.command@).len(),
    ensures
        r == saturate(stale + superseded(m, rec.command@)),
        final(index).wf(),
        final(index)@.dom() == apply_command(m, rec.command@).dom(),
        forall|k: Seq<char>| #[trigger]
            final(index)@.contains_key(k) ==> record_in(
                files,
                final(index)@[k],
                CommandModel::Put { key: k, value: apply_command(m, rec.command@)[k] },
            ),
{
    let ghost m2 = apply_command(m, rec.command@);
    let ghost k = rec.command@.key();
    proof {
        if m.contains_key(k) {
            let c = CommandModel::Put { key: k, value: m[k] };
            assert(record_in(files, old(index)@[k], c));
            let j = choose|j: int| 0 <= j < files.len() && #[trigger] holds_at(files[j], old(index)@[k], c);
            assert(old(index)@[k].len == encode_command(c).len());
        }
    }
    match &rec.command {
        Command::Put { key, .. } => {
            let replaced = index.insert(key.clone(), CommandPos { id, pos: rec.pos, len: rec.len });
            assert(index@.dom() =~= m2.dom());
            match replaced {
                Some(p) => stale.saturating_add(p.len),
                None => stale,
            }
        },
        Command::Remove { key } => {
            let removed = index.remove(key);
            assert(index@.dom() =~= m2.dom());
            match removed {
                Some(p) => stale.saturating_add(p.len).saturating_add(rec.len),
                None => stale.saturating_add(rec.len),
            }
        },
        Command::Get { .. } => stale,
    }
}

/// Applies the records of the last of `files`, read as `recs`, to the index
/// built from the records `prior`, and returns the stale-byte count after
/// them.
#[verifier::rlimit(100)]
fn replay_segment(
    index: &mut Index,
    stale: u64,
    recs: &Vec<crate::log::LogRecord>,
    id: u64,
    Ghost(files): Ghost<Seq<(u64, Seq<u8>)>>,
    Ghost(prior): Ghost<Seq<CommandModel>>,
) -> (r: u64)
    requires
        files.len() > 0,
        files.last().0 == id,
        files.last().1 == encode_log(commands_of(recs@)),
        forall|j: int|
            0 <= j < recs@.len() ==> #[trigger] recs@[j].pos == encode_log(
                commands_of(recs@).subrange(0, j),
            ).len() && recs@[j].len == encode_command(recs@[j].command@).len(),
        old(index).wf(),
        old(index)@.dom() == replay(prior).dom(),
        forall|k: Seq<char>| #[trigger]
            old(index)@.contains_key(k) ==> record_in(
                files,
                old(index)@[k],
                CommandModel::Put { key: k, value: replay(prior)[k] },
            ),
        stale == replay_stale(prior),
    ensures
        final(index).wf(),
        final(index)@.dom() == replay(prior + commands_of(recs@)).dom(),
        forall|k: Seq<char>| #[trigger]
            final(index)@.contains_key(k) ==> record_in(
                files,
                final(index)@[k],
                CommandModel::Put { key: k, value: replay(prior + commands_of(recs@))[k] },
            ),
        r == replay_stale(prior + commands_of(recs@)),
{
    let ghost cmds = commands_of(recs@);
    let ghost mut m = replay(prior);
    let mut stale = stale;
    let mut t: usize = 0;
    assert(prior + cmds.subrange(0, 0) =~= prior);
    while t < recs.len()
        invariant
            t <= recs@.len(),
            cmds == commands_of(recs@),
            files.len() > 0,
            files.last().0 == id,
            files.last().1 == encode_log(cmds),
            forall|j: int|
                0 <= j < recs@.len() ==> #[trigger] recs@[j].pos == encode_log(cmds.subrange(0, j)).len()
                    && recs@[j].len == encode_command(recs@[j].command@).len(),
            m == replay(prior + cmds.subrange(0, t as int)),
            stale == replay_stale(prior + cmds.subrange(0, t as int)),
            index.wf(),
            index@.dom() == m.dom(),
            forall|k: Seq<char>| #[trigger]
                index@.contains_key(k) ==> record_in(
                    files,
                    index@[k],
                    CommandModel::Put { key: k, value: m[k] },
                ),
        decreases recs@.len() - t,
    {
        let rec = &recs[t];
        proof {
            assert(cmds[t as int] == rec.command@);
            assert(rec.len == encode_command(rec.command@).len());
            lemma_record_of_log(cmds, t as int);
            assert(holds_at(files[files.len() - 1], CommandPos { id, pos: rec.pos, len: rec.len }, rec.command@));
        }
        stale = replay_record(index, stale, rec, id, Ghost(files), Ghost(m));
        proof {
            let before = prior + cmds.subrange(0, t as int);
            lemma_replay_push(before, cmds[t as int]);
            lemma_replay_stale_push(before, cmds[t as int]);
            assert(before.push(cmds[t as int]) =~= prior + cmds.subrange(0, t + 1));
            m = apply_command(m, rec.command@);
        }
        t = t + 1;
    }
    assert(cmds.subrange(0, recs@.len() as int) =~= cmds);
    stale
}

/// A persistent string-to-string store over a segmented log.
pub struct KvStore {
    current_id: u64,
    segments: Vec<Segment>,
    index: Index,
    stale_data: u64,
    threshold: u64,
    pending: Vec<DiskOp>,
    logs: Ghost<Seq<Seq<CommandModel>>>,
    map: Ghost<Map<Seq<char>, Seq<char>>>,
    synced: Ghost<Map<u64, Seq<u8>>>,
}

impl KvStore {
    /// The key/value pairs that the store holds.
    pub closed spec fn model(&self) -> Map<Seq<char>, Seq<char>> {
        self.map@
    }

    /// The records of each segment, oldest segment first.
    pub closed spec fn logs(&self) -> Seq<Seq<CommandModel>> {
        self.logs@
    }

    /// The segment files, as (id, bytes), oldest first; the last one is active.
    pub closed spec fn images(&self) -> Seq<(u64, Seq<u8>)> {
        self.segments@.map_values(|s: Segment| (s.id, s.reader.data@))
    }

    /// Where the latest `Set` of each live key stands.
    pub closed spec fn positions(&self) -> Map<Seq<char>, CommandPos> {
        self.index@
    }

    /// The live keys in the order in which compaction copies them.
    pub closed spec fn live_keys(&self) -> Seq<Seq<char>> {
        self.index.keys()
    }

    pub closed spec fn stale(&self) -> u64 {
        self.stale_data
    }

    pub closed spec fn threshold_spec(&self) -> u64 {
        self.threshold
    }

    pub closed spec fn active_id(&self) -> u64 {
        self.current_id
    }

    pub closed spec fn pending_ops(&self) -> Seq<DiskOp> {
        self.pending@
    }

    /// The data directory as it stood when the disk operations were last
    /// handed over.
    pub closed spec fn synced(&self) -> Map<u64, Seq<u8>> {
        self.synced@
    }

    pub closed spec fn wf(&self) -> bool {
        &&& self.segments@.len() >= 1
        &&& self.segments@.len() == self.logs@.len()
        &&& ids_ascending(self.images())
        &&& self.images().last().0 == self.current_id
        &&& apply_ops(self.synced@, self.pending@) == dir_of(self.images())
        &&& holds_logs(self.images(), self.logs@)
        &&& self.map@ == replay(all_records(self.logs@))
        &&& self.stale_data == replay_stale(all_records(self.logs@))
        &&& self.index.wf()
        &&& self.index@.dom() == self.map@.dom()
        &&& forall|k: Seq<char>| #[trigger]
            self.index@.contains_key(k) ==> record_in(
                self.images(),
                self.index@[k],
                CommandModel::Put { key: k, value: self.map@[k] },
            )
    }

    /// The stale-byte count after a record of `key` is superseded.
    pub open spec fn stale_after(stale: u64, pos: Map<Seq<char>, CommandPos>, key: Seq<char>, extra: int) -> int {
        let s = if pos.contains_key(key) {
            stale + pos[key].len + extra
        } else {
            stale + extra
        };
        if s > u64::MAX {
            u64::MAX as int
        } else {
            s
        }
    }

    fn find_segment(&self, id: u64) -> (r: Option<usize>)
        requires
            self.wf(),
        ensures
            r matches Some(j) ==> j < self.segments@.len() && self.segments@[j as int].id == id,
            r is None ==> forall|j: int| 0 <= j < self.segments@.len() ==> self.segments@[j].id != id,
    {
        let mut j: usize = 0;
        while j < self.segments.len()
            invariant
                j <= self.segments@.len(),
                forall|t: int| 0 <= t < j ==> self.segments@[t].id != id,
            decreases self.segments@.len() - j,
        {
            if self.segments[j].id == id {
                return Some(j);
            }
            j = j + 1;
        }
        None
    }

    /// The bytes of the record at `p`.
    fn read_record(&self, p: CommandPos, Ghost(c): Ghost<CommandModel>) -> (r: Vec<u8>)
        requires
            self.wf(),
            record_in(self.images(), p, c),
        ensures
            r@ == encode_command(c),
    {
        let ghost j = choose|j: int| 0 <= j < self.images().len() && #[trigger] holds_at(self.images()[j], p, c);
        assert(self.images()[j].0 == self.segments@[j].id);
        let found = self.find_segment(p.id);
        let jj = match found {
            Some(jj) => jj,
            None => {
                assert(false);
                0
            },
        };
        proof {
            if jj != j {
                if jj < j {
                    assert(self.images()[jj as int].0 < self.images()[j].0);
                } else {
                    assert(self.images()[j].0 < self.images()[jj as int].0);
                }
            }
            assert(self.images()[j].1 == self.segments@[j].reader.data@);
        }
        match self.segments[jj].reader.read_at(p.pos, p.len) {
            Some(b) => b,
            None => {
                assert(false);
                Vec::new()
            },
        }
    }

    /// Appends `bytes` to the active segment, and records the append as a
    /// pending operation.
    fn append_active(&mut self, bytes: Vec<u8>) -> (r: (u64, u64))
        requires
            old(self).wf(),
        ensures
            r.0 == old(self).images().last().1.len(),
            r.1 == r.0 + bytes@.len(),
            final(self).images() == old(self).images().update(
                old(self).images().len() - 1,
                (old(self).current_id, old(self).images().last().1 + bytes@),
            ),
            final(self).current_id == old(self).current_id,
            final(self).index == old(self).index,
            final(self).stale_data == old(self).stale_data,
            final(self).threshold == old(self).threshold,
            final(self).logs == old(self).logs,
            final(self).map == old(self).map,
            final(self).pending@ == old(self).pending@.push(DiskOp::Append { id: old(self).current_id, bytes }),
            final(self).synced == old(self).synced,
            apply_ops(final(self).synced@, final(self).pending@) == dir_of(final(self).images()),
    {
        let mut seg = match self.segments.pop() {
            Some(seg) => seg,
            None => {
                assert(false);
                return (0, 0);
            },
        };
        let start = seg.reader.len();
        seg.reader.append(bytes.as_slice());
        let end = seg.reader.len();
        self.segments.push(seg);
        assert(self.images() =~= old(self).images().update(
            old(self).images().len() - 1,
            (old(self).current_id, old(self).images().last().1 + bytes@),
        ));
        let ghost op = DiskOp::Append { id: self.current_id, bytes };
        self.pending.push(DiskOp::Append { id: self.current_id, bytes });
        proof {
            let o = old(self).images();
            let nw = self.images();
            assert(self.pending@.drop_last() =~= old(self).pending@);
            assert(nw.drop_last() =~= o.drop_last());
            assert(dir_of(nw) =~= dir_of(o).insert(self.current_id, o.last().1 + op->Append_bytes@));
        }
        (start, end)
    }

    /// Sets `key` to `value`, and compacts the log where the stale bytes
    /// reach the threshold.
    pub fn set(&mut self, key: String, value: String) -> (r: Result<(), KvError>)
        requires
            old(self).wf(),
        ensures
            final(self).wf(),
            r is Ok,
            final(self).model() == old(self).model().insert(key@, value@),
            final(self).threshold_spec() == old(self).threshold_spec(),
            final(self).positions().contains_key(key@),
            final(self).positions()[key@].len == encode_command(
                CommandModel::Put { key: key@, value: value@ },
            ).len(),
            ({
                let s = Self::stale_after(old(self).stale(), old(self).positions(), key@, 0);
                let rec = encode_command(CommandModel::Put { key: key@, value: value@ });
                let last = old(self).images().len() - 1;
                if s >= old(self).threshold_spec() && old(self).active_id() <= u64::MAX - 2 {
                    &&& final(self).stale() == 0
                    &&& final(self).active_id() == old(self).active_id() + 2
                    &&& final(self).images().len() == 2
                    &&& final(self).images()[0].0 == old(self).active_id() + 1
                    &&& final(self).images()[1] == (final(self).active_id(), Seq::<u8>::empty())
                    &&& total_bytes(final(self).images()) == live_bytes(final(self).live_keys(), final(self).positions())
                } else {
                    &&& final(self).stale() == s
                    &&& final(self).active_id() == old(self).active_id()
                    &&& final(self).images() == old(self).images().update(
                        last,
                        (old(self).active_id(), old(self).images().last().1 + rec),
                    )
                    &&& final(self).positions() == old(self).positions().insert(
                        key@,
                        CommandPos {
                            id: old(self).active_id(),
                            pos: old(self).images().last().1.len() as u64,
                            len: rec.len() as u64,
                        },
                    )
                }
            }),
    {
        let cmd = Command::set(key, value);
        let bytes = cmd.encode();
        let ghost c = cmd@;
        let (start, end) = self.append_active(bytes);
        let ghost mid_images = self.images();
        match cmd {
            Command::Put { key, value } => {
                let ghost k = key@;
                let ghost v = value@;
                let replaced = self.index.insert(key, CommandPos::new(self.current_id, start, end));
                if let Some(old_pos) = replaced {
                    self.stale_data = self.stale_data.saturating_add(old_pos.len);
                }
                proof {
                    let old_images = old(self).images();
                    let n = self.logs@.len();
                    lemma_all_records_extend_last(self.logs@, c);
                    lemma_encode_log_push(self.logs@.last(), c);
                    lemma_replay_push(all_records(self.logs@), c);
                    lemma_replay_stale_push(all_records(self.logs@), c);
                    if old(self).map@.contains_key(k) {
                        let cc = CommandModel::Put { key: k, value: old(self).map@[k] };
                        assert(record_in(old_images, old(self).index@[k], cc));
                        let j = choose|j: int| 0 <= j < old_images.len() && #[trigger] holds_at(old_images[j], old(self).index@[k], cc);
                    }
                    self.logs@ = self.logs@.update(n - 1, self.logs@.last().push(c));
                    self.map@ = self.map@.insert(k, v);
                    assert(holds_logs(self.images(), self.logs@)) by {
                        assert forall|j: int| 0 <= j < self.images().len() implies #[trigger] self.images()[j].1
                            == encode_log(self.logs@[j]) by {
                            if j < n - 1 {
                                assert(self.images()[j] == old_images[j]);
                            }
                        }
                    }
                    assert(self.index@.dom() =~= self.map@.dom());
                    assert forall|k2: Seq<char>| #[trigger] self.index@.contains_key(k2) implies record_in(
                        self.images(),
                        self.index@[k2],
                        CommandModel::Put { key: k2, value: self.map@[k2] },
                    ) by {
                        if k2 == k {
                            let img = self.images()[n - 1];
                            assert(img.1 == old_images.last().1 + encode_command(c));
                            assert(img.1.subrange(start as int, end as int) =~= encode_command(c));
                            assert(holds_at(img, self.index@[k2], c));
                        } else {
                            lemma_record_in_grow(old_images, encode_command(c), self.index@[k2], CommandModel::Put { key: k2, value: self.map@[k2] });
                        }
                    }
                }
            },
            _ => {
                assert(false);
            },
        }
        if self.stale_data >= self.threshold && self.current_id <= u64::MAX - 2 {
            self.compact_log();
        }
        proof {
            self.lemma_invariants();
            assert(self.positions().contains_key(key@));
        }
        Ok(())
    }

    /// The value of `key`, if the store holds it.
    pub fn get(&mut self, key: String) -> (r: Result<Option<String>, KvError>)
        requires
            old(self).wf(),
        ensures
            final(self).wf(),
            *final(self) == *old(self),
            r matches Ok(v) && (v matches Some(s) ==> old(self).model().contains_key(key@) && s@
                == old(self).model()[key@]) && (v is None ==> !old(self).model().contains_key(key@)),
    {
        match self.index.get(&key) {
            None => Ok(None),
            Some(p) => {
                let ghost c = CommandModel::Put { key: key@, value: self.map@[key@] };
                let bytes = self.read_record(p, Ghost(c));
                proof {
                    assert(bytes_at(bytes@, 0, encode_command(c))) by {
                        assert(bytes@.subrange(0, bytes@.len() as int) =~= bytes@);
                    }
                }
                match crate::command::decode_command_at(&bytes, 0) {
                    Some((Command::Put { value, .. }, _)) => Ok(Some(value)),
                    _ => {
                        assert(false);
                        Err(KvError::UnexpectedCommand)
                    },
                }
            },
        }
    }

    /// Removes `key`, and compacts the log where the stale bytes reach the
    /// threshold; fails with `NotFound`, and changes nothing, where the store
    /// does not hold it.
    pub fn remove(&mut self, key: String) -> (r: Result<(), KvError>)
        requires
            old(self).wf(),
        ensures
            final(self).wf(),
            final(self).threshold_spec() == old(self).threshold_spec(),
            old(self).model().contains_key(key@) ==> {
                &&& r is Ok
                &&& final(self).model() == old(self).model().remove(key@)
                &&& {
                    let s = Self::stale_after(
                        old(self).stale(),
                        old(self).positions(),
                        key@,
                        encode_command(CommandModel::Remove { key: key@ }).len() as int,
                    );
                    let rec = encode_command(CommandModel::Remove { key: key@ });
                    let last = old(self).images().len() - 1;
                    if s >= old(self).threshold_spec() && old(self).active_id() <= u64::MAX - 2 {
                        &&& final(self).stale() == 0
                        &&& final(self).active_id() == old(self).active_id() + 2
                        &&& final(self).images().len() == 2
                        &&& final(self).images()[0].0 == old(self).active_id() + 1
                        &&& final(self).images()[1] == (final(self).active_id(), Seq::<u8>::empty())
                        &&& total_bytes(final(self).images()) == live_bytes(final(self).live_keys(), final(self).positions())
                    } else {
                        &&& final(self).stale() == s
                        &&& final(self).active_id() == old(self).active_id()
                        &&& final(self).images() == old(self).images().update(
                            last,
                            (old(self).active_id(), old(self).images().last().1 + rec),
                        )
                        &&& final(self).positions() == old(self).positions().remove(key@)
                    }
                }
                &&& !final(self).positions().contains_key(key@)
            },
            !old(self).model().contains_key(key@) ==> (r matches Err(KvError::NotFound(k)) && k@
                == key@) && *final(self) == *old(self),
    {
        let old_pos = match self.index.get(&key) {
            None => {
                return Err(KvError::NotFound(key));
            },
            Some(p) => p,
        };
        let cmd = Command::remove(key);
        let bytes = cmd.encode();
        let ghost c = cmd@;
        let rec_len = bytes.len() as u64;
        let (start, end) = self.append_active(bytes);
        match cmd {
            Command::Remove { key } => {
                let ghost k = key@;
                let _ = self.index.remove(&key);
                self.stale_data = self.stale_data.saturating_add(old_pos.len).saturating_add(rec_len);
                proof {
                    let old_images = old(self).images();
                    let n = self.logs@.len();
                    lemma_all_records_extend_last(self.logs@, c);
                    lemma_encode_log_push(self.logs@.last(), c);
                    lemma_replay_push(all_records(self.logs@), c);
                    lemma_replay_stale_push(all_records(self.logs@), c);
                    let cc = CommandModel::Put { key: k, value: old(self).map@[k] };
                    assert(record_in(old_images, old(self).index@[k], cc));
                    let j = choose|j: int| 0 <= j < old_images.len() && #[trigger] holds_at(old_images[j], old(self).index@[k], cc);
                    self.logs@ = self.logs@.update(n - 1, self.logs@.last().push(c));
                    self.map@ = self.map@.remove(k);
                    assert(holds_logs(self.images(), self.logs@)) by {
                        assert forall|j: int| 0 <= j < self.images().len() implies #[trigger] self.images()[j].1
                            == encode_log(self.logs@[j]) by {
                            if j < n - 1 {
                                assert(self.images()[j] == old_images[j]);
                            }
                        }
                    }
                    assert(self.index@.dom() =~= self.map@.dom());
                    assert forall|k2: Seq<char>| #[trigger] self.index@.contains_key(k2) implies record_in(
                        self.images(),
                        self.index@[k2],
                        CommandModel::Put { key: k2, value: self.map@[k2] },
                    ) by {
                        lemma_record_in_grow(old_images, encode_command(c), self.index@[k2], CommandModel::Put { key: k2, value: self.map@[k2] });
                    }
                }
            },
            _ => {
                assert(false);
            },
        }
        if self.stale_data >= self.threshold && self.current_id <= u64::MAX - 2 {
            self.compact_log();
        }
        proof {
            self.lemma_invariants();
        }
        Ok(())
    }

    /// One `Delete` for each segment.
    fn delete_ops(&self) -> (r: Vec<DiskOp>)
        ensures
            r@.len() == self.segments@.len(),
            forall|j: int| 0 <= j < r@.len() ==> r@[j] == (DiskOp::Delete { id: self.segments@[j].id }),
    {
        let mut out: Vec<DiskOp> = Vec::new();
        let mut j: usize = 0;
        while j < self.segments.len()
            invariant
                j <= self.segments@.len(),
                out@.len() == j,
                forall|t: int| 0 <= t < j ==> out@[t] == (DiskOp::Delete { id: self.segments@[t].id }),
            decreases self.segments@.len() - j,
        {
            out.push(DiskOp::Delete { id: self.segments[j].id });
            j = j + 1;
        }
        out
    }

    #[verifier::rlimit(100)]
    fn compact_log(&mut self)
        requires
            old(self).wf(),
            old(self).current_id <= u64::MAX - 2,
        ensures
            final(self).wf(),
            final(self).model() == old(self).model(),
            final(self).stale_data == 0,
            final(self).current_id == old(self).current_id + 2,
            final(self).threshold == old(self).threshold,
            final(self).images().len() == 2,
            final(self).images()[0].0 == old(self).current_id + 1,
            final(self).images()[1] == (final(self).current_id, Seq::<u8>::empty()),
            total_bytes(final(self).images()) == live_bytes(final(self).live_keys(), final(self).positions()),
    {
        let cid = self.current_id + 1;
        let aid = self.current_id + 2;
        let mut data: Vec<u8> = Vec::new();
        let mut new_index = Index::new();
        let n = self.index.len();
        let ghost keys = self.index.keys();
        let ghost m = self.map@;
        let ghost mut puts: Seq<CommandModel> = Seq::empty();
        proof {
            self.index.lemma_keys();
            assert(new_index.keys() =~= keys.subrange(0, 0));
        }
        let mut i: usize = 0;
        while i < n
            invariant
                self.wf(),
                m == self.map@,
                n == self.index.len_spec(),
                keys == self.index.keys(),
                keys.len() == n,
                keys.no_duplicates(),
                forall|a: int, b: int| 0 <= a < b < keys.len() ==> crate::index::key_lt(#[trigger] keys[a], #[trigger] keys[b]),
                forall|t: int| 0 <= t < keys.len() ==> self.index@.contains_key(#[trigger] keys[t]),
                i <= n,
                puts.len() == i,
                data@ == encode_log(puts),
                new_index.wf(),
                new_index.keys() == keys.subrange(0, i as int),
                forall|k: Seq<char>| #[trigger]
                    new_index@.contains_key(k) ==> m.contains_key(k) && holds_at(
                        (cid, data@),
                        new_index@[k],
                        CommandModel::Put { key: k, value: m[k] },
                    ),
                forall|k: Seq<char>| #[trigger]
                    replay(puts).contains_key(k) == new_index@.contains_key(k),
                forall|k: Seq<char>| #[trigger]
                    replay(puts).contains_key(k) ==> replay(puts)[k] == m[k],
                replay_stale(puts) == 0,
                data@.len() == live_bytes(new_index.keys(), new_index@),
            decreases n - i,
        {
            let (k, p) = self.index.entry(i);
            let ghost c = CommandModel::Put { key: k@, value: m[k@] };
            let rec = self.read_record(p, Ghost(c));
            let start = data.len() as u64;
            let ghost before = data@;
            data.extend_from_slice(rec.as_slice());
            let end = data.len() as u64;
            let key = k.clone();
            let ghost old_new = new_index@;
            let ghost old_keys = new_index.keys();
            let ghost old_data = data@;
            proof {
                new_index.lemma_keys();
                if new_index@.contains_key(k@) {
                    let t = choose|t: int| 0 <= t < old_keys.len() && old_keys[t] == k@;
                    assert(keys[t] == keys[i as int]);
                }
                assert forall|t: int| 0 <= t < old_keys.len() implies crate::index::key_lt(#[trigger] old_keys[t], k@) by {
                    assert(old_keys[t] == keys[t]);
                }
            }
            new_index.insert(key, CommandPos::new(cid, start, end));
            proof {
                lemma_replay_push(puts, c);
                lemma_replay_stale_push(puts, c);
                assert(!replay(puts).contains_key(k@));
                lemma_encode_log_push(puts, c);
                puts = puts.push(c);
                assert(new_index.keys() =~= keys.subrange(0, i + 1));
                assert forall|k2: Seq<char>| #[trigger] new_index@.contains_key(k2) implies m.contains_key(k2)
                    && holds_at((cid, data@), new_index@[k2], CommandModel::Put { key: k2, value: m[k2] }) by {
                    if k2 == k@ {
                        assert(data@.subrange(start as int, end as int) =~= encode_command(c));
                    } else {
                        let c2 = CommandModel::Put { key: k2, value: m[k2] };
                        assert(holds_at((cid, before), old_new[k2], c2));
                        assert(data@ =~= before + encode_command(c));
                        lemma_bytes_at_extend(before, old_new[k2].pos as int, encode_command(c2), encode_command(c));
                    }
                }
                lemma_live_bytes_agree(old_keys, old_new, new_index@);
                assert(new_index.keys().drop_last() =~= old_keys);
            }
            i = i + 1;
        }
        proof {
            assert(keys.subrange(0, n as int) =~= keys);
            assert forall|k: Seq<char>| m.contains_key(k) <==> #[trigger] new_index@.contains_key(k) by {
                new_index.lemma_keys();
                if m.contains_key(k) {
                    assert(self.index@.contains_key(k));
                    assert(keys.contains(k));
                }
                if new_index@.contains_key(k) {
                    assert(new_index.keys().contains(k));
                }
            }
            assert(replay(puts) =~= m);
            assert(new_index@.dom() =~= m.dom());
        }
        let ghost final_data = data@;
        assert(final_data.len() == live_bytes(new_index.keys(), new_index@));
        let copy = vstd::slice::slice_to_vec(data.as_slice());
        let ghost copy_view = copy@;
        assert(copy_view == data@);
        let ghost old_images = self.images();
        let ghost old_pending = self.pending@;
        let ghost data_view = data@;
        self.pending.push(DiskOp::Create { id: cid });
        self.pending.push(DiskOp::Append { id: cid, bytes: copy });
        self.pending.push(DiskOp::Create { id: aid });
        let mut removals = self.delete_ops();
        assert(removals@ =~= deletes(old_images));
        self.pending.append(&mut removals);
        let mut segs: Vec<Segment> = Vec::new();
        segs.push(Segment { id: cid, reader: BufReaderWithPos::new(data) });
        segs.push(Segment { id: aid, reader: BufReaderWithPos::new(Vec::new()) });
        self.segments = segs;
        self.index = new_index;
        self.current_id = aid;
        self.stale_data = 0;
        proof {
            let e = Seq::<CommandModel>::empty();
            let logs = seq![puts, e];
            assert(logs.drop_last() =~= seq![puts]);
            assert(seq![puts].drop_last() =~= Seq::<Seq<CommandModel>>::empty());
            assert(seq![puts].last() == puts);
            assert(all_records(Seq::<Seq<CommandModel>>::empty()) =~= Seq::<CommandModel>::empty());
            assert(all_records(seq![puts]) =~= puts);
            assert(all_records(logs) =~= puts);
            self.logs@ = logs;
            let imgs = self.images();
            assert(imgs =~= seq![(cid, self.segments@[0].reader.data@), (aid, Seq::<u8>::empty())]);
            assert(encode_log(e) =~= Seq::<u8>::empty());
            assert(holds_logs(imgs, self.logs@));
            assert(imgs[0] == (cid, final_data));
            assert(self.index@.dom() =~= self.map@.dom());
            assert forall|k: Seq<char>| #[trigger] self.index@.contains_key(k) implies record_in(
                imgs,
                self.index@[k],
                CommandModel::Put { key: k, value: self.map@[k] },
            ) by {
                assert(holds_at(imgs[0], self.index@[k], CommandModel::Put { key: k, value: self.map@[k] }));
            }
            assert(imgs.drop_last() =~= seq![imgs[0]]);
            assert(seq![imgs[0]].drop_last() =~= Seq::<(u64, Seq<u8>)>::empty());
            assert(seq![imgs[0]].last() == imgs[0]);
            let d0 = dir_of(old_images);
            let head = seq![
                DiskOp::Create { id: cid },
                DiskOp::Append { id: cid, bytes: copy },
                DiskOp::Create { id: aid },
            ];
            assert(self.pending@ =~= old_pending + head + deletes(old_images));
            lemma_apply_ops_concat(self.synced@, old_pending + head, deletes(old_images));
            lemma_apply_ops_concat(self.synced@, old_pending, head);
            lemma_dir_of_dom(old_images);
            assert forall|j: int| 0 <= j < old_images.len() implies old_images[j].0 < cid by {
                assert(old_images[j].0 <= old_images[old_images.len() - 1].0);
            }
            assert(!d0.contains_key(cid));
            assert(!d0.contains_key(aid));
            assert(head.drop_last() =~= seq![DiskOp::Create { id: cid }, DiskOp::Append { id: cid, bytes: copy }]);
            assert(head.drop_last().drop_last() =~= seq![DiskOp::Create { id: cid }]);
            assert(head.drop_last().drop_last().drop_last() =~= Seq::<DiskOp>::empty());
            let d3 = d0.insert(cid, data_view).insert(aid, Seq::<u8>::empty());
            let h1 = head.drop_last().drop_last();
            let h2 = head.drop_last();
            let e1 = d0.insert(cid, Seq::<u8>::empty());
            assert(apply_ops(d0, h1.drop_last()) == d0);
            assert(h1.last() == (DiskOp::Create { id: cid }));
            assert(apply_ops(d0, h1) == e1);
            assert(h2.last() == (DiskOp::Append { id: cid, bytes: copy }));
            assert(Seq::<u8>::empty() + copy_view =~= data_view);
            assert(apply_ops(d0, h2) == apply_op(e1, DiskOp::Append { id: cid, bytes: copy }));
            assert(apply_ops(d0, h2) =~= d0.insert(cid, data_view));
            assert(head.last() == (DiskOp::Create { id: aid }));
            assert(apply_ops(d0, head) =~= d3);
            lemma_apply_deletes(d3, old_images);
            let fin = d3.remove_keys(ids_of(old_images));
            assert(dir_of(seq![imgs[0]]) == dir_of(Seq::<(u64, Seq<u8>)>::empty()).insert(cid, final_data));
            assert(dir_of(imgs) == dir_of(seq![imgs[0]]).insert(aid, Seq::<u8>::empty()));
            assert forall|k: u64| #[trigger] fin.contains_key(k) <==> (k == cid || k == aid) by {
                if ids_of(old_images).contains(k) {
                    let j = choose|j: int| 0 <= j < old_images.len() && old_images[j].0 == k;
                    assert(old_images[j].0 < cid);
                }
                if d0.contains_key(k) {
                    assert(ids_of(old_images).contains(k));
                }
            }
            assert(dir_of(imgs) =~= fin);
            assert(total_bytes(Seq::<(u64, Seq<u8>)>::empty()) == 0);
            assert(total_bytes(seq![imgs[0]]) == final_data.len());
            assert(total_bytes(imgs) == final_data.len());
            assert(final_data.len() == live_bytes(self.index.keys(), self.index@));
        }
    }

    /// Opens a store over the segment files `files`, given as (id, bytes) in
    /// increasing id order, with the default compaction threshold.
    pub fn open(files: Vec<(u64, Vec<u8>)>) -> (r: Result<KvStore, KvError>)
        ensures
            r is Ok <==> Self::opens(files_view(files@)),
            !Self::ids_fit(files_view(files@)) ==> r matches Err(KvError::Other(_)),
            Self::ids_fit(files_view(files@)) && !Self::opens(files_view(files@)) ==> r matches Err(
                KvError::Serialization(_),
            ),
            r matches Ok(s) ==> Self::opened(files_view(files@), s, COMPACTION_THRESHOLD),
    {
        Self::open_with_threshold(files, COMPACTION_THRESHOLD)
    }

    /// The files can be opened: increasing ids, each made of whole records,
    /// and room for one more id.
    pub open spec fn opens(files: Seq<(u64, Seq<u8>)>) -> bool {
        &&& ids_ascending(files)
        &&& exists|logs: Seq<Seq<CommandModel>>| holds_logs(files, logs)
        &&& (files.len() == 0 || files.last().0 < u64::MAX)
    }

    /// The ids of `files` increase, and one more id is left after them.
    pub open spec fn ids_fit(files: Seq<(u64, Seq<u8>)>) -> bool {
        &&& ids_ascending(files)
        &&& (files.len() == 0 || files.last().0 < u64::MAX)
    }

    /// The id of the active segment that opening `files` creates.
    pub open spec fn next_id(files: Seq<(u64, Seq<u8>)>) -> u64 {
        if files.len() == 0 {
            1
        } else {
            (files.last().0 + 1) as u64
        }
    }

    /// What opening `files` gives: the records of the files replayed in order,
    /// and a new, empty active segment after them.
    pub open spec fn opened(files: Seq<(u64, Seq<u8>)>, s: KvStore, threshold: u64) -> bool {
        &&& s.wf()
        &&& s.threshold_spec() == threshold
        &&& s.images() == files.push((Self::next_id(files), Seq::<u8>::empty()))
        &&& s.active_id() == Self::next_id(files)
        &&& s.synced() == dir_of(files)
        &&& forall|logs: Seq<Seq<CommandModel>>| #[trigger]
            holds_logs(files, logs) ==> s.logs() == logs.push(Seq::<CommandModel>::empty())
                && s.model() == replay(all_records(logs)) && s.stale() == replay_stale(
                all_records(logs),
            )
    }

    /// Opens a store over the segment files `files`, given as (id, bytes) in
    /// increasing id order; a mutation that leaves `threshold` or more stale
    /// bytes compacts the log.
    #[verifier::rlimit(100)]
    pub fn open_with_threshold(files: Vec<(u64, Vec<u8>)>, threshold: u64) -> (r: Result<KvStore, KvError>)
        ensures
            r is Ok <==> Self::opens(files_view(files@)),
            !Self::ids_fit(files_view(files@)) ==> r matches Err(KvError::Other(_)),
            Self::ids_fit(files_view(files@)) && !Self::opens(files_view(files@)) ==> r matches Err(
                KvError::Serialization(_),
            ),
            r matches Ok(s) ==> Self::opened(files_view(files@), s, threshold),
    {
        let ghost view = files_view(files@);
        let n = files.len();
        let mut i: usize = 1;
        while i < n
            invariant
                n == files@.len(),
                view == files_view(files@),
                1 <= i || n == 0,
                forall|a: int, b: int| 0 <= a < b < i && b < n ==> view[a].0 < view[b].0,
            decreases n - i,
        {
            if files[i - 1].0 >= files[i].0 {
                let ghost a = (i - 1) as int;
                assert(!ids_ascending(view)) by {
                    assert(view[a].0 >= view[a + 1].0);
                }
                return Err(KvError::Other(String::from_str("segment ids are not increasing")));
            }
            proof {
                assert forall|a: int, b: int| 0 <= a < b < i + 1 && b < n implies view[a].0 < view[b].0 by {
                    if b == i {
                        if a < i - 1 {
                            assert(view[a].0 < view[i - 1].0);
                        }
                        assert(view[i - 1].0 < view[i as int].0);
                    }
                }
            }
            i = i + 1;
        }
        assert(ids_ascending(view));
        if n > 0 && files[n - 1].0 == u64::MAX {
            return Err(KvError::Other(String::from_str("no segment id is left")));
        }
        let new_id: u64 = if n == 0 {
            1
        } else {
            files[n - 1].0 + 1
        };
        let mut rest = files;
        let mut segments: Vec<Segment> = Vec::new();
        let mut index = Index::new();
        let mut stale: u64 = 0;
        let ghost mut logs: Seq<Seq<CommandModel>> = Seq::empty();
        let ghost mut m: Map<Seq<char>, Seq<char>> = Map::empty();
        let mut c: usize = 0;
        proof {
            assert(files_view(rest@) =~= view.subrange(c as int, n as int));
            assert(segments@.map_values(|s: Segment| (s.id, s.reader.data@)) =~= view.subrange(0, 0));
        }
        while c < n
            invariant
                n == view.len(),
                view == files_view(files@),
                Self::ids_fit(view),
                c <= n,
                files_view(rest@) == view.subrange(c as int, n as int),
                segments@.map_values(|s: Segment| (s.id, s.reader.data@)) == view.subrange(0, c as int),
                logs.len() == c,
                holds_logs(view.subrange(0, c as int), logs),
                m == replay(all_records(logs)),
                stale == replay_stale(all_records(logs)),
                index.wf(),
                index@.dom() == m.dom(),
                forall|k: Seq<char>| #[trigger]
                    index@.contains_key(k) ==> record_in(
                        view.subrange(0, c as int),
                        index@[k],
                        CommandModel::Put { key: k, value: m[k] },
                    ),
                forall|logs2: Seq<Seq<CommandModel>>| #[trigger]
                    holds_logs(view, logs2) ==> logs == logs2.subrange(0, c as int),
            decreases n - c,
        {
            let ghost before = rest@;
            assert(files_view(before).len() == before.len());
            assert(files_view(before)[0] == view[c as int]);
            let (id, data) = rest.remove(0);
            proof {
                assert(before[0] == (id, data));
                assert(view[c as int] == (id, data@));
                assert forall|t: int| 0 <= t < rest@.len() implies #[trigger] files_view(rest@)[t]
                    == view[c + 1 + t] by {
                    assert(rest@[t] == before[t + 1]);
                    assert(files_view(before)[t + 1] == view.subrange(c as int, n as int)[t + 1]);
                }
                assert(files_view(rest@) =~= view.subrange(c + 1, n as int));
            }
            let recs = match decode_log(&data) {
                Some(recs) => recs,
                None => {
                    proof {
                        assert(data@ == view[c as int].1);
                        assert forall|logs2: Seq<Seq<CommandModel>>| !holds_logs(view, logs2) by {
                            if holds_logs(view, logs2) {
                                assert(view[c as int].1 == encode_log(logs2[c as int]));
                                assert(encode_log(logs2[c as int]) == data@);
                            }
                        }
                        assert(!Self::opens(view));
                    }
                    return Err(KvError::Serialization(String::from_str("a segment holds a partial or malformed record")));
                },
            };
            let ghost cmds = commands_of(recs@);
            let ghost prev = view.subrange(0, c as int);
            let ghost files_now = view.subrange(0, c + 1);
            segments.push(Segment { id, reader: BufReaderWithPos::new(data) });
            proof {
                assert(files_now =~= prev.push(view[c as int]));
                assert forall|k: Seq<char>| #[trigger] index@.contains_key(k) implies record_in(
                    files_now,
                    index@[k],
                    CommandModel::Put { key: k, value: m[k] },
                ) by {
                    lemma_record_in_push(prev, view[c as int], index@[k], CommandModel::Put { key: k, value: m[k] });
                }
            }
            proof {
                assert(files_now.last() == view[c as int]);
            }
            stale = replay_segment(&mut index, stale, &recs, id, Ghost(files_now), Ghost(all_records(logs)));
            proof {
                m = replay(all_records(logs) + cmds);
            }
            proof {
                lemma_all_records_push(logs, cmds);
                logs = logs.push(cmds);
                assert(holds_logs(files_now, logs)) by {
                    assert forall|j: int| 0 <= j < files_now.len() implies #[trigger] files_now[j].1 == encode_log(logs[j]) by {
                        if j < c {
                            assert(files_now[j] == prev[j]);
                        }
                    }
                }
                assert(segments@.map_values(|s: Segment| (s.id, s.reader.data@)) =~= files_now);
                assert forall|logs2: Seq<Seq<CommandModel>>| #[trigger]
                    holds_logs(view, logs2) implies logs == logs2.subrange(0, c + 1) by {
                    assert(logs2.subrange(0, c + 1) =~= logs2.subrange(0, c as int).push(logs2[c as int]));
                    assert(view[c as int].1 == encode_log(logs2[c as int]));
                }
            }
            c = c + 1;
        }
        let ghost full = view;
        proof {
            assert(view.subrange(0, n as int) =~= view);
        }
        segments.push(Segment { id: new_id, reader: BufReaderWithPos::new(Vec::new()) });
        let mut pending: Vec<DiskOp> = Vec::new();
        pending.push(DiskOp::Create { id: new_id });
        let ghost e = Seq::<CommandModel>::empty();
        let store = KvStore {
            current_id: new_id,
            segments,
            index,
            stale_data: stale,
            threshold,
            pending,
            logs: Ghost(logs.push(e)),
            map: Ghost(m),
            synced: Ghost(dir_of(view)),
        };
        proof {
            let imgs = store.images();
            lemma_dir_of_dom(view);
            assert(!dir_of(view).contains_key(new_id)) by {
                if dir_of(view).contains_key(new_id) {
                    assert(ids_of(view).contains(new_id));
                    let j = choose|j: int| 0 <= j < view.len() && view[j].0 == new_id;
                    assert(view[j].0 <= view[n - 1].0);
                }
            }
            let ops = store.pending@;
            assert(ops.drop_last() =~= Seq::<DiskOp>::empty());
            assert(apply_ops(dir_of(view), ops.drop_last()) == dir_of(view));
            assert(ops.last() == (DiskOp::Create { id: new_id }));
            assert(apply_ops(dir_of(view), ops) == apply_op(dir_of(view), DiskOp::Create { id: new_id }));
            assert(imgs.drop_last() =~= view);
            assert(imgs.last() == (new_id, Seq::<u8>::empty()));
            assert(dir_of(imgs) == dir_of(view).insert(new_id, Seq::<u8>::empty()));
            assert(apply_ops(dir_of(view), ops) =~= dir_of(imgs));
            assert(imgs =~= view.push((new_id, Seq::<u8>::empty())));
            lemma_all_records_push(logs, e);
            assert(all_records(logs) + e =~= all_records(logs));
            assert(encode_log(e) =~= Seq::<u8>::empty());
            assert(holds_logs(imgs, store.logs@)) by {
                assert forall|j: int| 0 <= j < imgs.len() implies #[trigger] imgs[j].1 == encode_log(store.logs@[j]) by {
                    if j < n {
                        assert(imgs[j] == view[j]);
                    }
                }
            }
            assert(ids_ascending(imgs)) by {
                assert forall|a: int, b: int| 0 <= a < b < imgs.len() implies imgs[a].0 < imgs[b].0 by {
                    if b == n {
                        if n > 0 {
                            assert(view[a].0 <= view[n - 1].0);
                        }
                    } else {
                        assert(imgs[a] == view[a] && imgs[b] == view[b]);
                    }
                }
            }
            assert forall|k: Seq<char>| #[trigger] store.index@.contains_key(k) implies record_in(
                imgs,
                store.index@[k],
                CommandModel::Put { key: k, value: store.map@[k] },
            ) by {
                lemma_record_in_push(view, (new_id, Seq::<u8>::empty()), store.index@[k], CommandModel::Put { key: k, value: store.map@[k] });
            }
            assert(holds_logs(view, logs));
            assert forall|logs2: Seq<Seq<CommandModel>>| #[trigger] holds_logs(view, logs2) implies store.logs()
                == logs2.push(Seq::<CommandModel>::empty()) && store.model() == replay(all_records(logs2))
                && store.stale() == replay_stale(all_records(logs2)) by {
                assert(logs2.subrange(0, n as int) =~= logs2);
            }
        }
        Ok(store)
    }

    /// Compacts the log now: the live records are copied into one new segment
    /// and the older segments are dropped. Fails, and changes nothing, only
    /// where no segment ids are left.
    pub fn compact(&mut self) -> (r: Result<(), KvError>)
        requires
            old(self).wf(),
        ensures
            final(self).wf(),
            final(self).model() == old(self).model(),
            final(self).threshold_spec() == old(self).threshold_spec(),
            old(self).active_id() <= u64::MAX - 2 ==> {
                &&& r is Ok
                &&& final(self).stale() == 0
                &&& final(self).active_id() == old(self).active_id() + 2
                &&& final(self).images().len() == 2
                &&& final(self).images()[0].0 == old(self).active_id() + 1
                &&& final(self).images()[1] == (final(self).active_id(), Seq::<u8>::empty())
                &&& total_bytes(final(self).images()) == live_bytes(final(self).live_keys(), final(self).positions())
            },
            old(self).active_id() > u64::MAX - 2 ==> r is Err && *final(self) == *old(self),
    {
        if self.current_id > u64::MAX - 2 {
            return Err(KvError::Other(String::from_str("no segment id is left")));
        }
        self.compact_log();
        Ok(())
    }

    /// The stale-byte count.
    pub fn stale_bytes(&self) -> (r: u64)
        ensures
            r == self.stale(),
    {
        self.stale_data
    }

    /// The ids of the segments, oldest first.
    pub fn segment_ids(&self) -> (r: Vec<u64>)
        ensures
            r@ == self.images().map_values(|f: (u64, Seq<u8>)| f.0),
    {
        let mut out: Vec<u64> = Vec::new();
        let mut j: usize = 0;
        while j < self.segments.len()
            invariant
                j <= self.segments@.len(),
                out@ == self.images().subrange(0, j as int).map_values(|f: (u64, Seq<u8>)| f.0),
            decreases self.segments@.len() - j,
        {
            out.push(self.segments[j].id);
            j = j + 1;
            assert(out@ =~= self.images().subrange(0, j as int).map_values(|f: (u64, Seq<u8>)| f.0));
        }
        assert(self.images().subrange(0, j as int) =~= self.images());
        out
    }

    /// A copy of each segment file, as (id, bytes), oldest first.
    pub fn files(&self) -> (r: Vec<(u64, Vec<u8>)>)
        ensures
            files_view(r@) == self.images(),
    {
        let mut out: Vec<(u64, Vec<u8>)> = Vec::new();
        let mut j: usize = 0;
        while j < self.segments.len()
            invariant
                j <= self.segments@.len(),
                files_view(out@) == self.images().subrange(0, j as int),
            decreases self.segments@.len() - j,
        {
            let seg = &self.segments[j];
            let bytes = vstd::slice::slice_to_vec(seg.reader.data.as_slice());
            assert(bytes@ == self.images()[j as int].1);
            let ghost before = out@;
            out.push((seg.id, bytes));
            assert(files_view(out@) =~= files_view(before).push(self.images()[j as int]));
            j = j + 1;
            assert(files_view(out@) =~= self.images().subrange(0, j as int));
        }
        assert(self.images().subrange(0, j as int) =~= self.images());
        out
    }

    /// Hands over the disk operations recorded since the last call, oldest
    /// first.
    pub fn take_disk_ops(&mut self) -> (r: Vec<DiskOp>)
        requires
            old(self).wf(),
        ensures
            final(self).wf(),
            r@ == old(self).pending_ops(),
            final(self).pending_ops() == Seq::<DiskOp>::empty(),
            final(self).model() == old(self).model(),
            final(self).images() == old(self).images(),
            final(self).stale() == old(self).stale(),
            apply_ops(old(self).synced(), r@) == dir_of(final(self).images()),
            final(self).synced() == dir_of(final(self).images()),
    {
        let mut out: Vec<DiskOp> = Vec::new();
        std::mem::swap(&mut out, &mut self.pending);
        self.synced = Ghost(dir_of(self.images()));
        out
    }

    /// The invariants of a store, over its public views: the index holds
    /// exactly the live keys, each position holds the `Set` record of its key
    /// and value, the active segment is the last one, the ids increase, the
    /// segment files replay to the contents, and the stale-byte count is the
    /// (saturating) sum of the lengths of the records that later records
    /// superseded.
    pub proof fn lemma_invariants(&self)
        requires
            self.wf(),
        ensures
            self.positions().dom() == self.model().dom(),
            forall|k: Seq<char>| #[trigger]
                self.positions().contains_key(k) ==> record_in(
                    self.images(),
                    self.positions()[k],
                    CommandModel::Put { key: k, value: self.model()[k] },
                ) && self.positions()[k].len == encode_command(
                    CommandModel::Put { key: k, value: self.model()[k] },
                ).len(),
            self.images().len() >= 1,
            self.images().last().0 == self.active_id(),
            ids_ascending(self.images()),
            holds_logs(self.images(), self.logs()),
            self.model() == replay(all_records(self.logs())),
            self.stale() == replay_stale(all_records(self.logs())),
            apply_ops(self.synced(), self.pending_ops()) == dir_of(self.images()),
    {
        assert forall|k: Seq<char>| #[trigger] self.positions().contains_key(k) implies self.positions()[k].len
            == encode_command(CommandModel::Put { key: k, value: self.model()[k] }).len() by {
            let c = CommandModel::Put { key: k, value: self.model()[k] };
            let j = choose|j: int| 0 <= j < self.images().len() && #[trigger] holds_at(self.images()[j], self.index@[k], c);
        }
    }

    /// The segment files of a store can be opened again, where one more
    /// segment id is left.
    pub proof fn lemma_files_open(&self)
        requires
            self.wf(),
            self.active_id() < u64::MAX,
        ensures
            Self::opens(self.images()),
    {
        assert(holds_logs(self.images(), self.logs@));
    }

    /// Reopening a store over the files it has written gives back the same
    /// contents: whatever store `open` returns over them holds what this one
    /// holds (and `lemma_files_open` shows that `open` succeeds).
    pub proof fn lemma_reopen(&self, threshold: u64, other: KvStore)
        requires
            self.wf(),
            self.active_id() < u64::MAX,
            Self::opened(self.images(), other, threshold),
        ensures
            other.model() == self.model(),
    {
        assert(holds_logs(self.images(), self.logs@));
    }
}

} // verus!
