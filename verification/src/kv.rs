//! The storage engine: an append-only segment log, the in-memory index that
//! points every key at its latest `Put` record, recovery that rebuilds the
//! index from segment bytes, and compaction that rewrites live records into a
//! fresh segment.

use crate::error::{Error, ErrorKind};
use crate::record::{
    dec_at, decode_at, enc, enc_stream, encode, lemma_dec_complete, lemma_dec_sound,
    lemma_parse_enc_stream,
    lemma_window_slice, parse_stream, Command, Rec,
};
use crate::COMPACTION_THRESHOLD;
use vstd::prelude::*;

verus! {

/// One log segment: its generation id and its full byte content.
pub struct Segment {
    pub file_id: u64,
    pub data: Vec<u8>,
}

/// Where a key's latest live `Put` record lies on disk.
#[derive(Clone, Copy)]
struct CommandPos {
    file_id: u64,
    pos: usize,
    len: usize,
}

/// What replay knows about one live key: the span of its latest `Put` record
/// and the value that record carries.
pub struct Entry {
    pub file_id: u64,
    pub pos: int,
    pub len: int,
    pub value: Seq<char>,
}

/// The state of a replay in progress: the live table and the byte position
/// inside the segment being replayed.
pub struct RState {
    pub tbl: Map<Seq<char>, Entry>,
    pub pos: int,
}

/// One replay step: how a single record changes the live table.
pub open spec fn rstep(st: RState, id: u64, r: Rec) -> RState {
    let n = enc(r).len() as int;
    match r {
        Rec::Put { key, value } => RState {
            tbl: st.tbl.insert(key, Entry { file_id: id, pos: st.pos, len: n, value }),
            pos: st.pos + n,
        },
        Rec::Remove { key } => RState { tbl: st.tbl.remove(key), pos: st.pos + n },
    }
}

/// Replays the records of one segment, oldest first.
pub open spec fn replay_recs(st: RState, id: u64, h: Seq<Rec>) -> RState
    decreases h.len(),
{
    if h.len() == 0 {
        st
    } else {
        rstep(replay_recs(st, id, h.drop_last()), id, h.last())
    }
}

/// Replays whole segments in ascending generation order; the byte position
/// restarts at zero for each segment.
pub open spec fn replay_segs(segs: Seq<(u64, Seq<Rec>)>) -> RState
    decreases segs.len(),
{
    if segs.len() == 0 {
        RState { tbl: Map::empty(), pos: 0 }
    } else {
        let st = replay_segs(segs.drop_last());
        replay_recs(RState { tbl: st.tbl, pos: 0 }, segs.last().0, segs.last().1)
    }
}

/// Total bytes held by a run of segments.
pub open spec fn total_of(segs: Seq<Segment>) -> int
    decreases segs.len(),
{
    if segs.len() == 0 {
        0
    } else {
        total_of(segs.drop_last()) + segs.last().data@.len()
    }
}

/// Bytes occupied by the records the index points at: the live bytes.
spec fn live_of(ix: Seq<(String, CommandPos)>) -> int
    decreases ix.len(),
{
    if ix.len() == 0 {
        0
    } else {
        live_of(ix.drop_last()) + ix.last().1.len
    }
}

/// The index rows name pairwise distinct keys and agree with the replay
/// table: same key set, same record spans.
spec fn index_matches(ix: Seq<(String, CommandPos)>, tbl: Map<Seq<char>, Entry>) -> bool {
    &&& forall|i: int, j: int| 0 <= i < j < ix.len() ==> ix[i].0@ != ix[j].0@
    &&& forall|i: int|
        0 <= i < ix.len() ==> {
            &&& tbl.dom().contains(#[trigger] ix[i].0@)
            &&& tbl[ix[i].0@].file_id == ix[i].1.file_id
            &&& tbl[ix[i].0@].pos == ix[i].1.pos as int
            &&& tbl[ix[i].0@].len == ix[i].1.len as int
        }
    &&& forall|k: Seq<char>|
        tbl.dom().contains(k) ==> exists|i: int| 0 <= i < ix.len() && (#[trigger] ix[i].0@) == k
}

/// The span of one index row lies inside the segment it names and holds
/// exactly the encoding of a `Put` of that key and value.
spec fn entry_window_ok(
    segs: Seq<Segment>,
    row: (String, CommandPos),
    value: Seq<char>,
) -> bool {
    exists|j: int|
        {
            &&& 0 <= j < segs.len()
            &&& (#[trigger] segs[j]).file_id == row.1.file_id
            &&& row.1.pos + row.1.len <= segs[j].data@.len()
            &&& segs[j].data@.subrange(row.1.pos as int, row.1.pos + row.1.len) == enc(
                Rec::Put { key: row.0@, value },
            )
        }
}

/// Every index row points at a valid window.
spec fn windows_ok(
    segs: Seq<Segment>,
    ix: Seq<(String, CommandPos)>,
    tbl: Map<Seq<char>, Entry>,
) -> bool {
    forall|i: int|
        0 <= i < ix.len() ==> entry_window_ok(segs, #[trigger] ix[i], tbl[ix[i].0@].value)
}

/// The generation ids are strictly ascending.
pub open spec fn ids_sorted(segs: Seq<Segment>) -> bool {
    forall|i: int, j: int|
        0 <= i < j < segs.len() ==> (#[trigger] segs[i]).file_id < (#[trigger] segs[j]).file_id
}

/// Every segment parses cleanly from its first byte to its last.
pub open spec fn all_parse(segs: Seq<Segment>) -> bool {
    forall|i: int| 0 <= i < segs.len() ==> parse_stream((#[trigger] segs[i]).data@, 0) is Some
}

/// When recovery accepts a run of segments: ascending ids, one generation id
/// left to allocate, a total size the byte counter can hold, and every record
/// well formed. A truncated or malformed trailing record is a hard failure.
pub open spec fn spec_open_ok(segs: Seq<Segment>) -> bool {
    &&& ids_sorted(segs)
    &&& (segs.len() > 0 ==> segs.last().file_id < u64::MAX)
    &&& total_of(segs) <= u64::MAX
    &&& all_parse(segs)
}

/// Each segment id with the records its bytes parse to.
pub open spec fn zip_hist(segs: Seq<Segment>) -> Seq<(u64, Seq<Rec>)> {
    Seq::new(segs.len(), |i: int| (segs[i].file_id, parse_stream(segs[i].data@, 0)->Some_0))
}

/// The key-value mapping recovery rebuilds from a run of segments.
pub open spec fn spec_open_table(segs: Seq<Segment>) -> Map<Seq<char>, Seq<char>> {
    let tbl = replay_segs(zip_hist(segs)).tbl;
    Map::new(|k: Seq<char>| tbl.dom().contains(k), |k: Seq<char>| tbl[k].value)
}

/// The span of the record a key was superseded at: the stale bytes one
/// overwrite frees, zero when the key was not live.
pub open spec fn grew_of(pre: KvStore, k: Seq<char>) -> int {
    if pre@.dom().contains(k) {
        pre.tbl()[k].len
    } else {
        0
    }
}

/// The disk after one append: every sealed segment byte-identical, the active
/// segment grown by exactly `bytes`.
pub open spec fn appended_disk(pre: KvStore, post: KvStore, bytes: Seq<u8>) -> bool {
    &&& post.disk().len() == pre.disk().len()
    &&& forall|i: int| 0 <= i < pre.disk().len() - 1 ==> #[trigger] post.disk()[i] == pre.disk()[i]
    &&& post.disk().last().file_id == pre.disk().last().file_id
    &&& post.disk().last().data@ == pre.disk().last().data@ + bytes
}

/// How `set` moves the disk. When the stale bytes stay at or under the
/// threshold, the call appends exactly the encoded record to the active
/// segment, points the index at it and adds the superseded span to the stale
/// count; past the threshold, compaction has run before returning: no stale
/// byte is left, two generations were allocated and the store shrank by
/// exactly the dead bytes.
pub open spec fn set_disk_post(pre: KvStore, post: KvStore, k: Seq<char>, v: Seq<char>) -> bool {
    let e = enc(Rec::Put { key: k, value: v });
    let grew = grew_of(pre, k);
    if pre.stale_bytes() + grew <= COMPACTION_THRESHOLD {
        &&& appended_disk(pre, post, e)
        &&& post.active_id() == pre.active_id()
        &&& post.stale_bytes() == pre.stale_bytes() + grew
        &&& post.total_bytes() == pre.total_bytes() + e.len()
        &&& post.tbl()[k] == (Entry {
            file_id: pre.active_id(),
            pos: pre.disk().last().data@.len() as int,
            len: e.len() as int,
            value: v,
        })
    } else {
        &&& post.stale_bytes() == 0
        &&& post.active_id() == pre.active_id() + 2
        &&& post.disk().len() == 2
        &&& post.total_bytes() == pre.total_bytes() + e.len() - (pre.stale_bytes() + grew)
        &&& post.total_bytes() < pre.total_bytes() + e.len()
    }
}

/// How `remove` moves the disk. The tombstone is appended and counted stale
/// in every case, even when the key was absent and the call reports failure;
/// a live key frees its record's span as well, and past the threshold
/// compaction has run exactly as for `set`.
pub open spec fn remove_disk_post(pre: KvStore, post: KvStore, k: Seq<char>) -> bool {
    let e = enc(Rec::Remove { key: k });
    if pre@.dom().contains(k) {
        let grew = pre.tbl()[k].len + e.len();
        if pre.stale_bytes() + grew <= COMPACTION_THRESHOLD {
            &&& appended_disk(pre, post, e)
            &&& post.active_id() == pre.active_id()
            &&& post.stale_bytes() == pre.stale_bytes() + grew
            &&& post.total_bytes() == pre.total_bytes() + e.len()
        } else {
            &&& post.stale_bytes() == 0
            &&& post.active_id() == pre.active_id() + 2
            &&& post.disk().len() == 2
            &&& post.total_bytes() == pre.total_bytes() + e.len() - (pre.stale_bytes() + grew)
        }
    } else {
        &&& appended_disk(pre, post, e)
        &&& post.active_id() == pre.active_id()
        &&& post.stale_bytes() == pre.stale_bytes() + e.len()
        &&& post.total_bytes() == pre.total_bytes() + e.len()
    }
}

/// The key-value store.
pub struct KvStore {
    segments: Vec<Segment>,
    history: Ghost<Seq<Seq<Rec>>>,
    index: Vec<(String, CommandPos)>,
    current_file_id: u64,
    uncompact_len: u64,
}

impl KvStore {
    /// The segments paired with the records each one holds.
    pub closed spec fn seg_hist(self) -> Seq<(u64, Seq<Rec>)> {
        Seq::new(self.segments@.len(), |i: int| (self.segments@[i].file_id, self.history@[i]))
    }

    /// The replay state of everything on disk.
    pub closed spec fn rstate(self) -> RState {
        replay_segs(self.seg_hist())
    }

    /// The live table: each key with the span and value of its latest `Put`.
    pub closed spec fn tbl(self) -> Map<Seq<char>, Entry> {
        self.rstate().tbl
    }

    /// Total bytes held by all segments.
    pub closed spec fn total_bytes(self) -> int {
        total_of(self.segments@)
    }

    /// Bytes occupied by live records.
    pub closed spec fn live_bytes(self) -> int {
        live_of(self.index@)
    }

    /// Bytes occupied by records no longer reachable from the index.
    pub open spec fn stale_bytes(self) -> int {
        self.total_bytes() - self.live_bytes()
    }

    /// The generation id of the active segment.
    pub closed spec fn active_id(self) -> u64 {
        self.current_file_id
    }

    /// Well-formedness: the invariant every operation preserves.
    pub closed spec fn wf(self) -> bool {
        let segs = self.segments@;
        let ix = self.index@;
        &&& segs.len() >= 1
        &&& forall|i: int, j: int|
            0 <= i < j < segs.len() ==> (#[trigger] segs[i]).file_id < (#[trigger] segs[j]).file_id
        &&& segs.last().file_id == self.current_file_id
        &&& self.history@.len() == segs.len()
        &&& forall|i: int|
            0 <= i < segs.len() ==> (#[trigger] segs[i]).data@ == enc_stream(self.history@[i])
        &&& index_matches(ix, self.tbl())
        &&& windows_ok(segs, ix, self.tbl())
        &&& self.rstate().pos == segs.last().data@.len()
        &&& self.uncompact_len as int == self.total_bytes() - self.live_bytes()
        &&& self.total_bytes() <= u64::MAX
    }
}

impl View for KvStore {
    type V = Map<Seq<char>, Seq<char>>;

    /// The map from each live key to its current value.
    closed spec fn view(&self) -> Map<Seq<char>, Seq<char>> {
        Map::new(|k: Seq<char>| self.tbl().dom().contains(k), |k: Seq<char>| self.tbl()[k].value)
    }
}

/// The live-byte sum is never negative.
proof fn lemma_live_nonneg(ix: Seq<(String, CommandPos)>)
    ensures
        live_of(ix) >= 0,
    decreases ix.len(),
{
    if ix.len() > 0 {
        lemma_live_nonneg(ix.drop_last());
    }
}

/// Replacing one row changes the live-byte sum by the difference of spans.
proof fn lemma_live_update(ix: Seq<(String, CommandPos)>, i: int, e: (String, CommandPos))
    requires
        0 <= i < ix.len(),
    ensures
        live_of(ix.update(i, e)) == live_of(ix) - ix[i].1.len + e.1.len,
    decreases ix.len(),
{
    if i == ix.len() - 1 {
        assert(ix.update(i, e).drop_last() =~= ix.drop_last());
        assert(ix.update(i, e).last() == e);
    } else {
        assert(ix.update(i, e).drop_last() =~= ix.drop_last().update(i, e));
        assert(ix.update(i, e).last() == ix.last());
        lemma_live_update(ix.drop_last(), i, e);
    }
}

/// Removing one row lowers the live-byte sum by its span.
proof fn lemma_live_remove(ix: Seq<(String, CommandPos)>, i: int)
    requires
        0 <= i < ix.len(),
    ensures
        live_of(ix.remove(i)) == live_of(ix) - ix[i].1.len,
    decreases ix.len(),
{
    if i == ix.len() - 1 {
        assert(ix.remove(i) =~= ix.drop_last());
    } else {
        assert(ix.remove(i).drop_last() =~= ix.drop_last().remove(i));
        assert(ix.remove(i).last() == ix.last());
        lemma_live_remove(ix.drop_last(), i);
    }
}

/// Replacing the last segment changes the total by the difference in length.
proof fn lemma_total_update_last(segs: Seq<Segment>, s: Segment)
    requires
        segs.len() >= 1,
    ensures
        total_of(segs.update(segs.len() - 1, s)) == total_of(segs) - segs.last().data@.len()
            + s.data@.len(),
{
    assert(segs.update(segs.len() - 1, s).drop_last() =~= segs.drop_last());
    assert(segs.update(segs.len() - 1, s).last() == s);
}

/// Extending a sequence does not disturb a window inside its old part.
proof fn lemma_subrange_extend(a: Seq<u8>, b: Seq<u8>, x: int, y: int)
    requires
        0 <= x <= y <= a.len(),
    ensures
        (a + b).subrange(x, y) == a.subrange(x, y),
{
    assert((a + b).subrange(x, y) =~= a.subrange(x, y));
}

/// Replaying one segment's history extended by a record steps its state.
proof fn lemma_replay_push(st0: RState, id: u64, h: Seq<Rec>, r: Rec)
    ensures
        replay_recs(st0, id, h.push(r)) == rstep(replay_recs(st0, id, h), id, r),
{
    assert(h.push(r).drop_last() =~= h);
    assert(h.push(r).last() == r);
}

/// The replay state over one segment's records, starting from nothing.
spec fn creplay(id: u64, h: Seq<Rec>) -> RState {
    replay_recs(RState { tbl: Map::empty(), pos: 0 }, id, h)
}

/// Appending one record to the newest segment steps the whole replay state.
proof fn lemma_replay_segs_snoc(segs: Seq<(u64, Seq<Rec>)>, r: Rec)
    requires
        segs.len() >= 1,
    ensures
        replay_segs(segs.update(segs.len() - 1, (segs.last().0, segs.last().1.push(r))))
            == rstep(replay_segs(segs), segs.last().0, r),
{
    let segs2 = segs.update(segs.len() - 1, (segs.last().0, segs.last().1.push(r)));
    assert(segs2.drop_last() =~= segs.drop_last());
    assert(segs2.last() == (segs.last().0, segs.last().1.push(r)));
    let st0 = replay_segs(segs.drop_last());
    lemma_replay_push(RState { tbl: st0.tbl, pos: 0 }, segs.last().0, segs.last().1, r);
}

/// A valid window stays valid when the newest segment is extended and the
/// other segments stay as they are.
proof fn lemma_window_survives(
    pre_segs: Seq<Segment>,
    new_segs: Seq<Segment>,
    row: (String, CommandPos),
    value: Seq<char>,
)
    requires
        new_segs.len() == pre_segs.len(),
        pre_segs.len() >= 1,
        forall|i: int| 0 <= i < pre_segs.len() - 1 ==> #[trigger] new_segs[i] == pre_segs[i],
        new_segs.last().file_id == pre_segs.last().file_id,
        pre_segs.last().data@.len() <= new_segs.last().data@.len(),
        new_segs.last().data@.subrange(0, pre_segs.last().data@.len() as int) == pre_segs.last().data@,
        entry_window_ok(pre_segs, row, value),
    ensures
        entry_window_ok(new_segs, row, value),
{
    let jw = choose|jw: int|
        {
            &&& 0 <= jw < pre_segs.len()
            &&& (#[trigger] pre_segs[jw]).file_id == row.1.file_id
            &&& row.1.pos + row.1.len <= pre_segs[jw].data@.len()
            &&& pre_segs[jw].data@.subrange(row.1.pos as int, row.1.pos + row.1.len) == enc(
                Rec::Put { key: row.0@, value },
            )
        };
    if jw == pre_segs.len() - 1 {
        lemma_window_slice(
            new_segs.last().data@,
            0,
            pre_segs.last().data@,
            row.1.pos as int,
            row.1.pos + row.1.len,
        );
        assert(0 <= jw < new_segs.len() && new_segs[jw].file_id == row.1.file_id && row.1.pos
            + row.1.len <= new_segs[jw].data@.len() && new_segs[jw].data@.subrange(
            row.1.pos as int,
            row.1.pos + row.1.len,
        ) == enc(Rec::Put { key: row.0@, value }));
    } else {
        assert(new_segs[jw] == pre_segs[jw]);
        assert(0 <= jw < new_segs.len() && new_segs[jw].file_id == row.1.file_id && row.1.pos
            + row.1.len <= new_segs[jw].data@.len() && new_segs[jw].data@.subrange(
            row.1.pos as int,
            row.1.pos + row.1.len,
        ) == enc(Rec::Put { key: row.0@, value }));
    }
}

/// A prefix of a segment run holds at most the whole run's bytes.
proof fn lemma_total_prefix(segs: Seq<Segment>, i: int)
    requires
        0 <= i <= segs.len(),
    ensures
        total_of(segs.subrange(0, i)) <= total_of(segs),
    decreases segs.len() - i,
{
    if i == segs.len() {
        assert(segs.subrange(0, i) =~= segs);
    } else {
        lemma_total_prefix(segs, i + 1);
        assert(segs.subrange(0, i + 1).drop_last() =~= segs.subrange(0, i));
        assert(segs.subrange(0, i + 1).last() == segs[i]);
    }
}

/// Writing one key's row keeps the index in step with inserting that key in
/// the replay table.
proof fn lemma_matches_put(
    old_ix: Seq<(String, CommandPos)>,
    new_ix: Seq<(String, CommandPos)>,
    tbl0: Map<Seq<char>, Entry>,
    k: Seq<char>,
    entry: Entry,
    cp: CommandPos,
    special: int,
)
    requires
        index_matches(old_ix, tbl0),
        entry.file_id == cp.file_id,
        entry.pos == cp.pos as int,
        entry.len == cp.len as int,
        0 <= special < new_ix.len(),
        new_ix[special].0@ == k,
        new_ix[special].1 == cp,
        forall|t: int|
            0 <= t < new_ix.len() && t != special ==> exists|u: int|
                0 <= u < old_ix.len() && (#[trigger] new_ix[t]) == old_ix[u] && old_ix[u].0@ != k,
        forall|u: int|
            0 <= u < old_ix.len() && (#[trigger] old_ix[u].0@) != k ==> exists|t: int|
                0 <= t < new_ix.len() && new_ix[t] == old_ix[u],
        forall|t: int, u: int|
            0 <= t < u < new_ix.len() ==> (#[trigger] new_ix[t].0@) != (#[trigger] new_ix[u].0@),
    ensures
        index_matches(new_ix, tbl0.insert(k, entry)),
{
    let tbln = tbl0.insert(k, entry);
    assert forall|t: int|
        0 <= t < new_ix.len() implies {
        &&& tbln.dom().contains(#[trigger] new_ix[t].0@)
        &&& tbln[new_ix[t].0@].file_id == new_ix[t].1.file_id
        &&& tbln[new_ix[t].0@].pos == new_ix[t].1.pos as int
        &&& tbln[new_ix[t].0@].len == new_ix[t].1.len as int
    } by {
        if t != special {
            let u = choose|u: int|
                0 <= u < old_ix.len() && (#[trigger] new_ix[t]) == old_ix[u] && old_ix[u].0@ != k;
            assert(tbln[old_ix[u].0@] == tbl0[old_ix[u].0@]);
        }
    }
    assert forall|kk: Seq<char>| tbln.dom().contains(kk) implies exists|t: int|
        0 <= t < new_ix.len() && (#[trigger] new_ix[t].0@) == kk by {
        if kk == k {
            assert(new_ix[special].0@ == kk);
        } else {
            assert(tbl0.dom().contains(kk));
            let u = choose|u: int| 0 <= u < old_ix.len() && (#[trigger] old_ix[u].0@) == kk;
            let t = choose|t: int| 0 <= t < new_ix.len() && new_ix[t] == old_ix[u];
            assert(new_ix[t].0@ == kk);
        }
    }
}

/// Dropping one key's row keeps the index in step with removing that key
/// from the replay table.
proof fn lemma_matches_remove(
    old_ix: Seq<(String, CommandPos)>,
    tbl0: Map<Seq<char>, Entry>,
    i: int,
    k: Seq<char>,
)
    requires
        index_matches(old_ix, tbl0),
        0 <= i < old_ix.len(),
        old_ix[i].0@ == k,
    ensures
        index_matches(old_ix.remove(i), tbl0.remove(k)),
{
    let ixn = old_ix.remove(i);
    let tbln = tbl0.remove(k);
    old_ix.remove_ensures(i);
    assert forall|t: int, u: int|
        0 <= t < u < ixn.len() implies (#[trigger] ixn[t].0@) != (#[trigger] ixn[u].0@) by {
        let t0 = if t < i {
            t
        } else {
            t + 1
        };
        let u0 = if u < i {
            u
        } else {
            u + 1
        };
        assert(ixn[t] == old_ix[t0] && ixn[u] == old_ix[u0]);
    }
    assert forall|t: int|
        0 <= t < ixn.len() implies {
        &&& tbln.dom().contains(#[trigger] ixn[t].0@)
        &&& tbln[ixn[t].0@].file_id == ixn[t].1.file_id
        &&& tbln[ixn[t].0@].pos == ixn[t].1.pos as int
        &&& tbln[ixn[t].0@].len == ixn[t].1.len as int
    } by {
        let t0 = if t < i {
            t
        } else {
            t + 1
        };
        assert(ixn[t] == old_ix[t0]);
        assert(old_ix[t0].0@ != k) by {
            if t0 < i {
                assert(old_ix[t0].0@ != old_ix[i].0@);
            } else {
                assert(old_ix[i].0@ != old_ix[t0].0@);
            }
        }
        assert(tbln[old_ix[t0].0@] == tbl0[old_ix[t0].0@]);
    }
    assert forall|kk: Seq<char>| tbln.dom().contains(kk) implies exists|t: int|
        0 <= t < ixn.len() && (#[trigger] ixn[t].0@) == kk by {
        assert(tbl0.dom().contains(kk) && kk != k);
        let u = choose|u: int| 0 <= u < old_ix.len() && (#[trigger] old_ix[u].0@) == kk;
        assert(u != i);
        if u < i {
            assert(ixn[u].0@ == kk);
        } else {
            assert(ixn[u - 1].0@ == kk);
        }
    }
}

/// Writes `key` to point at `cp`: replaces the key's row, or adds one.
/// Returns the replaced span, if the key was present.
fn index_upsert(index: &mut Vec<(String, CommandPos)>, key: String, cp: CommandPos) -> (r: Option<
    CommandPos,
>)
    ensures
        match r {
            Some(oldcp) => exists|i: int|
                {
                    &&& 0 <= i < old(index)@.len()
                    &&& (#[trigger] old(index)@[i]).0@ == key@
                    &&& old(index)@[i].1 == oldcp
                    &&& final(index)@.len() == old(index)@.len()
                    &&& final(index)@[i].0@ == key@
                    &&& final(index)@[i].1 == cp
                    &&& final(index)@ == old(index)@.update(i, final(index)@[i])
                },
            None => {
                &&& forall|i: int|
                    0 <= i < old(index)@.len() ==> (#[trigger] old(index)@[i].0@) != key@
                &&& final(index)@.len() == old(index)@.len() + 1
                &&& final(index)@.last().0@ == key@
                &&& final(index)@.last().1 == cp
                &&& final(index)@ == old(index)@.push(final(index)@.last())
            },
        },
{
    match index_find(index, &key) {
        Some(i) => {
            let oldcp = index[i].1;
            index[i] = (key, cp);
            Some(oldcp)
        },
        None => {
            index.push((key, cp));
            None
        },
    }
}

/// Finds the row of `key` in the index, if any.
fn index_find(index: &Vec<(String, CommandPos)>, key: &String) -> (r: Option<usize>)
    ensures
        match r {
            Some(i) => i < index@.len() && index@[i as int].0@ == key@,
            None => forall|i: int| 0 <= i < index@.len() ==> (#[trigger] index@[i].0@) != key@,
        },
{
    let mut i: usize = 0;
    while i < index.len()
        invariant
            i <= index@.len(),
            forall|j: int| 0 <= j < i ==> (#[trigger] index@[j].0@) != key@,
        decreases index@.len() - i,
    {
        if index[i].0 == *key {
            return Some(i);
        }
        i = i + 1;
    }
    None
}

/// Finds the segment with the given generation id, if any.
fn find_segment(segments: &Vec<Segment>, file_id: u64) -> (r: Option<usize>)
    ensures
        match r {
            Some(j) => j < segments@.len() && segments@[j as int].file_id == file_id,
            None => forall|j: int|
                0 <= j < segments@.len() ==> (#[trigger] segments@[j]).file_id != file_id,
        },
{
    let mut j: usize = 0;
    while j < segments.len()
        invariant
            j <= segments@.len(),
            forall|i: int| 0 <= i < j ==> (#[trigger] segments@[i]).file_id != file_id,
        decreases segments@.len() - j,
    {
        if segments[j].file_id == file_id {
            return Some(j);
        }
        j = j + 1;
    }
    None
}

/// Replays one segment's bytes into the index, as recovery does: every `Put`
/// points its key here, every `Remove` drops its key, and the bytes they
/// supersede are added to the stale count.
#[verifier::rlimit(100)]
fn load_index(
    file_id: u64,
    seg_at: usize,
    segments: &Vec<Segment>,
    index: &mut Vec<(String, CommandPos)>,
    stale: &mut u64,
    Ghost(tbl0): Ghost<Map<Seq<char>, Entry>>,
    Ghost(done): Ghost<int>,
) -> (r: Result<Ghost<Seq<Rec>>, Error>)
    requires
        seg_at < segments@.len(),
        segments@[seg_at as int].file_id == file_id,
        index_matches(old(index)@, tbl0),
        windows_ok(segments@, old(index)@, tbl0),
        (*old(stale)) as int == done - live_of(old(index)@),
        done >= 0,
        done + segments@[seg_at as int].data@.len() <= u64::MAX,
    ensures
        ({
            let data = segments@[seg_at as int].data@;
            match r {
                Ok(h) => {
                    &&& parse_stream(data, 0) == Some(h@)
                    &&& enc_stream(h@) == data
                    &&& ({
                        let st = replay_recs(RState { tbl: tbl0, pos: 0 }, file_id, h@);
                        &&& index_matches(final(index)@, st.tbl)
                        &&& windows_ok(segments@, final(index)@, st.tbl)
                        &&& st.pos == data.len()
                        &&& (*final(stale)) as int == done + data.len() - live_of(final(index)@)
                    })
                },
                Err(_) => parse_stream(data, 0) is None,
            }
        }),
{
    let ghost ds = segments@[seg_at as int].data@;
    let dlen = segments[seg_at].data.len();
    let mut pos: usize = 0;
    let ghost mut h: Seq<Rec> = Seq::<Rec>::empty();
    proof {
        assert(enc_stream(h) =~= ds.subrange(0, 0));
    }
    while pos < dlen
        invariant
            pos <= dlen,
            dlen == ds.len(),
            ds == segments@[seg_at as int].data@,
            seg_at < segments@.len(),
            segments@[seg_at as int].file_id == file_id,
            enc_stream(h) == ds.subrange(0, pos as int),
            match parse_stream(ds, pos as int) {
                Option::Some(t) => parse_stream(ds, 0) == Some(h + t),
                Option::None => parse_stream(ds, 0) is None,
            },
            replay_recs(RState { tbl: tbl0, pos: 0 }, file_id, h).pos == pos as int,
            index_matches(index@, replay_recs(RState { tbl: tbl0, pos: 0 }, file_id, h).tbl),
            windows_ok(segments@, index@, replay_recs(RState { tbl: tbl0, pos: 0 }, file_id, h).tbl),
            *stale as int == done + pos - live_of(index@),
            done >= 0,
            done + ds.len() <= u64::MAX,
        decreases dlen - pos,
    {
        let ghost st_pre = replay_recs(RState { tbl: tbl0, pos: 0 }, file_id, h);
        let (cmd, end) = match decode_at(&segments[seg_at].data, pos) {
            Some(p) => p,
            None => {
                return Err(Error::new(ErrorKind::StringError(String::from_str(
                    "malformed or truncated record",
                ))));
            },
        };
        let rl = end - pos;
        let ghost rec = cmd@;
        proof {
            lemma_dec_sound(ds, pos as int);
            assert(ds.subrange(pos as int, end as int) == enc(rec));
            assert(enc(rec).len() == rl);
            lemma_replay_push(RState { tbl: tbl0, pos: 0 }, file_id, h, rec);
            let prev = h;
            h = h.push(rec);
            assert(h.drop_last() =~= prev);
            assert(enc_stream(h) == ds.subrange(0, pos as int) + enc(rec));
            assert(enc_stream(h) =~= ds.subrange(0, end as int));
            // the tail of the greedy parse moves past this record
            if parse_stream(ds, end as int) is Some {
                let t = parse_stream(ds, end as int)->Some_0;
                assert(parse_stream(ds, pos as int) == Some(seq![rec] + t));
                assert(prev + (seq![rec] + t) =~= h + t);
            } else {
                assert(parse_stream(ds, pos as int) is None);
            }
            lemma_live_nonneg(index@);
        }
        let ghost st_now = replay_recs(RState { tbl: tbl0, pos: 0 }, file_id, h);
        let ghost old_ix = index@;
        match cmd {
            Command::Put { key, value: _ } => {
                let cp = CommandPos { file_id, pos, len: rl };
                let ghost entry = Entry {
                    file_id,
                    pos: pos as int,
                    len: rl as int,
                    value: rec->Put_value,
                };
                let ghost k = key@;
                let ghost special: int;
                match index_upsert(index, key, cp) {
                    Some(oldcp) => {
                        proof {
                            let i = choose|i: int|
                                {
                                    &&& 0 <= i < old_ix.len()
                                    &&& (#[trigger] old_ix[i]).0@ == k
                                    &&& old_ix[i].1 == oldcp
                                    &&& index@.len() == old_ix.len()
                                    &&& index@[i].0@ == k
                                    &&& index@[i].1 == cp
                                    &&& index@ == old_ix.update(i, index@[i])
                                };
                            special = i;
                            lemma_live_remove(old_ix, i);
                            lemma_live_nonneg(old_ix.remove(i));
                            lemma_live_update(old_ix, i, index@[i]);
                        }
                        *stale = *stale + oldcp.len as u64;
                    },
                    None => {
                        proof {
                            special = old_ix.len() as int;
                            assert(index@.drop_last() =~= old_ix);
                            assert(live_of(index@) == live_of(old_ix) + rl);
                        }
                    },
                }
                proof {
                    assert forall|t: int|
                        0 <= t < index@.len() && t != special implies exists|u: int|
                            0 <= u < old_ix.len() && (#[trigger] index@[t]) == old_ix[u]
                                && old_ix[u].0@ != k by {
                        assert(index@[t] == old_ix[t]);
                        assert(old_ix[t].0@ != k);
                    }
                    assert forall|u: int|
                        0 <= u < old_ix.len() && (#[trigger] old_ix[u].0@) != k implies exists|
                            t: int,
                        | 0 <= t < index@.len() && index@[t] == old_ix[u] by {
                        assert(index@[u] == old_ix[u]);
                    }
                    assert forall|t: int, u: int|
                        0 <= t < u < index@.len() implies (#[trigger] index@[t].0@)
                            != (#[trigger] index@[u].0@) by {
                        assert(index@[t].0@ == if t == special {
                            k
                        } else {
                            old_ix[t].0@
                        });
                        assert(index@[u].0@ == if u == special {
                            k
                        } else {
                            old_ix[u].0@
                        });
                    }
                    lemma_matches_put(old_ix, index@, st_pre.tbl, k, entry, cp, special);
                    assert(st_now.tbl == st_pre.tbl.insert(k, entry));
                    // windows: old rows keep theirs, the new row's is the
                    // record just decoded
                    assert forall|t: int|
                        0 <= t < index@.len() implies entry_window_ok(
                        segments@,
                        #[trigger] index@[t],
                        st_now.tbl[index@[t].0@].value,
                    ) by {
                        if t == special {
                            assert(0 <= seg_at < segments@.len() && segments@[seg_at as int].file_id
                                == cp.file_id && cp.pos + cp.len
                                <= segments@[seg_at as int].data@.len()
                                && segments@[seg_at as int].data@.subrange(
                                cp.pos as int,
                                cp.pos + cp.len,
                            ) == enc(Rec::Put { key: index@[t].0@, value: st_now.tbl[index@[t].0@].value }));
                        } else {
                            let u = choose|u: int|
                                0 <= u < old_ix.len() && (#[trigger] index@[t]) == old_ix[u]
                                    && old_ix[u].0@ != k;
                            assert(entry_window_ok(segments@, old_ix[u], st_pre.tbl[old_ix[u].0@].value));
                            assert(st_now.tbl[old_ix[u].0@].value == st_pre.tbl[old_ix[u].0@].value);
                        }
                    }
                }
            },
            Command::Remove { key } => {
                *stale = *stale + rl as u64;
                match index_find(index, &key) {
                    Some(i) => {
                        let oldcp = index[i].1;
                        proof {
                            lemma_live_remove(old_ix, i as int);
                            lemma_live_nonneg(old_ix.remove(i as int));
                        }
                        let _ = index.remove(i);
                        *stale = *stale + oldcp.len as u64;
                        proof {
                            lemma_matches_remove(old_ix, st_pre.tbl, i as int, key@);
                            assert(st_now.tbl == st_pre.tbl.remove(key@));
                            old_ix.remove_ensures(i as int);
                            assert forall|t: int|
                                0 <= t < index@.len() implies entry_window_ok(
                                segments@,
                                #[trigger] index@[t],
                                st_now.tbl[index@[t].0@].value,
                            ) by {
                                let t0 = if t < i as int {
                                    t
                                } else {
                                    t + 1
                                };
                                assert(index@[t] == old_ix[t0]);
                                assert(old_ix[t0].0@ != key@) by {
                                    if t0 < i as int {
                                        assert(old_ix[t0].0@ != old_ix[i as int].0@);
                                    } else {
                                        assert(old_ix[i as int].0@ != old_ix[t0].0@);
                                    }
                                }
                                assert(entry_window_ok(
                                    segments@,
                                    old_ix[t0],
                                    st_pre.tbl[old_ix[t0].0@].value,
                                ));
                                assert(st_now.tbl[old_ix[t0].0@].value == st_pre.tbl[old_ix[t0].0@].value);
                            }
                        }
                    },
                    None => {
                        proof {
                            if st_pre.tbl.dom().contains(key@) {
                                let u = choose|u: int|
                                    0 <= u < old_ix.len() && (#[trigger] old_ix[u].0@) == key@;
                                assert(index@[u].0@ == key@);
                            }
                            assert(st_pre.tbl.remove(key@) =~= st_pre.tbl);
                            assert(st_now.tbl == st_pre.tbl);
                        }
                    },
                }
            },
        }
        pos = end;
    }
    proof {
        assert(ds.subrange(0, pos as int) =~= ds);
        assert(parse_stream(ds, pos as int) == Some(Seq::<Rec>::empty()));
        assert(h + Seq::<Rec>::empty() =~= h);
    }
    Ok(Ghost(h))
}

impl KvStore {
    /// Opens a store over the segments found on disk, in ascending generation
    /// order, replaying every record to rebuild the index and the stale-byte
    /// count, then starting a fresh active segment one generation past the
    /// newest. Fails when the ids are not strictly ascending, when no
    /// generation id or byte count is left to allocate, or when any record is
    /// malformed or truncated.
    #[verifier::rlimit(100)]
    #[verifier::loop_isolation(false)]
    pub fn open(segments: Vec<Segment>) -> (r: Result<KvStore, Error>)
        ensures
            r is Ok <==> spec_open_ok(segments@),
            r matches Ok(st) ==> st.wf() && st@ == spec_open_table(segments@),
            r matches Ok(st) ==> ({
                &&& st.active_id() == (if segments@.len() == 0 {
                    1u64
                } else {
                    (segments@.last().file_id + 1) as u64
                })
                &&& st.disk().len() == segments@.len() + 1
                &&& forall|i: int|
                    0 <= i < segments@.len() ==> #[trigger] st.disk()[i] == segments@[i]
                &&& st.disk().last().file_id == st.active_id()
                &&& st.disk().last().data@ == Seq::<u8>::empty()
                &&& st.total_bytes() == total_of(segments@)
            }),
    {
        let ghost input = segments@;
        let mut segvec = segments;
        let n = segvec.len();
        // the ids must be strictly ascending
        let mut i: usize = 1;
        while i < n
            invariant
                n == segvec@.len(),
                segvec@ == input,
                1 <= i,
                forall|a: int, b: int|
                    0 <= a < b < i ==> (#[trigger] segvec@[a]).file_id < (
                    #[trigger] segvec@[b]).file_id,
            decreases n - i,
        {
            if segvec[i - 1].file_id >= segvec[i].file_id {
                proof {
                    assert(!((#[trigger] input[i - 1 as int]).file_id < (#[trigger] input[i as int]).file_id));
                    assert(!ids_sorted(input));
                    assert(!spec_open_ok(input));
                }
                return Err(Error::new(ErrorKind::StringError(String::from_str(
                    "segment ids out of order",
                ))));
            }
            proof {
                assert forall|a: int, b: int|
                    0 <= a < b < i + 1 implies (#[trigger] segvec@[a]).file_id < (
                #[trigger] segvec@[b]).file_id by {
                    if b == i as int {
                        if a < i - 1 {
                            assert(segvec@[a].file_id < segvec@[i - 1].file_id);
                        }
                    }
                }
            }
            i = i + 1;
        }
        // one more generation id must be left
        if n > 0 && segvec[n - 1].file_id == u64::MAX {
            return Err(Error::new(ErrorKind::StringError(String::from_str(
                "no generation id left",
            ))));
        }
        // the byte counter must be able to hold the whole store
        let mut total: u64 = 0;
        let mut s: usize = 0;
        proof {
            assert(input.subrange(0, 0) =~= Seq::<Segment>::empty());
        }
        while s < n
            invariant
                n == segvec@.len(),
                segvec@ == input,
                s <= n,
                total as int == total_of(input.subrange(0, s as int)),
            decreases n - s,
        {
            let dl = segvec[s].data.len();
            proof {
                assert(input.subrange(0, s + 1 as int).drop_last() =~= input.subrange(0, s as int));
                assert(input.subrange(0, s + 1 as int).last() == input[s as int]);
            }
            total = match total.checked_add(dl as u64) {
                Some(t) => t,
                None => {
                    proof {
                        assert(total_of(input.subrange(0, s + 1 as int)) > u64::MAX);
                        lemma_total_prefix(input, s + 1 as int);
                        assert(total_of(input) > u64::MAX);
                        assert(!spec_open_ok(input));
                    }
                    return Err(Error::new(ErrorKind::StringError(String::from_str(
                        "store too large",
                    ))));
                },
            };
            s = s + 1;
        }
        proof {
            assert(input.subrange(0, n as int) =~= input);
        }
        // replay every segment, oldest first
        let mut index: Vec<(String, CommandPos)> = Vec::new();
        let mut stale: u64 = 0;
        let ghost mut hist: Seq<Seq<Rec>> = Seq::<Seq<Rec>>::empty();
        let mut s: usize = 0;
        proof {
            assert(zip_hist(input.subrange(0, 0)) =~= Seq::<(u64, Seq<Rec>)>::empty());
            assert(live_of(index@) == 0);
        }
        while s < n
            invariant
                n == segvec@.len(),
                segvec@ == input,
                total_of(input) <= u64::MAX,
                s <= n,
                hist.len() == s as int,
                forall|t: int|
                    0 <= t < s ==> parse_stream((#[trigger] input[t]).data@, 0) == Some(hist[t])
                        && input[t].data@ == enc_stream(hist[t]),
                index_matches(index@, replay_segs(zip_hist(input.subrange(0, s as int))).tbl),
                windows_ok(
                    segvec@,
                    index@,
                    replay_segs(zip_hist(input.subrange(0, s as int))).tbl,
                ),
                stale as int == total_of(input.subrange(0, s as int)) - live_of(index@),
            decreases n - s,
        {
            let ghost pre = input.subrange(0, s as int);
            let ghost st0 = replay_segs(zip_hist(pre));
            proof {
                lemma_total_prefix(input, s + 1 as int);
                lemma_live_nonneg(index@);
                assert(input.subrange(0, s + 1 as int).drop_last() =~= pre);
                assert(input.subrange(0, s + 1 as int).last() == input[s as int]);
                assert(total_of(input.subrange(0, s + 1 as int)) == total_of(pre)
                    + input[s as int].data@.len());
            }
            let fid = segvec[s].file_id;
            let h = match load_index(
                fid,
                s,
                &segvec,
                &mut index,
                &mut stale,
                Ghost(st0.tbl),
                Ghost(total_of(pre)),
            ) {
                Ok(h) => h,
                Err(e) => {
                    proof {
                        assert(parse_stream((#[trigger] input[s as int]).data@, 0) is None);
                        assert(!all_parse(input));
                        assert(!spec_open_ok(input));
                    }
                    return Err(e);
                },
            };
            proof {
                hist = hist.push(h@);
                let cur = input.subrange(0, s + 1 as int);
                assert(zip_hist(cur).drop_last() =~= zip_hist(pre));
                assert(zip_hist(cur).last() == (fid, h@));
                assert(replay_segs(zip_hist(cur)) == replay_recs(
                    RState { tbl: st0.tbl, pos: 0 },
                    fid,
                    h@,
                ));
            }
            s = s + 1;
        }
        proof {
            assert(input.subrange(0, n as int) =~= input);
        }
        // open a fresh active segment one generation past the newest
        let next_id = if n == 0 {
            1
        } else {
            segvec[n - 1].file_id + 1
        };
        let active_data: Vec<u8> = Vec::new();
        segvec.push(Segment { file_id: next_id, data: active_data });
        let ghost hist2 = hist.push(Seq::<Rec>::empty());
        let st = KvStore {
            segments: segvec,
            history: Ghost(hist2),
            index,
            current_file_id: next_id,
            uncompact_len: stale,
        };
        proof {
            let segs = st.segments@;
            assert(segs.len() == n + 1);
            assert(segs.drop_last() =~= input);
            assert(segs.last().file_id == next_id);
            assert(segs.last().data@ =~= Seq::<u8>::empty());
            assert(enc_stream(Seq::<Rec>::empty()) =~= Seq::<u8>::empty());
            // ids stay ascending with the new one on top
            assert forall|a: int, b: int|
                0 <= a < b < segs.len() implies (#[trigger] segs[a]).file_id < (
            #[trigger] segs[b]).file_id by {
                if b == n as int {
                    if a < n - 1 {
                        assert(input[a].file_id < input[n - 1].file_id);
                    }
                }
            }
            // replaying the new empty segment changes nothing
            assert(st.seg_hist().drop_last() =~= zip_hist(input));
            assert(st.seg_hist().last() == (next_id, Seq::<Rec>::empty()));
            let st_in = replay_segs(zip_hist(input));
            assert(st.rstate() == (RState { tbl: st_in.tbl, pos: 0 }));
            // the windows all lie in the old segments
            assert forall|t: int|
                0 <= t < st.index@.len() implies entry_window_ok(
                segs,
                #[trigger] st.index@[t],
                st.tbl()[st.index@[t].0@].value,
            ) by {
                let row = st.index@[t];
                let v = st_in.tbl[row.0@].value;
                assert(entry_window_ok(input, row, v));
                let jw = choose|jw: int|
                    {
                        &&& 0 <= jw < input.len()
                        &&& (#[trigger] input[jw]).file_id == row.1.file_id
                        &&& row.1.pos + row.1.len <= input[jw].data@.len()
                        &&& input[jw].data@.subrange(row.1.pos as int, row.1.pos + row.1.len)
                            == enc(Rec::Put { key: row.0@, value: v })
                    };
                assert(segs[jw] == input[jw]);
            }
            // the books balance: the new segment holds no byte yet
            assert(total_of(segs) == total_of(input));
            assert(st@ =~= spec_open_table(input));
            assert forall|t: int| 0 <= t < input.len() implies #[trigger] st.disk()[t]
                == input[t] by {
                assert(segs.drop_last()[t] == segs[t]);
            }
        }
        Ok(st)
    }

    /// Looks a key up. Returns the stored value, or `None` when the key is
    /// absent; absence is a normal result, not an error.
    pub fn get(&self, key: String) -> (r: Result<Option<String>, Error>)
        requires
            self.wf(),
        ensures
            r is Ok,
            self@.dom().contains(key@) ==> (r->Ok_0 matches Some(s) && s@ == self@[key@]),
            !self@.dom().contains(key@) ==> r->Ok_0 is None,
    {
        let at = match index_find(&self.index, &key) {
            Some(i) => i,
            None => {
                proof {
                    if self.tbl().dom().contains(key@) {
                        let iw = choose|iw: int|
                            0 <= iw < self.index@.len() && (#[trigger] self.index@[iw].0@) == key@;
                        assert(self.index@[iw].0@ == key@);
                    }
                }
                return Ok(None);
            },
        };
        let cp = self.index[at].1;
        let ghost value = self.tbl()[self.index@[at as int].0@].value;
        proof {
            assert(entry_window_ok(self.segments@, self.index@[at as int], value));
        }
        let j = match find_segment(&self.segments, cp.file_id) {
            Some(j) => j,
            None => {
                proof {
                    let jw = choose|jw: int|
                        {
                            &&& 0 <= jw < self.segments@.len()
                            &&& (#[trigger] self.segments@[jw]).file_id == cp.file_id
                            &&& cp.pos + cp.len <= self.segments@[jw].data@.len()
                            &&& self.segments@[jw].data@.subrange(
                                cp.pos as int,
                                cp.pos + cp.len,
                            ) == enc(Rec::Put { key: self.index@[at as int].0@, value })
                        };
                    assert(self.segments@[jw].file_id == cp.file_id);
                    assert(false);
                }
                return Err(Error::new(ErrorKind::UnexpectedCommandType));
            },
        };
        let seg = &self.segments[j];
        let seg_len = seg.data.len();
        proof {
            assert(seg.data@.len() == seg_len);
            let jw = choose|jw: int|
                {
                    &&& 0 <= jw < self.segments@.len()
                    &&& (#[trigger] self.segments@[jw]).file_id == cp.file_id
                    &&& cp.pos + cp.len <= self.segments@[jw].data@.len()
                    &&& self.segments@[jw].data@.subrange(cp.pos as int, cp.pos + cp.len) == enc(
                        Rec::Put { key: self.index@[at as int].0@, value },
                    )
                };
            // generation ids are strictly increasing, so they are unique
            assert(jw == j as int);
            lemma_dec_complete(
                seg.data@,
                cp.pos as int,
                Rec::Put { key: self.index@[at as int].0@, value },
            );
        }
        match decode_at(&seg.data, cp.pos) {
            Some((Command::Put { key: _k, value: v }, _end)) => Ok(Some(v)),
            _ => {
                proof {
                    assert(false);
                }
                Err(Error::new(ErrorKind::UnexpectedCommandType))
            },
        }
    }

    /// Appends one encoded command to the active segment. Returns the byte
    /// position the record starts at and its encoded length. The index and
    /// counters are untouched: the caller brings them back in line.
    fn append_record(&mut self, cmd: &Command) -> (r: (usize, usize))
        requires
            old(self).wf(),
            old(self).total_bytes() + enc(cmd@).len() <= u64::MAX,
        ensures
            final(self).index == old(self).index,
            final(self).current_file_id == old(self).current_file_id,
            final(self).uncompact_len == old(self).uncompact_len,
            final(self).segments@.len() == old(self).segments@.len(),
            forall|i: int|
                0 <= i < old(self).segments@.len() - 1 ==> #[trigger] final(self).segments@[i]
                    == old(self).segments@[i],
            final(self).segments@.last().file_id == old(self).segments@.last().file_id,
            final(self).segments@.last().data@ == old(self).segments@.last().data@ + enc(cmd@),
            r.0 as int == old(self).segments@.last().data@.len(),
            r.1 == enc(cmd@).len(),
            final(self).rstate() == rstep(
                old(self).rstate(),
                old(self).current_file_id,
                cmd@,
            ),
            final(self).total_bytes() == old(self).total_bytes() + enc(cmd@).len(),
            final(self).rstate().pos == final(self).segments@.last().data@.len(),
            final(self).history@.len() == final(self).segments@.len(),
            forall|i: int|
                0 <= i < final(self).segments@.len() ==> (#[trigger] final(self).segments@[i]).data@ == enc_stream(final(self).history@[i]),
            forall|i: int, j: int|
                0 <= i < j < final(self).segments@.len() ==> (#[trigger] final(self).segments@[i]).file_id < (#[trigger] final(self).segments@[j]).file_id,
    {
        let e = encode(cmd);
        let elen = e.len();
        let ghost old_segs = self.segments@;
        let ghost old_hist = self.history@;
        let mut seg = match self.segments.pop() {
            Some(seg) => seg,
            None => {
                proof {
                    assert(false);
                }
                Segment { file_id: 0, data: Vec::new() }
            },
        };
        let pos = seg.data.len();
        let mut e2 = e;
        seg.data.append(&mut e2);
        self.segments.push(seg);
        let ghost new_last_hist = old_hist.last().push(cmd@);
        let ghost nh: Seq<Seq<Rec>> = old_hist.update(old_hist.len() - 1, new_last_hist);
        self.history = Ghost(nh);
        proof {
            assert(self.segments@ =~= old_segs.update(
                old_segs.len() - 1,
                self.segments@.last(),
            ));
            assert(new_last_hist.drop_last() =~= old_hist.last());
            assert(enc_stream(new_last_hist) == enc_stream(old_hist.last()) + enc(cmd@));
            assert(self.seg_hist() =~= old(self).seg_hist().update(
                old_segs.len() - 1,
                (old_segs.last().file_id, new_last_hist),
            ));
            lemma_replay_segs_snoc(old(self).seg_hist(), cmd@);
            lemma_total_update_last(old_segs, self.segments@.last());
        }
        (pos, elen)
    }

    /// Writes `key` to `value`: appends a `Put` record to the active segment,
    /// points the index at it, and compacts when the stale bytes pass the
    /// threshold. The bounds in `requires` are machine limits: the new record
    /// must fit the byte counter and two generation ids must be left.
    #[verifier::rlimit(100)]
    pub fn set(&mut self, key: String, value: String) -> (r: Result<(), Error>)
        requires
            old(self).wf(),
            old(self).total_bytes() + enc(Rec::Put { key: key@, value: value@ }).len()
                <= u64::MAX,
            old(self).active_id() + 2 <= u64::MAX,
        ensures
            r is Ok,
            final(self).wf(),
            final(self)@ == old(self)@.insert(key@, value@),
            final(self).stale_bytes() <= COMPACTION_THRESHOLD,
            set_disk_post(*old(self), *final(self), key@, value@),
    {
        let ghost rec = Rec::Put { key: key@, value: value@ };
        let cmd = Command::set(key.clone(), value);
        let (pos, elen) = self.append_record(&cmd);
        let ghost mid = *self;
        let ghost old_ix = self.index@;
        let ghost entry = Entry {
            file_id: self.current_file_id,
            pos: pos as int,
            len: elen as int,
            value: rec->Put_value,
        };
        proof {
            assert(self.tbl() == old(self).tbl().insert(key@, entry));
            // the appended record is a valid window for the new row
            assert(self.segments@.last().data@.subrange(pos as int, pos + elen) =~= enc(rec));
            lemma_live_nonneg(old_ix);
        }
        let cp = CommandPos { file_id: self.current_file_id, pos, len: elen };
        let ghost special: int;
        let ghost grew: int;
        match index_upsert(&mut self.index, key, cp) {
            Some(oldcp) => {
                proof {
                    let i = choose|i: int|
                        {
                            &&& 0 <= i < old_ix.len()
                            &&& (#[trigger] old_ix[i]).0@ == key@
                            &&& old_ix[i].1 == oldcp
                            &&& self.index@.len() == old_ix.len()
                            &&& self.index@[i].0@ == key@
                            &&& self.index@[i].1 == cp
                            &&& self.index@ == old_ix.update(i, self.index@[i])
                        };
                    special = i;
                    grew = oldcp.len as int;
                    assert(old(self).tbl().dom().contains(old_ix[i].0@));
                    assert(old(self).tbl()[key@].len == oldcp.len);
                    assert(old(self)@.dom().contains(key@));
                    lemma_live_remove(old_ix, i);
                    lemma_live_nonneg(old_ix.remove(i));
                    lemma_live_update(old_ix, i, self.index@[i]);
                }
                self.uncompact_len = self.uncompact_len + oldcp.len as u64;
            },
            None => {
                proof {
                    special = old_ix.len() as int;
                    grew = 0;
                    if old(self).tbl().dom().contains(key@) {
                        let u = choose|u: int|
                            0 <= u < old_ix.len() && (#[trigger] old_ix[u].0@) == key@;
                        assert(old_ix[u].0@ == key@);
                    }
                    assert(!old(self)@.dom().contains(key@));
                    assert(self.index@.drop_last() =~= old_ix);
                    assert(live_of(self.index@) == live_of(old_ix) + elen);
                }
            },
        }
        proof {
            assert(grew == grew_of(*old(self), key@));
            assert(self.uncompact_len as int == old(self).stale_bytes() + grew);
            // the index rows around the written one are untouched old rows
            assert forall|t: int|
                0 <= t < self.index@.len() && t != special implies exists|u: int|
                    0 <= u < old_ix.len() && (#[trigger] self.index@[t]) == old_ix[u] && old_ix[u].0@ != key@ by {
                assert(self.index@[t] == old_ix[t]);
                assert(old_ix[t].0@ != key@);
            }
            assert forall|u: int|
                0 <= u < old_ix.len() && (#[trigger] old_ix[u].0@) != key@ implies exists|t: int|
                    0 <= t < self.index@.len() && self.index@[t] == old_ix[u] by {
                assert(self.index@[u] == old_ix[u]);
            }
            assert forall|t: int, u: int|
                0 <= t < u < self.index@.len() implies (#[trigger] self.index@[t].0@)
                    != (#[trigger] self.index@[u].0@) by {
                assert(self.index@[t].0@ == if t == special {
                    key@
                } else {
                    old_ix[t].0@
                });
                assert(self.index@[u].0@ == if u == special {
                    key@
                } else {
                    old_ix[u].0@
                });
            }
            self.lemma_after_put(mid, *old(self), old_ix, special, key@, rec, entry, cp);
        }
        if self.uncompact_len > COMPACTION_THRESHOLD {
            let ghost mid2 = *self;
            match self.compact() {
                Ok(()) => {},
                Err(e) => {
                    proof {
                        assert(false);
                    }
                    return Err(e);
                },
            }
            proof {
                assert(mid2.stale_bytes() == old(self).stale_bytes() + grew);
                assert(mid2.total_bytes() == old(self).total_bytes() + enc(rec).len());
                assert(set_disk_post(*old(self), *self, key@, value@));
            }
        } else {
            proof {
                assert(self.stale_bytes() == old(self).stale_bytes() + grew);
                assert(self.total_bytes() == mid.total_bytes());
                assert forall|i: int|
                    0 <= i < old(self).disk().len() - 1 implies #[trigger] self.disk()[i] == old(
                self).disk()[i] by {
                    assert(mid.segments@[i] == old(self).segments@[i]);
                }
                assert(appended_disk(*old(self), *self, enc(rec)));
                assert(self.tbl()[key@] == entry);
                assert(set_disk_post(*old(self), *self, key@, value@));
            }
        }
        Ok(())
    }

    /// After a `Put` was appended and the index row written, the invariant
    /// holds again and the view gained exactly this binding.
    proof fn lemma_after_put(
        self,
        mid: KvStore,
        pre: KvStore,
        old_ix: Seq<(String, CommandPos)>,
        special: int,
        k: Seq<char>,
        rec: Rec,
        entry: Entry,
        cp: CommandPos,
    )
        requires
            rec == (Rec::Put { key: k, value: entry.value }),
            // what append_record left behind
            pre.wf(),
            mid.segments@.len() == pre.segments@.len(),
            forall|i: int|
                0 <= i < pre.segments@.len() - 1 ==> #[trigger] mid.segments@[i]
                    == pre.segments@[i],
            mid.segments@.last().file_id == pre.segments@.last().file_id,
            mid.segments@.last().data@ == pre.segments@.last().data@ + enc(rec),
            mid.current_file_id == pre.current_file_id,
            mid.tbl() == pre.tbl().insert(k, entry),
            mid.rstate().pos == mid.segments@.last().data@.len(),
            mid.total_bytes() == pre.total_bytes() + enc(rec).len(),
            mid.total_bytes() <= u64::MAX,
            mid.history@.len() == mid.segments@.len(),
            forall|i: int|
                0 <= i < mid.segments@.len() ==> (#[trigger] mid.segments@[i]).data@
                    == enc_stream(mid.history@[i]),
            forall|i: int, j: int|
                0 <= i < j < mid.segments@.len() ==> (#[trigger] mid.segments@[i]).file_id
                    < (#[trigger] mid.segments@[j]).file_id,
            // the entry describes the appended record
            entry.file_id == mid.current_file_id,
            entry.pos == pre.segments@.last().data@.len(),
            entry.len == enc(rec).len(),
            cp.file_id == entry.file_id,
            cp.pos as int == entry.pos,
            cp.len as int == entry.len,
            old_ix == pre.index@,
            // this store differs from mid only in the index and counter
            self.segments == mid.segments,
            self.history == mid.history,
            self.current_file_id == mid.current_file_id,
            // the written row, and the others around it
            0 <= special < self.index@.len(),
            self.index@[special].0@ == k,
            self.index@[special].1 == cp,
            forall|t: int|
                0 <= t < self.index@.len() && t != special ==> exists|u: int|
                    0 <= u < old_ix.len() && (#[trigger] self.index@[t]) == old_ix[u] && old_ix[u].0@ != k,
            forall|u: int|
                0 <= u < old_ix.len() && (#[trigger] old_ix[u].0@) != k ==> exists|t: int|
                    0 <= t < self.index@.len() && self.index@[t] == old_ix[u],
            forall|t: int, u: int|
                0 <= t < u < self.index@.len() ==> (#[trigger] self.index@[t].0@)
                    != (#[trigger] self.index@[u].0@),
            // the counter balances the books
            self.uncompact_len as int == self.total_bytes() - live_of(self.index@),
        ensures
            self.wf(),
            self@ == pre@.insert(k, entry.value),
    {
        assert(self.seg_hist() =~= mid.seg_hist());
        assert(self.tbl() == pre.tbl().insert(k, entry));
        assert(self.rstate() == mid.rstate());
        assert(self.total_bytes() == mid.total_bytes());
        let tbl0 = pre.tbl();
        let tbln = self.tbl();
        let ixn = self.index@;
        let segsn = self.segments@;
        let pre_segs = pre.segments@;
        assert(segsn.last().data@.subrange(0, pre_segs.last().data@.len() as int)
            =~= pre_segs.last().data@);
        // index_matches
        assert forall|t: int|
            0 <= t < ixn.len() implies {
            &&& tbln.dom().contains(#[trigger] ixn[t].0@)
            &&& tbln[ixn[t].0@].file_id == ixn[t].1.file_id
            &&& tbln[ixn[t].0@].pos == ixn[t].1.pos as int
            &&& tbln[ixn[t].0@].len == ixn[t].1.len as int
        } by {
            if t == special {
            } else {
                let u = choose|u: int|
                    0 <= u < old_ix.len() && ixn[t] == old_ix[u] && old_ix[u].0@ != k;
                assert(tbln[old_ix[u].0@] == tbl0[old_ix[u].0@]);
            }
        }
        assert forall|kk: Seq<char>| tbln.dom().contains(kk) implies exists|t: int|
            0 <= t < ixn.len() && (#[trigger] ixn[t].0@) == kk by {
            if kk == k {
                assert(ixn[special].0@ == kk);
            } else {
                assert(tbl0.dom().contains(kk));
                let u = choose|u: int|
                    0 <= u < old_ix.len() && (#[trigger] old_ix[u].0@) == kk;
                let t = choose|t: int| 0 <= t < ixn.len() && ixn[t] == old_ix[u];
                assert(ixn[t].0@ == kk);
            }
        }
        assert(index_matches(ixn, tbln));
        // windows
        assert forall|t: int|
            0 <= t < ixn.len() implies entry_window_ok(
            segsn,
            #[trigger] ixn[t],
            tbln[ixn[t].0@].value,
        ) by {
            if t == special {
                assert(segsn.last().data@.subrange(cp.pos as int, cp.pos + cp.len) =~= enc(rec));
                assert(0 <= segsn.len() - 1 < segsn.len() && segsn[segsn.len() - 1].file_id
                    == cp.file_id && cp.pos + cp.len <= segsn[segsn.len() - 1].data@.len()
                    && segsn[segsn.len() - 1].data@.subrange(cp.pos as int, cp.pos + cp.len)
                    == enc(Rec::Put { key: ixn[t].0@, value: tbln[ixn[t].0@].value }));
            } else {
                let u = choose|u: int|
                    0 <= u < old_ix.len() && ixn[t] == old_ix[u] && old_ix[u].0@ != k;
                assert(entry_window_ok(pre_segs, old_ix[u], tbl0[old_ix[u].0@].value));
                lemma_window_survives(pre_segs, segsn, old_ix[u], tbl0[old_ix[u].0@].value);
                assert(tbln[ixn[t].0@].value == tbl0[old_ix[u].0@].value);
            }
        }
        // the view gained exactly this binding
        assert(self@ =~= pre@.insert(k, entry.value));
    }
}

impl KvStore {
    /// Removes `key`: appends a `Remove` record to the active segment, drops
    /// the key's index row, and compacts when the stale bytes pass the
    /// threshold. Removing an absent key is an error, but its record has
    /// already been written and counts as stale bytes all the same.
    #[verifier::rlimit(100)]
    pub fn remove(&mut self, key: String) -> (r: Result<(), Error>)
        requires
            old(self).wf(),
            old(self).total_bytes() + enc(Rec::Remove { key: key@ }).len() <= u64::MAX,
            old(self).active_id() + 2 <= u64::MAX,
        ensures
            final(self).wf(),
            old(self)@.dom().contains(key@) ==> {
                &&& r is Ok
                &&& final(self)@ == old(self)@.remove(key@)
                &&& final(self).stale_bytes() <= COMPACTION_THRESHOLD
            },
            !old(self)@.dom().contains(key@) ==> {
                &&& r matches Err(e) && e.skind() is KeyNotFound
                &&& final(self)@ == old(self)@
            },
            remove_disk_post(*old(self), *final(self), key@),
    {
        let ghost rec = Rec::Remove { key: key@ };
        let cmd = Command::remove(key.clone());
        let (_pos, elen) = self.append_record(&cmd);
        let ghost mid = *self;
        let ghost old_ix = self.index@;
        proof {
            assert(self.tbl() == old(self).tbl().remove(key@));
            lemma_live_nonneg(old_ix);
        }
        // the remove record itself is dead weight from the moment it lands
        self.uncompact_len = self.uncompact_len + elen as u64;
        match index_find(&self.index, &key) {
            Some(i) => {
                let oldcp = self.index[i].1;
                proof {
                    assert(old(self).tbl().dom().contains(old_ix[i as int].0@));
                    assert(old(self).tbl()[key@].len == oldcp.len);
                    assert(old(self)@.dom().contains(key@));
                    lemma_live_remove(old_ix, i as int);
                    lemma_live_nonneg(old_ix.remove(i as int));
                }
                let _ = self.index.remove(i);
                self.uncompact_len = self.uncompact_len + oldcp.len as u64;
                let ghost grew = oldcp.len + enc(rec).len();
                proof {
                    self.lemma_after_remove(mid, *old(self), old_ix, i as int, key@, rec);
                    assert(self.uncompact_len as int == old(self).stale_bytes() + grew);
                }
                if self.uncompact_len > COMPACTION_THRESHOLD {
                    let ghost mid2 = *self;
                    match self.compact() {
                        Ok(()) => {},
                        Err(e) => {
                            proof {
                                assert(false);
                            }
                            return Err(e);
                        },
                    }
                    proof {
                        assert(mid2.stale_bytes() == old(self).stale_bytes() + grew);
                        assert(mid2.total_bytes() == old(self).total_bytes() + enc(rec).len());
                        assert(remove_disk_post(*old(self), *self, key@));
                    }
                } else {
                    proof {
                        assert(self.stale_bytes() == old(self).stale_bytes() + grew);
                        assert(self.total_bytes() == mid.total_bytes());
                        assert forall|t: int|
                            0 <= t < old(self).disk().len() - 1 implies #[trigger] self.disk()[t]
                            == old(self).disk()[t] by {
                            assert(mid.segments@[t] == old(self).segments@[t]);
                        }
                        assert(appended_disk(*old(self), *self, enc(rec)));
                        assert(remove_disk_post(*old(self), *self, key@));
                    }
                }
                Ok(())
            },
            None => {
                proof {
                    if old(self).tbl().dom().contains(key@) {
                        let u = choose|u: int|
                            0 <= u < old_ix.len() && (#[trigger] old_ix[u].0@) == key@;
                        assert(self.index@[u].0@ == key@);
                    }
                    assert(!old(self)@.dom().contains(key@));
                    assert(old(self).tbl().remove(key@) =~= old(self).tbl());
                    self.lemma_after_remove_absent(mid, *old(self), key@, rec);
                    assert(self.uncompact_len as int == old(self).stale_bytes() + enc(rec).len());
                    assert(self.total_bytes() == mid.total_bytes());
                    assert forall|t: int|
                        0 <= t < old(self).disk().len() - 1 implies #[trigger] self.disk()[t]
                        == old(self).disk()[t] by {
                        assert(mid.segments@[t] == old(self).segments@[t]);
                    }
                    assert(appended_disk(*old(self), *self, enc(rec)));
                    assert(remove_disk_post(*old(self), *self, key@));
                }
                Err(Error::new(ErrorKind::KeyNotFound))
            },
        }
    }

    /// After a `Remove` was appended and the key's row dropped, the invariant
    /// holds again and the view lost exactly this key.
    proof fn lemma_after_remove(
        self,
        mid: KvStore,
        pre: KvStore,
        old_ix: Seq<(String, CommandPos)>,
        i: int,
        k: Seq<char>,
        rec: Rec,
    )
        requires
            rec == (Rec::Remove { key: k }),
            pre.wf(),
            mid.segments@.len() == pre.segments@.len(),
            forall|t: int|
                0 <= t < pre.segments@.len() - 1 ==> #[trigger] mid.segments@[t]
                    == pre.segments@[t],
            mid.segments@.last().file_id == pre.segments@.last().file_id,
            mid.segments@.last().data@ == pre.segments@.last().data@ + enc(rec),
            mid.current_file_id == pre.current_file_id,
            mid.tbl() == pre.tbl().remove(k),
            mid.rstate().pos == mid.segments@.last().data@.len(),
            mid.total_bytes() == pre.total_bytes() + enc(rec).len(),
            mid.total_bytes() <= u64::MAX,
            mid.history@.len() == mid.segments@.len(),
            forall|t: int|
                0 <= t < mid.segments@.len() ==> (#[trigger] mid.segments@[t]).data@
                    == enc_stream(mid.history@[t]),
            forall|t: int, u: int|
                0 <= t < u < mid.segments@.len() ==> (#[trigger] mid.segments@[t]).file_id
                    < (#[trigger] mid.segments@[u]).file_id,
            old_ix == pre.index@,
            0 <= i < old_ix.len(),
            old_ix[i].0@ == k,
            self.segments == mid.segments,
            self.history == mid.history,
            self.current_file_id == mid.current_file_id,
            self.index@ == old_ix.remove(i),
            self.uncompact_len as int == self.total_bytes() - live_of(self.index@),
        ensures
            self.wf(),
            self@ == pre@.remove(k),
    {
        assert(self.seg_hist() =~= mid.seg_hist());
        assert(self.tbl() == pre.tbl().remove(k));
        assert(self.total_bytes() == mid.total_bytes());
        old_ix.remove_ensures(i);
        let tbl0 = pre.tbl();
        let tbln = self.tbl();
        let ixn = self.index@;
        let segsn = self.segments@;
        let pre_segs = pre.segments@;
        assert(segsn.last().data@.subrange(0, pre_segs.last().data@.len() as int)
            =~= pre_segs.last().data@);
        assert forall|t: int|
            0 <= t < ixn.len() implies exists|u: int|
            0 <= u < old_ix.len() && (#[trigger] ixn[t]) == old_ix[u] && old_ix[u].0@ != k by {
            if t < i {
                assert(ixn[t] == old_ix[t] && old_ix[t].0@ != k);
            } else {
                assert(ixn[t] == old_ix[t + 1] && old_ix[t + 1].0@ != k);
            }
        }
        assert forall|t: int, u: int|
            0 <= t < u < ixn.len() implies (#[trigger] ixn[t].0@) != (#[trigger] ixn[u].0@) by {
            let t0 = if t < i {
                t
            } else {
                t + 1
            };
            let u0 = if u < i {
                u
            } else {
                u + 1
            };
            assert(ixn[t] == old_ix[t0] && ixn[u] == old_ix[u0]);
        }
        assert forall|t: int|
            0 <= t < ixn.len() implies {
            &&& tbln.dom().contains(#[trigger] ixn[t].0@)
            &&& tbln[ixn[t].0@].file_id == ixn[t].1.file_id
            &&& tbln[ixn[t].0@].pos == ixn[t].1.pos as int
            &&& tbln[ixn[t].0@].len == ixn[t].1.len as int
        } by {
            let u = choose|u: int|
                0 <= u < old_ix.len() && (#[trigger] ixn[t]) == old_ix[u] && old_ix[u].0@ != k;
            assert(tbln[old_ix[u].0@] == tbl0[old_ix[u].0@]);
        }
        assert forall|kk: Seq<char>| tbln.dom().contains(kk) implies exists|t: int|
            0 <= t < ixn.len() && (#[trigger] ixn[t].0@) == kk by {
            assert(tbl0.dom().contains(kk) && kk != k);
            let u = choose|u: int| 0 <= u < old_ix.len() && (#[trigger] old_ix[u].0@) == kk;
            assert(u != i);
            if u < i {
                assert(ixn[u].0@ == kk);
            } else {
                assert(ixn[u - 1].0@ == kk);
            }
        }
        assert(index_matches(ixn, tbln));
        assert forall|t: int|
            0 <= t < ixn.len() implies entry_window_ok(
            segsn,
            #[trigger] ixn[t],
            tbln[ixn[t].0@].value,
        ) by {
            let u = choose|u: int|
                0 <= u < old_ix.len() && (#[trigger] ixn[t]) == old_ix[u] && old_ix[u].0@ != k;
            assert(entry_window_ok(pre_segs, old_ix[u], tbl0[old_ix[u].0@].value));
            lemma_window_survives(pre_segs, segsn, old_ix[u], tbl0[old_ix[u].0@].value);
            assert(tbln[ixn[t].0@].value == tbl0[old_ix[u].0@].value);
        }
        assert(self@ =~= pre@.remove(k));
    }

    /// After a `Remove` of a key that was not live, the invariant holds again
    /// and the view is untouched.
    proof fn lemma_after_remove_absent(self, mid: KvStore, pre: KvStore, k: Seq<char>, rec: Rec)
        requires
            rec == (Rec::Remove { key: k }),
            pre.wf(),
            mid.segments@.len() == pre.segments@.len(),
            forall|t: int|
                0 <= t < pre.segments@.len() - 1 ==> #[trigger] mid.segments@[t]
                    == pre.segments@[t],
            mid.segments@.last().file_id == pre.segments@.last().file_id,
            mid.segments@.last().data@ == pre.segments@.last().data@ + enc(rec),
            mid.current_file_id == pre.current_file_id,
            mid.tbl() == pre.tbl().remove(k),
            !pre.tbl().dom().contains(k),
            mid.rstate().pos == mid.segments@.last().data@.len(),
            mid.total_bytes() == pre.total_bytes() + enc(rec).len(),
            mid.total_bytes() <= u64::MAX,
            mid.history@.len() == mid.segments@.len(),
            forall|t: int|
                0 <= t < mid.segments@.len() ==> (#[trigger] mid.segments@[t]).data@
                    == enc_stream(mid.history@[t]),
            forall|t: int, u: int|
                0 <= t < u < mid.segments@.len() ==> (#[trigger] mid.segments@[t]).file_id
                    < (#[trigger] mid.segments@[u]).file_id,
            self.segments == mid.segments,
            self.history == mid.history,
            self.current_file_id == mid.current_file_id,
            self.index == pre.index,
            self.uncompact_len as int == self.total_bytes() - live_of(self.index@),
        ensures
            self.wf(),
            self@ == pre@,
    {
        assert(self.seg_hist() =~= mid.seg_hist());
        assert(pre.tbl().remove(k) =~= pre.tbl());
        assert(self.tbl() == pre.tbl());
        assert(self.total_bytes() == mid.total_bytes());
        let segsn = self.segments@;
        let pre_segs = pre.segments@;
        let ixn = self.index@;
        assert(segsn.last().data@.subrange(0, pre_segs.last().data@.len() as int)
            =~= pre_segs.last().data@);
        assert forall|t: int|
            0 <= t < ixn.len() implies entry_window_ok(
            segsn,
            #[trigger] ixn[t],
            self.tbl()[ixn[t].0@].value,
        ) by {
            assert(entry_window_ok(pre_segs, ixn[t], pre.tbl()[ixn[t].0@].value));
            lemma_window_survives(pre_segs, segsn, ixn[t], pre.tbl()[ixn[t].0@].value);
        }
        assert(self@ =~= pre@);
    }

    /// Rewrites all live records into a fresh segment, discards every older
    /// segment, and opens a new empty active segment. The key-value mapping
    /// is unchanged; afterwards no stale byte remains.
    #[verifier::rlimit(100)]
    pub fn compact(&mut self) -> (r: Result<(), Error>)
        requires
            old(self).wf(),
            old(self).active_id() + 2 <= u64::MAX,
        ensures
            r is Ok,
            final(self).wf(),
            final(self)@ == old(self)@,
            final(self).stale_bytes() == 0,
            final(self).total_bytes() == old(self).total_bytes() - old(self).stale_bytes(),
            final(self).active_id() == old(self).active_id() + 2,
            final(self).disk().len() == 2,
            final(self).disk()[0].file_id == old(self).active_id() + 1,
            final(self).disk()[1].file_id == old(self).active_id() + 2,
            final(self).disk()[1].data@ == Seq::<u8>::empty(),
            forall|k: Seq<char>|
                final(self)@.dom().contains(k) ==> (#[trigger] final(self).tbl()[k]).file_id
                    == old(self).active_id() + 1,
    {
        let compact_id = self.current_file_id + 1;
        let next_id = self.current_file_id + 2;
        let mut out: Vec<u8> = Vec::new();
        let mut new_index: Vec<(String, CommandPos)> = Vec::new();
        let ghost mut new_hist: Seq<Rec> = Seq::<Rec>::empty();
        let mut i: usize = 0;
        proof {
            lemma_live_nonneg(self.index@);
            assert(live_of(self.index@.subrange(0, 0)) == 0) by {
                assert(self.index@.subrange(0, 0) =~= Seq::<(String, CommandPos)>::empty());
            }
        }
        while i < self.index.len()
            invariant
                self.wf(),
                self == old(self),
                compact_id == self.current_file_id + 1,
                next_id == self.current_file_id + 2,
                self.current_file_id + 2 <= u64::MAX,
                i <= self.index@.len(),
                new_hist.len() == i as int,
                new_index@.len() == i as int,
                forall|t: int|
                    0 <= t < i ==> #[trigger] new_hist[t] == (Rec::Put {
                        key: self.index@[t].0@,
                        value: self.tbl()[self.index@[t].0@].value,
                    }),
                out@ == enc_stream(new_hist),
                creplay(compact_id, new_hist).pos == out@.len(),
                forall|t: int|
                    0 <= t < i ==> {
                        &&& (#[trigger] new_index@[t]).0@ == self.index@[t].0@
                        &&& new_index@[t].1.file_id == compact_id
                        &&& new_index@[t].1.len == self.index@[t].1.len
                        &&& new_index@[t].1.pos + new_index@[t].1.len <= out@.len()
                        &&& out@.subrange(
                            new_index@[t].1.pos as int,
                            new_index@[t].1.pos + new_index@[t].1.len,
                        ) == enc(
                            Rec::Put {
                                key: new_index@[t].0@,
                                value: self.tbl()[new_index@[t].0@].value,
                            },
                        )
                    },
                forall|k: Seq<char>|
                    creplay(compact_id, new_hist).tbl.dom().contains(k) <==> exists|t: int|
                        0 <= t < i && (#[trigger] self.index@[t].0@) == k,
                forall|t: int|
                    0 <= t < i ==> creplay(compact_id, new_hist).tbl[(#[trigger] self.index@[t]).0@] == (Entry {
                        file_id: compact_id,
                        pos: new_index@[t].1.pos as int,
                        len: new_index@[t].1.len as int,
                        value: self.tbl()[self.index@[t].0@].value,
                    }),
                live_of(new_index@) == live_of(self.index@.subrange(0, i as int)),
                live_of(new_index@) == out@.len(),
            decreases self.index@.len() - i,
        {
            let key = self.index[i].0.clone();
            let cp = self.index[i].1;
            let ghost k = key@;
            let ghost value = self.tbl()[k].value;
            let ghost rec = Rec::Put { key: k, value };
            proof {
                assert(entry_window_ok(self.segments@, self.index@[i as int], value));
            }
            let j = match find_segment(&self.segments, cp.file_id) {
                Some(j) => j,
                None => {
                    proof {
                        let jw = choose|jw: int|
                            {
                                &&& 0 <= jw < self.segments@.len()
                                &&& (#[trigger] self.segments@[jw]).file_id == cp.file_id
                                &&& cp.pos + cp.len <= self.segments@[jw].data@.len()
                                &&& self.segments@[jw].data@.subrange(
                                    cp.pos as int,
                                    cp.pos + cp.len,
                                ) == enc(Rec::Put { key: self.index@[i as int].0@, value })
                            };
                        assert(self.segments@[jw].file_id == cp.file_id);
                        assert(false);
                    }
                    return Err(Error::new(ErrorKind::UnexpectedCommandType));
                },
            };
            proof {
                let jw = choose|jw: int|
                    {
                        &&& 0 <= jw < self.segments@.len()
                        &&& (#[trigger] self.segments@[jw]).file_id == cp.file_id
                        &&& cp.pos + cp.len <= self.segments@[jw].data@.len()
                        &&& self.segments@[jw].data@.subrange(cp.pos as int, cp.pos + cp.len)
                            == enc(Rec::Put { key: self.index@[i as int].0@, value })
                    };
                assert(jw == j as int);
            }
            let ghost w = self.segments@[j as int].data@.subrange(cp.pos as int, cp.pos + cp.len);
            let ghost out_pre = out@;
            let newpos = out.len();
            let dlen = self.segments[j].data.len();
            let mut c: usize = 0;
            while c < cp.len
                invariant
                    c <= cp.len,
                    j < self.segments@.len(),
                    cp.pos + cp.len <= dlen,
                    dlen == self.segments@[j as int].data@.len(),
                    w == self.segments@[j as int].data@.subrange(cp.pos as int, cp.pos + cp.len),
                    out@ == out_pre + w.subrange(0, c as int),
                    out_pre.len() == newpos,
                decreases cp.len - c,
            {
                let b = self.segments[j].data[cp.pos + c];
                proof {
                    assert(w[c as int] == self.segments@[j as int].data@[cp.pos + c]);
                }
                out.push(b);
                proof {
                    assert(out@ =~= out_pre + w.subrange(0, c + 1 as int));
                }
                c = c + 1;
            }
            proof {
                assert(w.subrange(0, cp.len as int) =~= w);
                assert(out@ == out_pre + enc(rec));
                assert(enc(rec).len() == cp.len);
            }
            let ghost ix_pre = new_index@;
            new_index.push((key, CommandPos { file_id: compact_id, pos: newpos, len: cp.len }));
            proof {
                assert(new_index@.drop_last() =~= ix_pre);
                assert(live_of(new_index@) == live_of(ix_pre) + cp.len);
                let prev_hist = new_hist;
                new_hist = new_hist.push(rec);
                assert(new_hist.drop_last() =~= prev_hist);
                assert(enc_stream(new_hist) == enc_stream(prev_hist) + enc(rec));
                lemma_replay_push(RState { tbl: Map::empty(), pos: 0 }, compact_id, prev_hist, rec);
                // earlier windows are undisturbed by the append
                assert forall|t: int| 0 <= t < i implies out@.subrange(
                    new_index@[t].1.pos as int,
                    new_index@[t].1.pos + new_index@[t].1.len,
                ) == enc(
                    Rec::Put { key: new_index@[t].0@, value: self.tbl()[new_index@[t].0@].value },
                ) by {
                    lemma_subrange_extend(
                        out_pre,
                        enc(rec),
                        new_index@[t].1.pos as int,
                        new_index@[t].1.pos + new_index@[t].1.len,
                    );
                }
                // earlier keys are distinct from this one, so their replay
                // entries survive the insert
                assert forall|t: int| 0 <= t < i implies (#[trigger] self.index@[t].0@) != k by {
                    assert(self.index@[i as int].0@ == k);
                }
                assert(self.index@.subrange(0, i + 1 as int).drop_last() =~= self.index@.subrange(
                    0,
                    i as int,
                ));
                assert(self.index@.subrange(0, i + 1 as int).last() == self.index@[i as int]);
                assert(live_of(self.index@.subrange(0, i + 1 as int)) == live_of(
                    self.index@.subrange(0, i as int),
                ) + cp.len);
            }
            i = i + 1;
        }
        proof {
            assert(self.index@.subrange(0, i as int) =~= self.index@);
        }
        let mut segs: Vec<Segment> = Vec::new();
        segs.push(Segment { file_id: compact_id, data: out });
        let empty_data: Vec<u8> = Vec::new();
        segs.push(Segment { file_id: next_id, data: empty_data });
        let ghost old_store = *self;
        self.segments = segs;
        let ghost nh2: Seq<Seq<Rec>> = seq![new_hist, Seq::<Rec>::empty()];
        self.history = Ghost(nh2);
        self.index = new_index;
        self.current_file_id = next_id;
        self.uncompact_len = 0;
        proof {
            let sh = self.seg_hist();
            assert(sh =~= seq![(compact_id, new_hist), (next_id, Seq::<Rec>::empty())]);
            let s1 = sh.drop_last();
            assert(s1 =~= seq![(compact_id, new_hist)]);
            assert(s1.drop_last() =~= Seq::<(u64, Seq<Rec>)>::empty());
            assert(replay_segs(s1.drop_last()) == (RState {
                tbl: Map::<Seq<char>, Entry>::empty(),
                pos: 0,
            }));
            assert(s1.last() == (compact_id, new_hist));
            assert(replay_segs(s1) == replay_recs(
                RState { tbl: Map::<Seq<char>, Entry>::empty(), pos: 0 },
                compact_id,
                new_hist,
            ));
            assert(replay_segs(s1) == creplay(compact_id, new_hist));
            assert(sh.last() == (next_id, Seq::<Rec>::empty()));
            assert(self.rstate() == (RState {
                tbl: creplay(compact_id, new_hist).tbl,
                pos: 0,
            }));
            // the new segment list holds exactly the live bytes
            assert(enc_stream(Seq::<Rec>::empty()) =~= Seq::<u8>::empty());
            assert(self.segments@.len() == 2);
            assert(self.segments@.drop_last().drop_last() =~= Seq::<Segment>::empty());
            assert(total_of(self.segments@.drop_last().drop_last()) == 0);
            assert(self.segments@.drop_last().last().data@ == enc_stream(new_hist));
            assert(total_of(self.segments@.drop_last()) == enc_stream(new_hist).len());
            assert(self.segments@.last().data@.len() == 0);
            assert(self.total_bytes() == enc_stream(new_hist).len());
            // the view is unchanged
            assert(self@ =~= old_store@) by {
                assert forall|k: Seq<char>| self.tbl().dom().contains(k)
                    <==> old_store.tbl().dom().contains(k) by {
                    if old_store.tbl().dom().contains(k) {
                        let t = choose|t: int|
                            0 <= t < old_store.index@.len() && (#[trigger] old_store.index@[t].0@) == k;
                        assert(self.tbl().dom().contains(k));
                    }
                }
                assert forall|k: Seq<char>| self.tbl().dom().contains(k) implies self.tbl()[k].value == old_store.tbl()[k].value by {
                    let t = choose|t: int|
                        0 <= t < old_store.index@.len() && (#[trigger] old_store.index@[t].0@)
                            == k;
                }
            }
            // the index matches the new replay table
            assert(index_matches(self.index@, self.tbl()));
            assert forall|t: int| 0 <= t < self.index@.len() implies entry_window_ok(
                self.segments@,
                #[trigger] self.index@[t],
                self.tbl()[self.index@[t].0@].value,
            ) by {
                assert(self.segments@[0].file_id == self.index@[t].1.file_id);
                assert(self.tbl()[self.index@[t].0@].value == old_store.tbl()[old_store.index@[t].0@].value);
            }
            lemma_live_nonneg(old_store.index@);
        }
        Ok(())
    }
}

impl KvStore {
    /// The segments as they stand, in ascending generation order: what an
    /// unverified shell writes back to disk, one file per segment.
    pub fn segments(&self) -> (r: &Vec<Segment>)
        ensures
            r@ == self.disk(),
    {
        &self.segments
    }

    /// The segments as mathematical values.
    pub closed spec fn disk(self) -> Seq<Segment> {
        self.segments@
    }

    /// The records each segment holds, in write order.
    pub closed spec fn hist(self) -> Seq<Seq<Rec>> {
        self.history@
    }

    /// What well-formedness says of the disk image, for readers outside this
    /// module.
    pub proof fn lemma_wf_parts(self)
        requires
            self.wf(),
        ensures
            ids_sorted(self.disk()),
            self.disk().len() >= 1,
            self.hist().len() == self.disk().len(),
            forall|i: int|
                0 <= i < self.disk().len() ==> (#[trigger] self.disk()[i]).data@ == enc_stream(
                    self.hist()[i],
                ),
            total_of(self.disk()) <= u64::MAX,
            total_of(self.disk()) == self.total_bytes(),
            self.disk().last().file_id == self.active_id(),
            self.seg_hist() == Seq::new(
                self.disk().len(),
                |i: int| (self.disk()[i].file_id, self.hist()[i]),
            ),
    {
    }

    /// The running count of stale bytes: disk bytes no longer reachable from
    /// the index.
    pub fn uncompact_bytes(&self) -> (r: u64)
        requires
            self.wf(),
        ensures
            r as int == self.stale_bytes(),
    {
        self.uncompact_len
    }

    /// The generation id of the active segment.
    pub fn current_generation(&self) -> (r: u64)
        ensures
            r == self.active_id(),
    {
        self.current_file_id
    }
}

/// The decimal characters of `n`, most significant first: the character
/// shadow of [`crate::num::dec_digits`].
pub open spec fn dec_chars(n: nat) -> Seq<char>
    decreases n,
{
    if n < 10 {
        seq![(48 + n) as u8 as char]
    } else {
        dec_chars(n / 10).push((48 + n % 10) as u8 as char)
    }
}

/// The file name a segment with generation `file_id` is stored under.
pub fn log_file_name(file_id: u64) -> (r: String)
    ensures
        r@ == dec_chars(file_id as nat) + ".log"@,
{
    let mut s = dec_string(file_id);
    s.append(".log");
    s
}

/// The decimal spelling of `n`.
fn dec_string(n: u64) -> (r: String)
    ensures
        r@ == dec_chars(n as nat),
    decreases n,
{
    let mut s = if n < 10 {
        String::new()
    } else {
        dec_string(n / 10)
    };
    let d = (n % 10) as u8;
    let ds = match d {
        0 => "0",
        1 => "1",
        2 => "2",
        3 => "3",
        4 => "4",
        5 => "5",
        6 => "6",
        7 => "7",
        8 => "8",
        _ => "9",
    };
    proof {
        reveal_strlit("0");
        reveal_strlit("1");
        reveal_strlit("2");
        reveal_strlit("3");
        reveal_strlit("4");
        reveal_strlit("5");
        reveal_strlit("6");
        reveal_strlit("7");
        reveal_strlit("8");
        reveal_strlit("9");
    }
    s.append(ds);
    proof {
        assert(s@ =~= dec_chars(n as nat));
    }
    s
}

/// Recovery fidelity: reopening a well-formed store from the segments it
/// leaves on disk succeeds and rebuilds exactly the same key-value mapping,
/// whatever sequence of operations produced it. The one bound is a machine
/// limit: a fresh generation id must be left to allocate.
pub proof fn lemma_recovery_fidelity(s: KvStore)
    requires
        s.wf(),
        s.active_id() < u64::MAX,
    ensures
        spec_open_ok(s.disk()),
        spec_open_table(s.disk()) == s@,
{
    let disk = s.disk();
    s.lemma_wf_parts();
    assert forall|i: int| 0 <= i < disk.len() implies parse_stream(
        (#[trigger] disk[i]).data@,
        0,
    ) == Some(s.hist()[i]) by {
        vstd::std_specs::vec::axiom_spec_len(&disk[i].data);
        let data = disk[i].data@;
        assert(data.subrange(0, data.len() as int) =~= data);
        lemma_parse_enc_stream(data, 0, s.hist()[i]);
    }
    assert(zip_hist(disk) =~= s.seg_hist());
    assert(spec_open_table(disk) =~= s@);
}

} // verus!
