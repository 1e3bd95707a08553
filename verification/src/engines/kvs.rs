//! The log-structured storage engine.
//!
//! A store is a list of append-only segments, each named by a strictly
//! increasing version, of which only the last — the active one — receives
//! writes, together with an in-memory index from key to the position of the
//! latest `Set` record for that key.  The well-formedness invariant ties
//! the two together: replaying every segment in version order rebuilds
//! exactly the index, and every index entry points at a decodable `Set`
//! record carrying its own key.  Engine operations work on in-memory
//! segment contents; the surrounding application mirrors them to disk and
//! hands them back on open.
use crate::bufio::{BufReaderWithPos, BufWriterWithPos};
use crate::errors::KvsErr;
use crate::keydir::{as_map, sum_lens, CommandPos, KeyDir};
use crate::record::{parse_cmd, PCmd, Parse};
use vstd::prelude::*;
use vstd::utf8::{decode_utf8, encode_utf8, valid_utf8};

verus! {

/// When the dead bytes in live segments pass this bound, a mutation
/// triggers compaction.
pub const COMPACTION_THRESHOLD: u64 = 1024 * 1024;

/// Caps a byte count at what the 64-bit counter can carry.
pub open spec fn min_cap(x: int) -> int {
    if x <= u64::MAX {
        x
    } else {
        u64::MAX as int
    }
}

/// One replayed record applied to the index map and the dead-byte count:
/// a `Set` displaces at most one older entry, whose length becomes dead; a
/// `Remove` kills its entry and is itself dead weight.  A record whose
/// string fields are not UTF-8 fails the replay.
pub open spec fn apply_rec(
    m: Map<Seq<char>, CommandPos>,
    dead: int,
    c: PCmd,
    version: u64,
    pos: int,
    n: int,
) -> Option<(Map<Seq<char>, CommandPos>, int)> {
    match c {
        PCmd::PSet { key: kb, value: vb } => {
            if valid_utf8(kb) && valid_utf8(vb) {
                let k = decode_utf8(kb);
                let d2 = dead + (if m.contains_key(k) {
                    m[k].len as int
                } else {
                    0
                });
                Some((m.insert(k, CommandPos { version, pos: pos as u64, len: n as u64 }), d2))
            } else {
                None
            }
        },
        PCmd::PRemove { key: kb } => {
            if valid_utf8(kb) {
                let k = decode_utf8(kb);
                let d2 = dead + (if m.contains_key(k) {
                    m[k].len as int
                } else {
                    0
                }) + n;
                Some((m.remove(k), d2))
            } else {
                None
            }
        },
    }
}

/// Replays one segment from offset `pos`: records are decoded one after
/// the other and applied; any leftover or malformed bytes fail the replay.
pub open spec fn load_seg(
    data: Seq<u8>,
    version: u64,
    pos: int,
    m: Map<Seq<char>, CommandPos>,
    dead: int,
) -> Option<(Map<Seq<char>, CommandPos>, int)>
    decreases data.len() - pos,
{
    if pos == data.len() {
        Some((m, dead))
    } else if pos < 0 || pos > data.len() {
        None
    } else {
        match parse_cmd(data.skip(pos)) {
            Parse::Got { v: c, used: n } => {
                if 1 <= n && pos + n <= data.len() {
                    match apply_rec(m, dead, c, version, pos, n) {
                        Some((m2, d2)) => load_seg(data, version, pos + n, m2, d2),
                        None => None,
                    }
                } else {
                    None
                }
            },
            _ => None,
        }
    }
}

/// Replays the segments from index `i` on, in order.
pub open spec fn replay(
    files: Seq<(u64, Seq<u8>)>,
    i: int,
    m: Map<Seq<char>, CommandPos>,
    dead: int,
) -> Option<(Map<Seq<char>, CommandPos>, int)>
    decreases files.len() - i,
{
    if i == files.len() {
        Some((m, dead))
    } else if i < 0 || i > files.len() {
        None
    } else {
        match load_seg(files[i].1, files[i].0, 0, m, dead) {
            Some((m2, d2)) => replay(files, i + 1, m2, d2),
            None => None,
        }
    }
}

/// Replaying every segment of a store from nothing.
pub open spec fn spec_replay(files: Seq<(u64, Seq<u8>)>) -> Option<
    (Map<Seq<char>, CommandPos>, int),
> {
    replay(files, 0, Map::<Seq<char>, CommandPos>::empty(), 0)
}

/// A decodable `Set` record for key `k` lies at `cp` within `data`.
#[verifier::opaque]
pub open spec fn rec_at(data: Seq<u8>, cp: CommandPos, k: Seq<char>) -> bool {
    &&& cp.pos + cp.len <= data.len()
    &&& cp.len >= 1
    &&& parse_cmd(data.skip(cp.pos as int)) matches Parse::Got { v, used } && used == cp.len && (
    v matches PCmd::PSet {
        key: kb,
        value: vb,
    } && valid_utf8(kb) && valid_utf8(vb) && decode_utf8(kb) == k)
}

/// The value of the record at `cp` within `data`.
pub open spec fn rec_value(data: Seq<u8>, cp: CommandPos) -> Seq<char> {
    match parse_cmd(data.skip(cp.pos as int)) {
        Parse::Got { v, used } => match v {
            PCmd::PSet { key: kb, value: vb } => decode_utf8(vb),
            PCmd::PRemove { key: kb } => Seq::<char>::empty(),
        },
        _ => Seq::<char>::empty(),
    }
}

/// The record parsed at `cp` within `data`.
pub open spec fn rec_cmd(data: Seq<u8>, cp: CommandPos) -> PCmd {
    parse_cmd(data.skip(cp.pos as int))->Got_v
}

/// The index entry `cp` for key `k` names a segment of `files` holding a
/// matching `Set` record.
pub open spec fn entry_valid(files: Seq<(u64, Seq<u8>)>, k: Seq<char>, cp: CommandPos) -> bool {
    exists|i: int| 0 <= i < files.len() && (#[trigger] files[i]).0 == cp.version && rec_at(
        files[i].1,
        cp,
        k,
    )
}

/// The value the entry `cp` points at, read through the segment with its
/// version.
pub open spec fn entry_value(files: Seq<(u64, Seq<u8>)>, cp: CommandPos) -> Seq<char> {
    let i = choose|i: int| 0 <= i < files.len() && (#[trigger] files[i]).0 == cp.version;
    rec_value(files[i].1, cp)
}

/// The raw bytes of the record `cp` points at, read through the segment
/// with its version.
pub open spec fn record_slice(files: Seq<(u64, Seq<u8>)>, cp: CommandPos) -> Seq<u8> {
    let i = choose|i: int| 0 <= i < files.len() && (#[trigger] files[i]).0 == cp.version;
    files[i].1.subrange(cp.pos as int, cp.pos + cp.len)
}

/// The verbatim concatenation, in entry order, of the records an entry
/// list points at: what compaction writes.
pub open spec fn compacted_bytes(files: Seq<(u64, Seq<u8>)>, es: Seq<(String, CommandPos)>) -> Seq<
    u8,
>
    decreases es.len(),
{
    if es.len() == 0 {
        Seq::<u8>::empty()
    } else {
        compacted_bytes(files, es.drop_last()) + record_slice(files, es.last().1)
    }
}

/// Every entry of the index map points at a valid record.
pub open spec fn all_valid(files: Seq<(u64, Seq<u8>)>, m: Map<Seq<char>, CommandPos>) -> bool {
    forall|k: Seq<char>| #[trigger] m.contains_key(k) ==> entry_valid(files, k, m[k])
}

/// Segment versions strictly increase along the list.
pub open spec fn sorted_versions(files: Seq<(u64, Seq<u8>)>) -> bool {
    forall|i: int, j: int|
        0 <= i < j < files.len() ==> (#[trigger] files[i]).0 < (#[trigger] files[j]).0
}

/// The key-to-value map a store presents, derived from an index map and
/// the segments its entries point into.
pub open spec fn map_view(files: Seq<(u64, Seq<u8>)>, m: Map<Seq<char>, CommandPos>) -> Map<
    Seq<char>,
    Seq<char>,
> {
    Map::new(|k: Seq<char>| m.contains_key(k), |k: Seq<char>| entry_value(files, m[k]))
}

/// Bytes held by all segments together.
pub open spec fn total_bytes(files: Seq<(u64, Seq<u8>)>) -> int
    decreases files.len(),
{
    if files.len() == 0 {
        0
    } else {
        total_bytes(files.drop_last()) + files.last().1.len()
    }
}

/// A sealed, read-only segment.
pub struct Segment {
    pub version: u64,
    pub reader: BufReaderWithPos,
}

/// The log-structured store: read-only segments in ascending version
/// order, the active segment receiving writes, the index, and the count of
/// dead bytes that triggers compaction.
pub struct KvStore {
    index: KeyDir,
    readers: Vec<Segment>,
    writer: BufWriterWithPos,
    version: u64,
    uncompacted: u64,
}

impl View for KvStore {
    type V = Map<Seq<char>, Seq<char>>;

    open spec fn view(&self) -> Map<Seq<char>, Seq<char>> {
        map_view(self.files(), self.index_map())
    }
}

impl KvStore {
    /// The segments of the store in order, the active one last.
    pub closed spec fn files(&self) -> Seq<(u64, Seq<u8>)> {
        self.readers@.map_values(|s: Segment| (s.version, s.reader@)) + seq![
            (self.version, self.writer@),
        ]
    }

    pub closed spec fn index_map(&self) -> Map<Seq<char>, CommandPos> {
        self.index@
    }

    pub closed spec fn index_entries(&self) -> Seq<(String, CommandPos)> {
        self.index.entries_view()
    }

    pub closed spec fn uncompacted(&self) -> u64 {
        self.uncompacted
    }

    pub closed spec fn active_version(&self) -> u64 {
        self.version
    }

    /// The dead bytes of the store: what a replay of its segments counts
    /// as superseded or tombstoned.
    pub open spec fn dead_bytes(&self) -> int {
        match spec_replay(self.files()) {
            Some(p) => p.1,
            None => 0,
        }
    }

    /// Bytes held by all segments together.
    pub open spec fn total_log_bytes(&self) -> int {
        total_bytes(self.files())
    }

    /// Bytes the index keeps live.
    pub open spec fn live_bytes(&self) -> int {
        sum_lens(self.index_entries())
    }

    /// The store invariant: the index is ordered; versions strictly
    /// increase and the active segment is the last; replaying all segments
    /// rebuilds exactly the index with `dead_bytes` dead; the byte counter
    /// carries `dead_bytes` capped at 64 bits; every segment byte is either
    /// live under exactly one index entry or dead; and every index entry
    /// points at a decodable `Set` record carrying its own key.
    pub closed spec fn wf_core(&self) -> bool {
        &&& self.index.wf()
        &&& self.writer.wf()
        &&& sorted_versions(self.files())
        &&& match spec_replay(self.files()) {
            Some(p) => p.0 == self.index@ && p.1 >= 0 && total_bytes(self.files()) == sum_lens(
                self.index.entries_view(),
            ) + p.1,
            None => false,
        }
        &&& all_valid(self.files(), self.index@)
    }

    pub closed spec fn wf(&self) -> bool {
        &&& self.wf_core()
        &&& self.uncompacted as int == min_cap(self.dead_bytes())
    }
}

/// Appending a chunk that parses as one whole record extends a clean
/// replay of a segment by exactly that record.
pub proof fn lemma_load_extend(
    data: Seq<u8>,
    version: u64,
    pos: int,
    m: Map<Seq<char>, CommandPos>,
    dead: int,
    m1: Map<Seq<char>, CommandPos>,
    d1: int,
    chunk: Seq<u8>,
    c: PCmd,
    m2: Map<Seq<char>, CommandPos>,
    d2: int,
)
    requires
        0 <= pos <= data.len(),
        load_seg(data, version, pos, m, dead) == Some((m1, d1)),
        chunk.len() >= 1,
        forall|ext: Seq<u8>|
            parse_cmd(#[trigger] (chunk + ext)) == (Parse::Got {
                v: c,
                used: chunk.len() as int,
            }),
        apply_rec(m1, d1, c, version, data.len() as int, chunk.len() as int) == Some((m2, d2)),
    ensures
        load_seg(data + chunk, version, pos, m, dead) == Some((m2, d2)),
    decreases data.len() - pos,
{
    let ext = data + chunk;
    if pos == data.len() {
        assert(ext.skip(pos) =~= chunk);
        assert(chunk + Seq::<u8>::empty() =~= chunk);
        assert(parse_cmd(ext.skip(pos)) == (Parse::Got { v: c, used: chunk.len() as int }));
        assert(m1 == m && d1 == dead);
        assert(load_seg(ext, version, pos + chunk.len(), m2, d2) == Some((m2, d2)));
    } else {
        let pr = parse_cmd(data.skip(pos));
        assert(pr is Got);
        let n = pr->Got_used;
        crate::record::lemma_parse_bounds(data.skip(pos));
        assert(ext.skip(pos).take(n) =~= data.skip(pos).take(n));
        crate::record::lemma_parse_local(data.skip(pos), ext.skip(pos));
        let c0 = pr->Got_v;
        let step = apply_rec(m, dead, c0, version, pos, n);
        assert(step is Some);
        let mn = step->Some_0.0;
        let dn = step->Some_0.1;
        lemma_load_extend(data, version, pos + n, mn, dn, m1, d1, chunk, c, m2, d2);
    }
}

/// Replaying one more segment after a clean replay.
pub proof fn lemma_replay_snoc(
    files: Seq<(u64, Seq<u8>)>,
    f: (u64, Seq<u8>),
    i: int,
    m: Map<Seq<char>, CommandPos>,
    dead: int,
    m1: Map<Seq<char>, CommandPos>,
    d1: int,
    m2: Map<Seq<char>, CommandPos>,
    d2: int,
)
    requires
        0 <= i <= files.len(),
        replay(files, i, m, dead) == Some((m1, d1)),
        load_seg(f.1, f.0, 0, m1, d1) == Some((m2, d2)),
    ensures
        replay(files.push(f), i, m, dead) == Some((m2, d2)),
    decreases files.len() - i,
{
    if i == files.len() {
        assert(m1 == m && d1 == dead);
        assert(files.push(f)[i] == f);
        assert(replay(files.push(f), i + 1, m2, d2) == Some((m2, d2)));
    } else {
        let step = load_seg(files[i].1, files[i].0, 0, m, dead);
        assert(step is Some);
        let mn = step->Some_0.0;
        let dn = step->Some_0.1;
        assert(files.push(f)[i] == files[i]);
        lemma_replay_snoc(files, f, i + 1, mn, dn, m1, d1, m2, d2);
    }
}

/// Appending one record to the last segment extends the replay of the
/// whole store by that record.
pub proof fn lemma_replay_extend_last(
    files: Seq<(u64, Seq<u8>)>,
    i: int,
    m: Map<Seq<char>, CommandPos>,
    dead: int,
    m1: Map<Seq<char>, CommandPos>,
    d1: int,
    chunk: Seq<u8>,
    c: PCmd,
    m2: Map<Seq<char>, CommandPos>,
    d2: int,
)
    requires
        0 <= i < files.len(),
        replay(files, i, m, dead) == Some((m1, d1)),
        chunk.len() >= 1,
        forall|ext: Seq<u8>|
            parse_cmd(#[trigger] (chunk + ext)) == (Parse::Got {
                v: c,
                used: chunk.len() as int,
            }),
        apply_rec(m1, d1, c, files.last().0, files.last().1.len() as int, chunk.len() as int)
            == Some((m2, d2)),
    ensures
        replay(
            files.update(files.len() - 1, (files.last().0, files.last().1 + chunk)),
            i,
            m,
            dead,
        ) == Some((m2, d2)),
    decreases files.len() - i,
{
    let files2 = files.update(files.len() - 1, (files.last().0, files.last().1 + chunk));
    if i == files.len() - 1 {
        let data = files.last().1;
        let v = files.last().0;
        let step = load_seg(data, v, 0, m, dead);
        assert(step is Some);
        let mn = step->Some_0.0;
        let dn = step->Some_0.1;
        assert(replay(files, i + 1, mn, dn) == Some((mn, dn)));
        assert(load_seg(data, v, 0, m, dead) == Some((m1, d1)));
        lemma_load_extend(data, v, 0, m, dead, m1, d1, chunk, c, m2, d2);
        assert(files2[i] == (v, data + chunk));
        assert(replay(files2, i + 1, m2, d2) == Some((m2, d2)));
    } else {
        let step = load_seg(files[i].1, files[i].0, 0, m, dead);
        assert(step is Some);
        let mn = step->Some_0.0;
        let dn = step->Some_0.1;
        assert(files2[i] == files[i]);
        lemma_replay_extend_last(files, i + 1, mn, dn, m1, d1, chunk, c, m2, d2);
    }
}

/// A record stays where it was when more bytes are appended after it.
pub proof fn lemma_rec_at_extend(data: Seq<u8>, chunk: Seq<u8>, cp: CommandPos, k: Seq<char>)
    requires
        rec_at(data, cp, k),
    ensures
        rec_at(data + chunk, cp, k),
        rec_value(data + chunk, cp) == rec_value(data, cp),
{
    reveal(rec_at);
    let bs = data.skip(cp.pos as int);
    let bs2 = (data + chunk).skip(cp.pos as int);
    crate::record::lemma_parse_bounds(bs);
    assert(bs2.take(cp.len as int) =~= bs.take(cp.len as int));
    crate::record::lemma_parse_local(bs, bs2);
}

/// A failing segment fails the replay of the whole list.
pub proof fn lemma_replay_fail(
    files: Seq<(u64, Seq<u8>)>,
    i: int,
    m: Map<Seq<char>, CommandPos>,
    dead: int,
    k: int,
    m1: Map<Seq<char>, CommandPos>,
    d1: int,
)
    requires
        0 <= i <= k < files.len(),
        replay(files.subrange(i, k), 0, m, dead) == Some((m1, d1)),
        load_seg(files[k].1, files[k].0, 0, m1, d1) is None,
    ensures
        replay(files, i, m, dead) is None,
    decreases files.len() - i,
{
    let mid = files.subrange(i, k);
    if i == k {
        assert(mid.len() == 0);
        assert(m1 == m && d1 == dead);
    } else {
        assert(mid[0] == files[i]);
        let step = load_seg(files[i].1, files[i].0, 0, m, dead);
        assert(step is Some);
        let mn = step->Some_0.0;
        let dn = step->Some_0.1;
        assert(mid.skip(1) =~= files.subrange(i + 1, k));
        assert(replay(mid, 1, mn, dn) == Some((m1, d1)));
        lemma_replay_shift(mid, 1, mn, dn);
        lemma_replay_fail(files, i + 1, mn, dn, k, m1, d1);
    }
}

/// Replaying from index 1 equals replaying the tail from its start.
pub proof fn lemma_replay_shift(
    files: Seq<(u64, Seq<u8>)>,
    i: int,
    m: Map<Seq<char>, CommandPos>,
    dead: int,
)
    requires
        0 <= i <= files.len(),
    ensures
        replay(files, i, m, dead) == replay(files.skip(i), 0, m, dead),
    decreases files.len() - i,
{
    if i < files.len() {
        assert(files.skip(i)[0] == files[i]);
        match load_seg(files[i].1, files[i].0, 0, m, dead) {
            Some((m2, d2)) => {
                lemma_replay_shift(files, i + 1, m2, d2);
                if i + 1 <= files.len() {
                    lemma_replay_shift(files.skip(i), 1, m2, d2);
                }
                assert(files.skip(i).skip(1) =~= files.skip(i + 1));
            },
            None => {},
        }
    } else {
        assert(files.skip(i).len() == 0);
    }
}

/// Extending a store with later segments does not move the values its
/// entries point at.
pub proof fn lemma_map_view_extend(
    files: Seq<(u64, Seq<u8>)>,
    extra: Seq<(u64, Seq<u8>)>,
    m: Map<Seq<char>, CommandPos>,
)
    requires
        sorted_versions(files + extra),
        all_valid(files, m),
    ensures
        map_view(files + extra, m) == map_view(files, m),
        all_valid(files + extra, m),
{
    let whole = files + extra;
    assert forall|k: Seq<char>| #[trigger] m.contains_key(k) implies entry_valid(whole, k, m[k])
        && entry_value(whole, m[k]) == entry_value(files, m[k]) by {
        let cp = m[k];
        let i = choose|i: int|
            0 <= i < files.len() && (#[trigger] files[i]).0 == cp.version && rec_at(
                files[i].1,
                cp,
                k,
            );
        assert(whole[i] == files[i]);
        assert(entry_valid(whole, k, cp));
        assert(sorted_versions(files)) by {
            assert(forall|a: int, b: int|
                0 <= a < b < files.len() ==> whole[a] == files[a] && whole[b] == files[b]);
        }
        let iw = lemma_entry_value(whole, k, cp);
        let i_f = lemma_entry_value(files, k, cp);
        assert(whole[i_f] == files[i_f]);
        lemma_version_unique(whole, iw, i_f);
    }
    assert(map_view(files + extra, m) =~= map_view(files, m));
}

/// Some file of the listing is named for version `v`.
pub open spec fn has_version(input: Seq<(String, Vec<u8>)>, v: int) -> bool {
    exists|j: int|
        0 <= j < input.len() && crate::names::parse_name((#[trigger] input[j]).0@) == Some(v)
}

/// The contents of the first file named for version `v`.
pub open spec fn first_data(input: Seq<(String, Vec<u8>)>, v: int) -> Seq<u8>
    decreases input.len(),
{
    if input.len() == 0 {
        Seq::<u8>::empty()
    } else if crate::names::parse_name(input[0].0@) == Some(v) {
        input[0].1@
    } else {
        first_data(input.skip(1), v)
    }
}

/// `sel` is the recovery order of the listing `input`: the distinct
/// versions named by `input`, ascending, each with the contents of the
/// first file so named.
pub open spec fn is_selection(input: Seq<(String, Vec<u8>)>, sel: Seq<(u64, Seq<u8>)>) -> bool {
    &&& sorted_versions(sel)
    &&& forall|i: int|
        0 <= i < sel.len() ==> has_version(input, (#[trigger] sel[i]).0 as int) && sel[i].1
            == first_data(input, sel[i].0 as int)
    &&& forall|v: int|
        #[trigger] has_version(input, v) ==> exists|i: int|
            0 <= i < sel.len() && (#[trigger] sel[i]).0 as int == v
}

/// Appending one more listing entry changes `first_data` only for a
/// version not named before.
pub proof fn lemma_first_data_push(input: Seq<(String, Vec<u8>)>, x: (String, Vec<u8>), v: int)
    ensures
        has_version(input, v) ==> first_data(input.push(x), v) == first_data(input, v),
        !has_version(input, v) && crate::names::parse_name(x.0@) == Some(v) ==> first_data(
            input.push(x),
            v,
        ) == x.1@,
        has_version(input.push(x), v) <==> has_version(input, v) || crate::names::parse_name(x.0@)
            == Some(v),
    decreases input.len(),
{
    if input.len() == 0 {
        assert(input.push(x)[0] == x);
        if crate::names::parse_name(x.0@) == Some(v) {
            assert(has_version(input.push(x), v)) by {
                assert(crate::names::parse_name(input.push(x)[0].0@) == Some(v));
            }
        }
        assert(!has_version(input, v));
        if has_version(input.push(x), v) {
            let j = choose|j: int|
                0 <= j < input.push(x).len() && crate::names::parse_name(
                    (#[trigger] input.push(x)[j]).0@,
                ) == Some(v);
            assert(j == 0);
        }
    } else {
        assert(input.push(x)[0] == input[0]);
        assert(input.push(x).skip(1) =~= input.skip(1).push(x));
        lemma_first_data_push(input.skip(1), x, v);
        if crate::names::parse_name(input[0].0@) == Some(v) {
            assert(has_version(input, v));
            assert(has_version(input.push(x), v));
        } else {
            assert(has_version(input, v) <==> has_version(input.skip(1), v)) by {
                if has_version(input, v) {
                    let j = choose|j: int|
                        0 <= j < input.len() && crate::names::parse_name(
                            (#[trigger] input[j]).0@,
                        ) == Some(v);
                    assert(j >= 1);
                    assert(input.skip(1)[j - 1] == input[j]);
                }
                if has_version(input.skip(1), v) {
                    let j = choose|j: int|
                        0 <= j < input.skip(1).len() && crate::names::parse_name(
                            (#[trigger] input.skip(1)[j]).0@,
                        ) == Some(v);
                    assert(input[j + 1] == input.skip(1)[j]);
                }
            }
            assert(has_version(input.push(x), v) <==> has_version(input.skip(1).push(x), v)) by {
                if has_version(input.push(x), v) {
                    let j = choose|j: int|
                        0 <= j < input.push(x).len() && crate::names::parse_name(
                            (#[trigger] input.push(x)[j]).0@,
                        ) == Some(v);
                    assert(j >= 1);
                    assert(input.skip(1).push(x)[j - 1] == input.push(x)[j]);
                }
                if has_version(input.skip(1).push(x), v) {
                    let j = choose|j: int|
                        0 <= j < input.skip(1).push(x).len() && crate::names::parse_name(
                            (#[trigger] input.skip(1).push(x)[j]).0@,
                        ) == Some(v);
                    assert(input.push(x)[j + 1] == input.skip(1).push(x)[j]);
                }
            }
        }
    }
}

/// Appending to the last segment moves no entry of the map: each one
/// stays valid and keeps its value.
pub proof fn lemma_extend_last_valid(
    old_files: Seq<(u64, Seq<u8>)>,
    chunk: Seq<u8>,
    m: Map<Seq<char>, CommandPos>,
)
    requires
        old_files.len() >= 1,
        sorted_versions(old_files),
        all_valid(old_files, m),
    ensures
        all_valid(
            old_files.update(
                old_files.len() - 1,
                (old_files.last().0, old_files.last().1 + chunk),
            ),
            m,
        ),
        forall|kk: Seq<char>|
            #[trigger] m.contains_key(kk) ==> entry_value(
                old_files.update(
                    old_files.len() - 1,
                    (old_files.last().0, old_files.last().1 + chunk),
                ),
                m[kk],
            ) == entry_value(old_files, m[kk]),
{
    let new_files = old_files.update(
        old_files.len() - 1,
        (old_files.last().0, old_files.last().1 + chunk),
    );
    assert(sorted_versions(new_files)) by {
        assert(forall|a: int|
            0 <= a < new_files.len() ==> (#[trigger] new_files[a]).0 == old_files[a].0);
    }
    assert forall|kk: Seq<char>| #[trigger] m.contains_key(kk) implies entry_valid(
        new_files,
        kk,
        m[kk],
    ) && entry_value(new_files, m[kk]) == entry_value(old_files, m[kk]) by {
        let wo = lemma_entry_value(old_files, kk, m[kk]);
        if wo < old_files.len() - 1 {
            assert(new_files[wo] == old_files[wo]);
        } else {
            lemma_rec_at_extend(old_files.last().1, chunk, m[kk], kk);
            assert(new_files[wo] == (old_files.last().0, old_files.last().1 + chunk));
        }
        assert(new_files[wo].0 == m[kk].version);
        assert(rec_at(new_files[wo].1, m[kk], kk));
        assert(entry_valid(new_files, kk, m[kk]));
        let wn = lemma_entry_value(new_files, kk, m[kk]);
        assert(new_files[wo].0 == old_files[wo].0);
        lemma_version_unique(new_files, wn, wo);
        if wo < old_files.len() - 1 {
            assert(new_files[wo] == old_files[wo]);
        } else {
            lemma_rec_at_extend(old_files.last().1, chunk, m[kk], kk);
        }
    }
}

/// Only one segment carries any given version.
pub proof fn lemma_version_unique(files: Seq<(u64, Seq<u8>)>, i: int, j: int)
    requires
        sorted_versions(files),
        0 <= i < files.len(),
        0 <= j < files.len(),
        files[i].0 == files[j].0,
    ensures
        i == j,
{
}

/// For a valid entry the value read through `entry_value` is the value of
/// its record.
pub proof fn lemma_entry_value(files: Seq<(u64, Seq<u8>)>, k: Seq<char>, cp: CommandPos) -> (i:
    int)
    requires
        sorted_versions(files),
        entry_valid(files, k, cp),
    ensures
        0 <= i < files.len(),
        files[i].0 == cp.version,
        rec_at(files[i].1, cp, k),
        entry_value(files, cp) == rec_value(files[i].1, cp),
{
    let i1 = choose|i: int|
        0 <= i < files.len() && (#[trigger] files[i]).0 == cp.version && rec_at(files[i].1, cp, k);
    let i0 = choose|i: int| 0 <= i < files.len() && (#[trigger] files[i]).0 == cp.version;
    lemma_version_unique(files, i0, i1);
    i1
}

/// Adds byte counts, capping at the width of the counter.
fn sat_add(a: u64, b: u64) -> (r: u64)
    ensures
        r as int == min_cap(a as int + b as int),
{
    if a > u64::MAX - b {
        u64::MAX
    } else {
        a + b
    }
}

/// A fresh copy of segment contents.
fn copy_bytes(v: &Vec<u8>) -> (r: Vec<u8>)
    ensures
        r@ == v@,
{
    let mut out: Vec<u8> = Vec::new();
    out.extend_from_slice(v.as_slice());
    proof {
        assert(out@ =~= v@);
    }
    out
}

/// The view of an owned segment list.
pub open spec fn sel_view(s: Seq<(u64, Vec<u8>)>) -> Seq<(u64, Seq<u8>)> {
    s.map_values(|p: (u64, Vec<u8>)| (p.0, p.1@))
}

/// Replays one segment into the index, exactly as recovery describes:
/// each record is decoded, its byte range is computed from the offsets
/// before and after it, a `Set` indexes that range and a `Remove` drops
/// the key; superseded lengths and tombstones accumulate as dead bytes.
fn load(
    version: u64,
    data: &Vec<u8>,
    index: &mut KeyDir,
    unc: u64,
    Ghost(dead_in): Ghost<int>,
) -> (r: Result<(u64, Ghost<int>), KvsErr>)
    requires
        old(index).wf(),
        unc as int == min_cap(dead_in),
        dead_in >= 0,
    ensures
        final (index).wf(),
        (match r {
            Ok(out) => {
                &&& load_seg(data@, version, 0, old(index)@, dead_in) == Some(
                    (final (index)@, out.1@),
                )
                &&& out.0 as int == min_cap(out.1@)
                &&& out.1@ >= dead_in
                &&& sum_lens(final (index).entries_view()) + out.1@ == sum_lens(
                    old(index).entries_view(),
                ) + dead_in + data@.len()
                &&& forall|k: Seq<char>|
                    #[trigger] final (index)@.contains_key(k) ==> ((old(index)@.contains_key(k)
                        && final (index)@[k] == old(index)@[k]) || (final (index)@[k].version
                        == version && rec_at(data@, final (index)@[k], k)))
            },
            Err(e) => e is Serde && load_seg(data@, version, 0, old(index)@, dead_in) is None
                && exists|p: int, d: int|
                    #![auto]
                    {
                        &&& 0 <= p <= data@.len()
                        &&& load_seg(data@, version, p, final (index)@, d) == load_seg(
                            data@,
                            version,
                            0,
                            old(index)@,
                            dead_in,
                        )
                    },
        }),
{
    let ghost m0 = old(index)@;
    let ghost es0 = old(index).entries_view();
    let n = data.len();
    let mut pos: usize = 0;
    let mut unc_cur = unc;
    let ghost mut dead: int = dead_in;
    proof {
        assert(data@.skip(0) =~= data@);
    }
    while pos < n
        invariant
            index.wf(),
            m0 == old(index)@,
            es0 == old(index).entries_view(),
            pos <= n,
            n == data@.len() <= usize::MAX,
            dead_in >= 0,
            dead >= dead_in,
            unc_cur as int == min_cap(dead),
            load_seg(data@, version, pos as int, index@, dead) == load_seg(
                data@,
                version,
                0,
                m0,
                dead_in,
            ),
            sum_lens(index.entries_view()) + dead == sum_lens(es0) + dead_in + pos,
            forall|k: Seq<char>|
                #[trigger] index@.contains_key(k) ==> ((m0.contains_key(k) && index@[k] == m0[k])
                    || (index@[k].version == version && rec_at(data@, index@[k], k))),
        decreases n - pos,
    {
        let ghost m_pre = index@;
        let ghost es_pre = index.entries_view();
        let ghost dead_pre = dead;
        match crate::record::decode_cmd(data, pos) {
            crate::record::CmdStep::CSet { key, value, next } => {
                let ghost kview = key@;
                let ghost kstr = key;
                let cp = CommandPos {
                    version,
                    pos: pos as u64,
                    len: (next - pos) as u64,
                };
                proof {
                    reveal(rec_at);
                    assert(rec_at(data@, cp, kview));
                    index.lemma_distinct();
                }
                let prev = index.insert(key, cp);
                match prev {
                    Some(p) => {
                        unc_cur = sat_add(unc_cur, p.len);
                        proof {
                            dead = dead + p.len;
                        }
                    },
                    None => {},
                }
                proof {
                    let used = next - pos;
                    let pr = parse_cmd(data@.skip(pos as int));
                    let c = pr->Got_v;
                    assert(apply_rec(m_pre, dead_pre, c, version, pos as int, used as int)
                        == Some((index@, dead)));
                    assert(load_seg(data@, version, pos as int, m_pre, dead_pre) == load_seg(
                        data@,
                        version,
                        next as int,
                        index@,
                        dead,
                    ));
                    let pw = choose|pw: int|
                        #![auto]
                        0 <= pw <= es_pre.len() && (if m_pre.contains_key(kview) {
                            pw < es_pre.len() && es_pre[pw].0@ == kview
                                && index.entries_view() == es_pre.update(pw, (kstr, cp))
                        } else {
                            index.entries_view() == es_pre.insert(pw, (kstr, cp))
                        });
                    if m_pre.contains_key(kview) {
                        crate::keydir::lemma_sum_update(es_pre, pw, (kstr, cp));
                        crate::keydir::lemma_as_map_at(es_pre, pw);
                    } else {
                        crate::keydir::lemma_sum_insert(es_pre, pw, (kstr, cp));
                    }
                }
                pos = next;
            },
            crate::record::CmdStep::CRemove { key, next } => {
                let ghost kview = key@;
                let tomb = (next - pos) as u64;
                proof {
                    index.lemma_distinct();
                }
                let prev = index.remove(&key);
                match prev {
                    Some(p) => {
                        unc_cur = sat_add(unc_cur, p.len);
                        proof {
                            dead = dead + p.len;
                        }
                    },
                    None => {},
                }
                unc_cur = sat_add(unc_cur, tomb);
                proof {
                    dead = dead + tomb;
                }
                proof {
                    let used = next - pos;
                    let pr = parse_cmd(data@.skip(pos as int));
                    let c = pr->Got_v;
                    if !m_pre.contains_key(kview) {
                        assert(m_pre.remove(kview) =~= m_pre);
                    }
                    assert(apply_rec(m_pre, dead_pre, c, version, pos as int, used as int)
                        == Some((index@, dead)));
                    assert(load_seg(data@, version, pos as int, m_pre, dead_pre) == load_seg(
                        data@,
                        version,
                        next as int,
                        index@,
                        dead,
                    ));
                    if m_pre.contains_key(kview) {
                        let pw = choose|pw: int|
                            #![auto]
                            0 <= pw < es_pre.len() && es_pre[pw].0@ == kview
                                && index.entries_view() == es_pre.remove(pw);
                        crate::keydir::lemma_sum_remove(es_pre, pw);
                        crate::keydir::lemma_as_map_at(es_pre, pw);
                    }
                }
                pos = next;
            },
            crate::record::CmdStep::CMore => {
                proof {
                    crate::record::lemma_parse_bounds(data@.skip(pos as int));
                    assert(load_seg(data@, version, pos as int, index@, dead) is None);
                }
                return Err(KvsErr::Serde("segment ends inside a record".to_owned()));
            },
            crate::record::CmdStep::CBad => {
                proof {
                    crate::record::lemma_parse_bounds(data@.skip(pos as int));
                    assert(load_seg(data@, version, pos as int, index@, dead) is None);
                }
                return Err(KvsErr::Serde("segment holds an undecodable record".to_owned()));
            },
        }
    }
    proof {
        assert(load_seg(data@, version, pos as int, index@, dead) == Some((index@, dead)));
    }
    Ok((unc_cur, Ghost(dead)))
}

/// Picks the segment files out of a directory listing: the distinct
/// versions named `<u64>.log`, ascending, each with the contents of the
/// first file so named.
#[verifier::rlimit(100)]
fn select_segments(files: &Vec<(String, Vec<u8>)>) -> (sel: Vec<(u64, Vec<u8>)>)
    ensures
        is_selection(files@, sel_view(sel@)),
{
    let ghost inp = files@;
    let mut sel: Vec<(u64, Vec<u8>)> = Vec::new();
    let mut i: usize = 0;
    proof {
        assert(inp.take(0) =~= Seq::<(String, Vec<u8>)>::empty());
        assert(sel_view(sel@).len() == 0);
        assert(is_selection(inp.take(0), sel_view(sel@))) by {
            assert(forall|v: int| !has_version(inp.take(0), v));
        }
    }
    while i < files.len()
        invariant
            i <= inp.len(),
            inp == files@,
            is_selection(inp.take(i as int), sel_view(sel@)),
        decreases inp.len() - i,
    {
        let ghost pre = sel_view(sel@);
        let ghost x = inp[i as int];
        let parsed = crate::names::parse_log_name(files[i].0.as_str());
        proof {
            assert(inp.take(i + 1) =~= inp.take(i as int).push(x));
        }
        match parsed {
            None => {
                proof {
                    assert forall|q: int| 0 <= q < pre.len() implies has_version(
                        inp.take(i + 1),
                        (#[trigger] pre[q]).0 as int,
                    ) && pre[q].1 == first_data(inp.take(i + 1), pre[q].0 as int) by {
                        lemma_first_data_push(inp.take(i as int), x, pre[q].0 as int);
                    }
                    assert forall|v: int| #[trigger]
                        has_version(inp.take(i + 1), v) implies exists|q: int|
                        0 <= q < pre.len() && (#[trigger] pre[q]).0 as int == v by {
                        lemma_first_data_push(inp.take(i as int), x, v);
                        assert(has_version(inp.take(i as int), v));
                    }
                    assert(is_selection(inp.take(i + 1), pre));
                }
            },
            Some(v) => {
                let mut p: usize = 0;
                while p < sel.len() && sel[p].0 < v
                    invariant
                        p <= sel@.len(),
                        forall|q: int| 0 <= q < p ==> (#[trigger] sel@[q]).0 < v,
                    decreases sel@.len() - p,
                {
                    p = p + 1;
                }
                let is_dup = p < sel.len() && sel[p].0 == v;
                if is_dup {
                    proof {
                        assert(pre[p as int].0 == v);
                        assert(has_version(inp.take(i as int), v as int));
                        assert forall|q: int| 0 <= q < pre.len() implies has_version(
                            inp.take(i + 1),
                            (#[trigger] pre[q]).0 as int,
                        ) && pre[q].1 == first_data(inp.take(i + 1), pre[q].0 as int) by {
                            lemma_first_data_push(inp.take(i as int), x, pre[q].0 as int);
                        }
                        assert forall|w: int| #[trigger]
                            has_version(inp.take(i + 1), w) implies exists|q: int|
                            0 <= q < pre.len() && (#[trigger] pre[q]).0 as int == w by {
                            lemma_first_data_push(inp.take(i as int), x, w);
                            if !has_version(inp.take(i as int), w) {
                                assert(w == v as int);
                                assert(pre[p as int].0 as int == w);
                            }
                        }
                        assert(is_selection(inp.take(i + 1), pre));
                    }
                } else {
                    let data_copy = copy_bytes(&files[i].1);
                    sel.insert(p, (v, data_copy));
                    proof {
                        let post = sel_view(sel@);
                        assert(post =~= pre.insert(p as int, (v, x.1@)));
                        assert(!has_version(inp.take(i as int), v as int)) by {
                            if has_version(inp.take(i as int), v as int) {
                                let q = choose|q: int|
                                    0 <= q < pre.len() && (#[trigger] pre[q]).0 as int
                                        == v as int;
                                if q < p {
                                } else {
                                    assert(pre[q].0 >= pre[p as int].0);
                                }
                            }
                        }
                        assert(sorted_versions(post)) by {
                            assert forall|a: int, b: int|
                                0 <= a < b < post.len() implies (#[trigger] post[a]).0 < (
                            #[trigger] post[b]).0 by {
                                if a < p && b > p {
                                    assert(post[a] == pre[a] && post[b] == pre[b - 1]);
                                    if b - 1 == p {
                                        assert(pre[b - 1].0 > v);
                                    }
                                } else if b == p {
                                    assert(post[a] == pre[a]);
                                } else if a == p && b > p {
                                    assert(post[b] == pre[b - 1]);
                                    if b - 1 > p {
                                        assert(pre[p as int].0 > v);
                                        assert(pre[b - 1].0 > pre[p as int].0);
                                    } else {
                                        assert(pre[b - 1].0 > v);
                                    }
                                }
                            }
                        }
                        assert forall|q: int| 0 <= q < post.len() implies has_version(
                            inp.take(i + 1),
                            (#[trigger] post[q]).0 as int,
                        ) && post[q].1 == first_data(inp.take(i + 1), post[q].0 as int) by {
                            lemma_first_data_push(inp.take(i as int), x, post[q].0 as int);
                            if q == p {
                                assert(crate::names::parse_name(x.0@) == Some(v as int));
                                assert(has_version(inp.take(i + 1), v as int)) by {
                                    assert(inp.take(i + 1)[i as int] == x);
                                }
                            } else {
                                let q0 = if q < p {
                                    q
                                } else {
                                    q - 1
                                };
                                assert(post[q] == pre[q0]);
                            }
                        }
                        assert forall|w: int| #[trigger]
                            has_version(inp.take(i + 1), w) implies exists|q: int|
                            0 <= q < post.len() && (#[trigger] post[q]).0 as int == w by {
                            lemma_first_data_push(inp.take(i as int), x, w);
                            if has_version(inp.take(i as int), w) {
                                let q = choose|q: int|
                                    0 <= q < pre.len() && (#[trigger] pre[q]).0 as int == w;
                                if q < p {
                                    assert(post[q].0 as int == w);
                                } else {
                                    assert(post[q + 1].0 as int == w);
                                }
                            } else {
                                assert(w == v as int);
                                assert(post[p as int].0 as int == w);
                            }
                        }
                        assert(is_selection(inp.take(i + 1), post));
                    }
                }
            },
        }
        i = i + 1;
    }
    proof {
        assert(inp.take(inp.len() as int) =~= inp);
    }
    sel
}

impl KvStore {
    /// Creates or loads the store from a directory listing: each pair is a
    /// file name and that file's contents.  Names of the shape `<u64>.log`
    /// name segments and are replayed in ascending version order; other
    /// names are ignored.  On success the index reflects the latest state
    /// of every key and a fresh, empty active segment follows the highest
    /// version on record.  It fails with `Serde` if a segment holds
    /// undecodable bytes mid-stream, and with `Io` if the version space is
    /// exhausted.
    #[verifier::rlimit(100)]
    pub fn open(files: Vec<(String, Vec<u8>)>) -> (r: Result<KvStore, KvsErr>)
        ensures
            (match r {
                Ok(s) => s.wf() && exists|sel: Seq<(u64, Seq<u8>)>|
                    {
                        &&& #[trigger] is_selection(files@, sel)
                        &&& spec_replay(sel) matches Some(p) && s.index_map() == p.0 && s@
                            == map_view(sel, p.0) && s.uncompacted() as int == min_cap(p.1)
                        &&& s.active_version() as int == (if sel.len() == 0 {
                            1int
                        } else {
                            sel.last().0 as int + 1
                        })
                        &&& s.files() == sel.push((s.active_version(), Seq::<u8>::empty()))
                    },
                Err(e) => exists|sel: Seq<(u64, Seq<u8>)>|
                    {
                        &&& #[trigger] is_selection(files@, sel)
                        &&& ((e is Serde && spec_replay(sel) is None) || (e is Io && spec_replay(
                            sel,
                        ) is Some && sel.len() > 0 && sel.last().0 == u64::MAX))
                    },
            }),
    {
        let mut sel = select_segments(&files);
        let ghost fsel = sel_view(sel@);
        let ghost empty_map = Map::<Seq<char>, CommandPos>::empty();
        let mut index = KeyDir::new();
        let mut readers: Vec<Segment> = Vec::new();
        let mut unc: u64 = 0;
        let ghost mut dead: int = 0;
        let nsel = sel.len();
        let mut k: usize = 0;
        proof {
            assert(fsel.take(0) =~= Seq::<(u64, Seq<u8>)>::empty());
            assert(readers@.map_values(|s: Segment| (s.version, s.reader@)) =~= fsel.take(0));
        }
        while k < nsel
            invariant
                index.wf(),
                k <= nsel == fsel.len(),
                sel_view(sel@) == fsel.skip(k as int),
                is_selection(files@, fsel),
                readers@.map_values(|s: Segment| (s.version, s.reader@)) == fsel.take(k as int),
                replay(fsel.take(k as int), 0, empty_map, 0) == Some((index@, dead)),
                empty_map == Map::<Seq<char>, CommandPos>::empty(),
                unc as int == min_cap(dead),
                dead >= 0,
                total_bytes(fsel.take(k as int)) == sum_lens(index.entries_view()) + dead,
                all_valid(fsel.take(k as int), index@),
            decreases nsel - k,
        {
            let ghost sel_pre = sel@;
            proof {
                assert(sel_view(sel_pre).len() == sel_pre.len());
                assert(sel_view(sel_pre).len() == fsel.len() - k);
            }
            let pair = sel.remove(0);
            let v = pair.0;
            let data = pair.1;
            proof {
                assert(sel_view(sel_pre)[0] == (sel_pre[0].0, sel_pre[0].1@));
                assert(pair == sel_pre[0]);
                assert(sel_view(sel_pre)[0] == fsel.skip(k as int)[0]);
                assert(fsel[k as int] == (v, data@));
                assert(sel@ =~= sel_pre.remove(0));
                assert forall|j: int| 0 <= j < sel@.len() implies sel_view(sel@)[j] == sel_view(
                    sel_pre,
                )[j + 1] by {
                    assert(sel@[j] == sel_pre[j + 1]);
                    assert(sel_view(sel@)[j] == (sel@[j].0, sel@[j].1@));
                    assert(sel_view(sel_pre)[j + 1] == (sel_pre[j + 1].0, sel_pre[j + 1].1@));
                }
                assert forall|j: int| 0 <= j < sel@.len() implies sel_view(sel@)[j] == fsel.skip(
                    k + 1,
                )[j] by {
                    assert(sel_view(sel_pre)[j + 1] == fsel.skip(k as int)[j + 1]);
                    assert(fsel.skip(k as int)[j + 1] == fsel[k + 1 + j]);
                    assert(fsel.skip(k + 1)[j] == fsel[k + 1 + j]);
                }
                assert(sel_view(sel@) =~= fsel.skip(k + 1));
            }
            let ghost m_pre = index@;
            let ghost es_pre = index.entries_view();
            let ghost dead_pre = dead;
            match load(v, &data, &mut index, unc, Ghost(dead)) {
                Ok(out) => {
                    unc = out.0;
                    proof {
                        dead = out.1@;
                    }
                    readers.push(Segment { version: v, reader: BufReaderWithPos::new(data) });
                    proof {
                        assert(fsel.take(k + 1) =~= fsel.take(k as int).push(fsel[k as int]));
                        lemma_replay_snoc(
                            fsel.take(k as int),
                            fsel[k as int],
                            0,
                            empty_map,
                            0,
                            m_pre,
                            dead_pre,
                            index@,
                            dead,
                        );
                        assert(readers@.map_values(|s: Segment| (s.version, s.reader@)) =~= fsel
                            .take(k + 1));
                        assert(fsel.take(k + 1).drop_last() =~= fsel.take(k as int));
                        assert(total_bytes(fsel.take(k + 1)) == sum_lens(index.entries_view())
                            + dead);
                        assert forall|kk: Seq<char>| #[trigger]
                            index@.contains_key(kk) implies entry_valid(
                            fsel.take(k + 1),
                            kk,
                            index@[kk],
                        ) by {
                            if m_pre.contains_key(kk) && index@[kk] == m_pre[kk] {
                                let w = choose|w: int|
                                    0 <= w < fsel.take(k as int).len() && (#[trigger] fsel.take(
                                        k as int,
                                    )[w]).0 == m_pre[kk].version && rec_at(
                                        fsel.take(k as int)[w].1,
                                        m_pre[kk],
                                        kk,
                                    );
                                assert(fsel.take(k + 1)[w] == fsel.take(k as int)[w]);
                            } else {
                                assert(fsel.take(k + 1)[k as int] == (v, data@));
                            }
                        }
                    }
                },
                Err(e) => {
                    proof {
                        assert(fsel.subrange(0, k as int) =~= fsel.take(k as int));
                        lemma_replay_fail(fsel, 0, empty_map, 0, k as int, m_pre, dead_pre);
                        assert(is_selection(files@, fsel) && spec_replay(fsel) is None);
                    }
                    return Err(e);
                },
            }
            k = k + 1;
        }
        let version: u64;
        if readers.len() == 0 {
            version = 1;
            proof {
                assert(fsel.take(k as int) =~= fsel);
                assert(fsel.len() == 0);
            }
        } else {
            let last_v = readers[readers.len() - 1].version;
            proof {
                assert(fsel.take(k as int) =~= fsel);
                assert(fsel[fsel.len() - 1].0 == last_v);
            }
            if last_v == u64::MAX {
                proof {
                    assert(is_selection(files@, fsel) && spec_replay(fsel) is Some && fsel.len()
                        > 0 && fsel.last().0 == u64::MAX);
                }
                return Err(KvsErr::Io("segment versions are exhausted".to_owned()));
            }
            version = last_v + 1;
        }
        let writer = BufWriterWithPos::new(Vec::new());
        let store = KvStore { index, readers, writer, version, uncompacted: unc };
        proof {
            let active: (u64, Seq<u8>) = (version, Seq::<u8>::empty());
            assert(fsel.take(k as int) =~= fsel);
            assert(store.files() =~= fsel.push(active));
            assert(sorted_versions(store.files())) by {
                assert forall|a: int, b: int|
                    0 <= a < b < store.files().len() implies (#[trigger] store.files()[a]).0 < (
                #[trigger] store.files()[b]).0 by {
                    if b == store.files().len() - 1 {
                        assert(store.files()[a] == fsel[a]);
                        if fsel.len() > 0 && a < fsel.len() - 1 {
                            assert(fsel[a].0 < fsel[fsel.len() - 1].0);
                        }
                    } else {
                        assert(store.files()[a] == fsel[a] && store.files()[b] == fsel[b]);
                    }
                }
            }
            assert(load_seg(active.1, active.0, 0, store.index@, dead) == Some(
                (store.index@, dead),
            ));
            lemma_replay_snoc(
                fsel,
                active,
                0,
                empty_map,
                0,
                store.index@,
                dead,
                store.index@,
                dead,
            );
            assert(total_bytes(store.files()) == sum_lens(store.index.entries_view()) + dead) by {
                assert(store.files().drop_last() =~= fsel);
            }
            lemma_map_view_extend(fsel, seq![active], store.index@);
            assert(fsel + seq![active] =~= store.files());
            assert(store.wf());
            assert(store@ == map_view(fsel, store.index@));
            assert(spec_replay(fsel) == Some((store.index@, dead)));
        }
        Ok(store)
    }

    /// Reads exactly the bytes of the record a valid index entry points
    /// at, by seeking the reader of its segment to the recorded offset and
    /// taking the recorded length.
    fn read_entry_bytes(&mut self, cp: CommandPos, Ghost(k): Ghost<Seq<char>>) -> (out: Vec<u8>)
        requires
            sorted_versions(old(self).files()),
            entry_valid(old(self).files(), k, cp),
            old(self).writer.wf(),
        ensures
            final (self).files() == old(self).files(),
            final (self).index_map() == old(self).index_map(),
            final (self).index_entries() == old(self).index_entries(),
            final (self).uncompacted() == old(self).uncompacted(),
            final (self).active_version() == old(self).active_version(),
            final (self).wf_core() == old(self).wf_core(),
            final (self).wf() == old(self).wf(),
            final (self)@ == old(self)@,
            out@.len() == cp.len,
            exists|i: int|
                {
                    &&& 0 <= i < final (self).files().len()
                    &&& (#[trigger] final (self).files()[i]).0 == cp.version
                    &&& rec_at(final (self).files()[i].1, cp, k)
                    &&& out@ == final (self).files()[i].1.subrange(cp.pos as int, cp.pos + cp.len)
                    &&& forall|ext: Seq<u8>|
                        parse_cmd(#[trigger] (out@ + ext)) == (Parse::Got {
                            v: rec_cmd(final (self).files()[i].1, cp),
                            used: cp.len as int,
                        })
                    &&& rec_value(final (self).files()[i].1, cp) == entry_value(
                        final (self).files(),
                        cp,
                    )
                },
    {
        let ghost fls = self.files();
        let ghost iw = lemma_entry_value(fls, k, cp);
        proof {
            reveal(rec_at);
        }
        if cp.version == self.version {
            proof {
                assert(fls[fls.len() - 1].0 == cp.version);
                lemma_version_unique(fls, iw, fls.len() - 1);
            }
            let data = self.writer.contents();
            let data_len = data.len();
            proof {
                assert(cp.pos + cp.len <= data_len);
            }
            let p = cp.pos as usize;
            let l = cp.len as usize;
            let sl = vstd::slice::slice_subrange(data.as_slice(), p, p + l);
            let out = copy_bytes_slice(sl);
            proof {
                lemma_record_slice(fls[iw].1, cp, k, out@);
            }
            out
        } else {
            let n = self.readers.len();
            let mut j: usize = 0;
            while j < n
                invariant
                    j <= n == self.readers@.len(),
                    fls == self.files(),
                    fls == old(self).files(),
                    self.index == old(self).index,
                    self.writer == old(self).writer,
                    self.version == old(self).version,
                    self.uncompacted == old(self).uncompacted,
                    sorted_versions(fls),
                    entry_valid(fls, k, cp),
                    0 <= iw < fls.len() && fls[iw].0 == cp.version && rec_at(fls[iw].1, cp, k),
                    cp.version != self.version,
                    forall|q: int| 0 <= q < j ==> (#[trigger] self.readers@[q]).version != cp.version,
                decreases n - j,
            {
                if self.readers[j].version == cp.version {
                    proof {
                        assert(fls[j as int].0 == cp.version);
                        lemma_version_unique(fls, iw, j as int);
                        reveal(rec_at);
                    }
                    let ghost readers0 = self.readers@;
                    let dl = self.readers[j].reader.contents().len();
                    proof {
                        reveal(rec_at);
                        assert(fls[j as int].1 == self.readers@[j as int].reader@);
                        assert(cp.pos + cp.len <= fls[j as int].1.len());
                        assert(fls[j as int].1.len() == dl);
                    }
                    let reader = &mut self.readers[j].reader;
                    reader.seek(cp.pos);
                    let got = reader.read(cp.len as usize);
                    proof {
                        assert(self.readers@ =~= readers0.update(
                            j as int,
                            self.readers@[j as int],
                        ));
                        assert(self.readers@[j as int].version == readers0[j as int].version);
                        assert(self.readers@[j as int].reader@ == readers0[j as int].reader@);
                        assert(self.files() =~= fls);
                    }
                    match got {
                        Some(out) => {
                            proof {
                                assert(out@ =~= fls[j as int].1.subrange(
                                    cp.pos as int,
                                    cp.pos + cp.len,
                                ));
                                lemma_record_slice(fls[j as int].1, cp, k, out@);
                            }
                            return out;
                        },
                        None => {
                            proof {
                                assert(false);
                            }
                            return Vec::new();
                        },
                    }
                }
                j = j + 1;
            }
            proof {
                assert(fls[iw].0 == cp.version);
                if iw < fls.len() - 1 {
                    assert(self.readers@[iw].version == cp.version);
                }
                assert(false);
            }
            Vec::new()
        }
    }
}

impl KvStore {
    /// Appends and indexes one `Set` record; the caller accounts the
    /// displaced bytes.
    #[verifier::rlimit(100)]
    fn append_set(&mut self, key: String, value: String) -> (r: Result<
        Option<CommandPos>,
        KvsErr,
    >)
        requires
            old(self).wf(),
        ensures
            (match r {
                Ok(prev) => final (self).wf_core() && final (self)@ == old(self)@.insert(
                    key@,
                    value@,
                ) && final (self).uncompacted() == old(self).uncompacted() && final (
                self).active_version() == old(self).active_version() && (match prev {
                    Some(p) => old(self).index_map().contains_key(key@) && p == old(
                        self,
                    ).index_map()[key@] && min_cap(old(self).uncompacted() as int + p.len as int)
                        == min_cap(final (self).dead_bytes()),
                    None => !old(self).index_map().contains_key(key@) && final (
                    self).uncompacted() as int == min_cap(final (self).dead_bytes()),
                }),
                Err(e) => e is Io && final (self)@ == old(self)@ && final (self).wf() && final (
                self).uncompacted() == old(self).uncompacted() && final (self).active_version()
                    == old(self).active_version(),
            }),
            r is Ok <==> old(self).files().last().1.len() + crate::record::enc_set_cmd(
                key@,
                value@,
            ).len() <= u64::MAX,
    {
        let ghost old_files = self.files();
        let ghost m_old = self.index@;
        let ghost es_old = self.index.entries_view();
        let ghost dead_old = self.dead_bytes();
        let record = crate::record::encode_set(key.as_str(), value.as_str());
        let rec_len = record.len();
        proof {
            assert(old_files.last() == (self.version, self.writer@));
            self.writer.lemma_wf_pos();
        }
        if rec_len as u64 > u64::MAX - self.writer.pos() {
            return Err(KvsErr::Io("the active segment cannot hold the record".to_owned()));
        }
        let pos = self.writer.pos();
        self.writer.write(record.as_slice());
        self.writer.flush();
        let cp = CommandPos { version: self.version, pos, len: rec_len as u64 };
        let ghost kview = key@;
        let ghost vview = value@;
        let ghost kstr = key;
        proof {
            self.index.lemma_distinct();
        }
        let prev = self.index.insert(key, cp);
        proof {
            vstd::utf8::encode_utf8_valid_utf8(kview);
            vstd::utf8::encode_utf8_valid_utf8(vview);
            vstd::utf8::encode_utf8_decode_utf8(kview);
            vstd::utf8::encode_utf8_decode_utf8(vview);
            let c = crate::record::pset_of(kview, vview);
            assert forall|ext: Seq<u8>|
                parse_cmd(#[trigger] (record@ + ext)) == (Parse::Got {
                    v: c,
                    used: record@.len() as int,
                }) by {
                crate::record::lemma_parse_enc_set(kview, vview, ext);
            }
            let dnew = dead_old + (if m_old.contains_key(kview) {
                m_old[kview].len as int
            } else {
                0
            });
            assert(apply_rec(
                m_old,
                dead_old,
                c,
                old_files.last().0,
                old_files.last().1.len() as int,
                record@.len() as int,
            ) == Some((self.index@, dnew))) by {
                assert(decode_utf8(encode_utf8(kview)) == kview);
                assert(self.index@ =~= m_old.insert(kview, cp));
            }
            lemma_replay_extend_last(
                old_files,
                0,
                Map::<Seq<char>, CommandPos>::empty(),
                0,
                m_old,
                dead_old,
                record@,
                c,
                self.index@,
                dnew,
            );
            let new_last = (old_files.last().0, old_files.last().1 + record@);
            let new_files = old_files.update(old_files.len() - 1, new_last);
            assert(self.files() =~= new_files);
            assert(sorted_versions(new_files)) by {
                assert(forall|a: int|
                    0 <= a < new_files.len() ==> (#[trigger] new_files[a]).0 == old_files[a].0);
            }
            assert(rec_at(new_files.last().1, cp, kview)) by {
                reveal(rec_at);
                assert(new_files.last().1.skip(cp.pos as int) =~= record@);
                assert(record@ + Seq::<u8>::empty() =~= record@);
            }
            lemma_extend_last_valid(old_files, record@, m_old);
            assert forall|kk: Seq<char>| #[trigger] self.index@.contains_key(kk) implies
                entry_valid(new_files, kk, self.index@[kk]) by {
                if kk == kview {
                    assert(new_files[new_files.len() - 1].0 == cp.version);
                } else {
                    assert(self.index@[kk] == m_old[kk]);
                }
            }
            assert(total_bytes(new_files) == total_bytes(old_files) + record@.len()) by {
                assert(new_files.drop_last() =~= old_files.drop_last());
            }
            let pw = choose|pw: int|
                #![auto]
                0 <= pw <= es_old.len() && (if m_old.contains_key(kview) {
                    pw < es_old.len() && es_old[pw].0@ == kview && self.index.entries_view()
                        == es_old.update(pw, (kstr, cp))
                } else {
                    self.index.entries_view() == es_old.insert(pw, (kstr, cp))
                });
            if m_old.contains_key(kview) {
                crate::keydir::lemma_sum_update(es_old, pw, (kstr, cp));
                crate::keydir::lemma_as_map_at(es_old, pw);
            } else {
                crate::keydir::lemma_sum_insert(es_old, pw, (kstr, cp));
            }
            assert(self.wf_core());
            assert(self.dead_bytes() == dnew);
            assert(entry_value(new_files, cp) == vview) by {
                let wn = lemma_entry_value(new_files, kview, cp);
                lemma_version_unique(new_files, wn, new_files.len() - 1);
                reveal(rec_at);
                assert(new_files.last().1.skip(cp.pos as int) =~= record@);
                assert(record@ + Seq::<u8>::empty() =~= record@);
            }
            assert(self@ =~= old(self)@.insert(kview, vview));
        }
        proof {
            assert(self.dead_bytes() == dead_old + (if m_old.contains_key(kview) {
                m_old[kview].len as int
            } else {
                0int
            }));
        }
        Ok(prev)
    }

    /// Sets the value of `key` to `value`: the record is appended to the
    /// active segment and flushed, the byte range it landed in is indexed,
    /// a displaced entry's bytes become dead, and compaction runs when the
    /// dead bytes pass the threshold.  It fails only when the active
    /// segment cannot hold the record.
    pub fn set(&mut self, key: String, value: String) -> (r: Result<(), KvsErr>)
        requires
            old(self).wf(),
        ensures
            final (self).wf(),
            (match r {
                Ok(()) => {
                    &&& final (self)@ == old(self)@.insert(key@, value@)
                    &&& (!old(self).index_map().contains_key(key@) ==> final (self).uncompacted()
                        == old(self).uncompacted() && final (self).active_version() == old(
                        self,
                    ).active_version())
                    &&& (old(self).index_map().contains_key(key@) ==> {
                        let grown = min_cap(
                            old(self).uncompacted() as int + old(self).index_map()[key@].len as int,
                        );
                        &&& (grown <= COMPACTION_THRESHOLD ==> final (self).uncompacted() as int
                            == grown && final (self).active_version() == old(
                            self,
                        ).active_version())
                        &&& (grown > COMPACTION_THRESHOLD && old(self).active_version() + 2
                            <= u64::MAX ==> final (self).uncompacted() == 0 && final (
                        self).active_version() as int == old(self).active_version() as int + 2)
                        &&& (grown > COMPACTION_THRESHOLD && old(self).active_version() + 2
                            > u64::MAX ==> final (self).uncompacted() as int == grown && final (
                        self).active_version() == old(self).active_version())
                    })
                },
                Err(e) => e is Io && final (self)@ == old(self)@ && final (self).uncompacted()
                    == old(self).uncompacted() && final (self).active_version() == old(
                    self,
                ).active_version(),
            }),
            r is Ok <==> old(self).files().last().1.len() + crate::record::enc_set_cmd(
                key@,
                value@,
            ).len() <= u64::MAX,
    {
        match self.append_set(key, value) {
            Err(e) => Err(e),
            Ok(prev) => {
                match prev {
                    Some(old_cmd) => {
                        match self.add_uncompacted(old_cmd.len) {
                            Ok(()) => {},
                            Err(e) => {
                                proof {
                                    assert(false);
                                }
                                return Err(e);
                            },
                        }
                    },
                    None => {
                        proof {
                            assert(self.wf());
                        }
                    },
                }
                Ok(())
            },
        }
    }

    /// Appends a tombstone and drops the key from the index; the caller
    /// accounts the dead bytes.
    #[verifier::rlimit(100)]
    fn append_remove(&mut self, key: String) -> (r: Result<u64, KvsErr>)
        requires
            old(self).wf(),
        ensures
            (match r {
                Ok(extra) => old(self)@.contains_key(key@) && old(
                    self,
                ).index_map().contains_key(key@) && final (self).wf_core() && final (self)@ == old(
                    self,
                )@.remove(key@) && final (self).uncompacted() == old(self).uncompacted() && final (
                self).active_version() == old(self).active_version() && min_cap(
                    old(self).uncompacted() as int + extra as int,
                ) == min_cap(final (self).dead_bytes()) && min_cap(
                    old(self).uncompacted() as int + extra as int,
                ) == min_cap(
                    old(self).uncompacted() as int + old(self).index_map()[key@].len as int
                        + crate::record::enc_remove_cmd(key@).len(),
                ),
                Err(e) => final (self)@ == old(self)@ && final (self).wf() && final (
                self).uncompacted() == old(self).uncompacted() && final (self).active_version()
                    == old(self).active_version() && ((e is KeyNotFound && !old(
                    self,
                )@.contains_key(key@)) || (e is Io && old(self)@.contains_key(key@))),
            }),
            r is Ok <==> old(self)@.contains_key(key@) && old(self).files().last().1.len()
                + crate::record::enc_remove_cmd(key@).len() <= u64::MAX,
    {
        let ghost old_files = self.files();
        let ghost m_old = self.index@;
        let ghost es_old = self.index.entries_view();
        let ghost dead_old = self.dead_bytes();
        match self.index.get(&key) {
            None => {
                return Err(KvsErr::KeyNotFound);
            },
            Some(_) => {},
        }
        let record = crate::record::encode_remove(key.as_str());
        let rec_len = record.len();
        proof {
            assert(old_files.last() == (self.version, self.writer@));
            self.writer.lemma_wf_pos();
        }
        if rec_len as u64 > u64::MAX - self.writer.pos() {
            return Err(KvsErr::Io("the active segment cannot hold the record".to_owned()));
        }
        let pos = self.writer.pos();
        self.writer.write(record.as_slice());
        self.writer.flush();
        let ghost kview = key@;
        proof {
            self.index.lemma_distinct();
        }
        let prev = self.index.remove(&key);
        let old_cmd = match prev {
            Some(p) => p,
            None => {
                proof {
                    assert(false);
                }
                return Err(KvsErr::KeyNotFound);
            },
        };
        proof {
            vstd::utf8::encode_utf8_valid_utf8(kview);
            vstd::utf8::encode_utf8_decode_utf8(kview);
            let c = crate::record::premove_of(kview);
            assert forall|ext: Seq<u8>|
                parse_cmd(#[trigger] (record@ + ext)) == (Parse::Got {
                    v: c,
                    used: record@.len() as int,
                }) by {
                crate::record::lemma_parse_enc_remove(kview, ext);
            }
            let dnew = dead_old + m_old[kview].len as int + record@.len() as int;
            assert(apply_rec(
                m_old,
                dead_old,
                c,
                old_files.last().0,
                old_files.last().1.len() as int,
                record@.len() as int,
            ) == Some((self.index@, dnew)));
            lemma_replay_extend_last(
                old_files,
                0,
                Map::<Seq<char>, CommandPos>::empty(),
                0,
                m_old,
                dead_old,
                record@,
                c,
                self.index@,
                dnew,
            );
            let new_last = (old_files.last().0, old_files.last().1 + record@);
            let new_files = old_files.update(old_files.len() - 1, new_last);
            assert(self.files() =~= new_files);
            assert(sorted_versions(new_files)) by {
                assert(forall|a: int|
                    0 <= a < new_files.len() ==> (#[trigger] new_files[a]).0 == old_files[a].0);
            }
            lemma_extend_last_valid(old_files, record@, m_old);
            assert forall|kk: Seq<char>| #[trigger] self.index@.contains_key(kk) implies
                entry_valid(new_files, kk, self.index@[kk]) by {
                assert(self.index@[kk] == m_old[kk]);
            }
            assert(total_bytes(new_files) == total_bytes(old_files) + record@.len()) by {
                assert(new_files.drop_last() =~= old_files.drop_last());
            }
            let pw = choose|pw: int|
                #![auto]
                0 <= pw < es_old.len() && es_old[pw].0@ == kview && self.index.entries_view()
                    == es_old.remove(pw);
            crate::keydir::lemma_sum_remove(es_old, pw);
            crate::keydir::lemma_as_map_at(es_old, pw);
            assert(self.wf_core());
            assert(self.dead_bytes() == dnew);
            assert(self@ =~= old(self)@.remove(kview));
        }
        let extra = sat_add(old_cmd.len, rec_len as u64);
        proof {
            assert(self.dead_bytes() == dead_old + m_old[kview].len as int + record@.len());
            assert(min_cap(self.uncompacted as int + extra as int) == min_cap(self.dead_bytes()));
        }
        Ok(extra)
    }

    /// Removes `key`: if it is absent the call fails with `KeyNotFound`;
    /// otherwise a tombstone is appended and flushed, the entry leaves the
    /// index, and both the entry's bytes and the tombstone count as dead;
    /// compaction runs when the dead bytes pass the threshold.  With the
    /// key present it fails only when the active segment cannot hold the
    /// tombstone.
    pub fn remove(&mut self, key: String) -> (r: Result<(), KvsErr>)
        requires
            old(self).wf(),
        ensures
            final (self).wf(),
            (match r {
                Ok(()) => {
                    &&& old(self)@.contains_key(key@)
                    &&& final (self)@ == old(self)@.remove(key@)
                    &&& old(self).index_map().contains_key(key@)
                    &&& {
                        let grown = min_cap(
                            old(self).uncompacted() as int + old(self).index_map()[key@].len as int
                                + crate::record::enc_remove_cmd(key@).len(),
                        );
                        &&& (grown <= COMPACTION_THRESHOLD ==> final (self).uncompacted() as int
                            == grown && final (self).active_version() == old(
                            self,
                        ).active_version())
                        &&& (grown > COMPACTION_THRESHOLD && old(self).active_version() + 2
                            <= u64::MAX ==> final (self).uncompacted() == 0 && final (
                        self).active_version() as int == old(self).active_version() as int + 2)
                        &&& (grown > COMPACTION_THRESHOLD && old(self).active_version() + 2
                            > u64::MAX ==> final (self).uncompacted() as int == grown && final (
                        self).active_version() == old(self).active_version())
                    }
                },
                Err(e) => final (self)@ == old(self)@ && final (self).uncompacted() == old(
                    self,
                ).uncompacted() && final (self).active_version() == old(self).active_version()
                    && ((e is KeyNotFound && !old(self)@.contains_key(key@)) || (e is Io && old(
                    self,
                )@.contains_key(key@))),
            }),
            r is Ok <==> old(self)@.contains_key(key@) && old(self).files().last().1.len()
                + crate::record::enc_remove_cmd(key@).len() <= u64::MAX,
    {
        match self.append_remove(key) {
            Err(e) => Err(e),
            Ok(extra) => {
                match self.add_uncompacted(extra) {
                    Ok(()) => {},
                    Err(e) => {
                        proof {
                            assert(false);
                        }
                        return Err(e);
                    },
                }
                Ok(())
            },
        }
    }

    /// Returns the value of `key` by reading exactly the indexed byte
    /// range back and decoding it; an index miss returns nothing.  Finding
    /// anything but a `Set` record there would be `UnexpectedCommandType`,
    /// which a well-formed store never yields.
    pub fn get(&mut self, key: String) -> (r: Result<Option<String>, KvsErr>)
        requires
            old(self).wf(),
        ensures
            final (self).wf(),
            final (self)@ == old(self)@,
            final (self).files() == old(self).files(),
            final (self).index_map() == old(self).index_map(),
            final (self).index_entries() == old(self).index_entries(),
            final (self).uncompacted() == old(self).uncompacted(),
            final (self).active_version() == old(self).active_version(),
            r is Ok,
            (match r {
                Ok(Some(v)) => old(self)@.contains_key(key@) && v@ == old(self)@[key@],
                Ok(None) => !old(self)@.contains_key(key@),
                Err(_) => false,
            }),
    {
        let cp_opt = self.index.get(&key);
        match cp_opt {
            None => Ok(None),
            Some(cp) => {
                let bytes = self.read_entry_bytes(cp, Ghost(key@));
                proof {
                    let wi = choose|i: int|
                        {
                            &&& 0 <= i < self.files().len()
                            &&& (#[trigger] self.files()[i]).0 == cp.version
                            &&& rec_at(self.files()[i].1, cp, key@)
                            &&& forall|ext: Seq<u8>|
                                parse_cmd(#[trigger] (bytes@ + ext)) == (Parse::Got {
                                    v: rec_cmd(self.files()[i].1, cp),
                                    used: cp.len as int,
                                })
                            &&& rec_value(self.files()[i].1, cp) == entry_value(
                                self.files(),
                                cp,
                            )
                        };
                    assert(bytes@ + Seq::<u8>::empty() =~= bytes@);
                    assert(bytes@.skip(0) =~= bytes@);
                    reveal(rec_at);
                }
                match crate::record::decode_cmd(&bytes, 0) {
                    crate::record::CmdStep::CSet { key: _, value, next: _ } => Ok(Some(value)),
                    crate::record::CmdStep::CRemove { key: _, next: _ } => {
                        proof {
                            assert(false);
                        }
                        Err(KvsErr::UnexpectedCommandType)
                    },
                    crate::record::CmdStep::CMore => {
                        proof {
                            assert(false);
                        }
                        Err(KvsErr::Serde("the indexed record is undecodable".to_owned()))
                    },
                    crate::record::CmdStep::CBad => {
                        proof {
                            assert(false);
                        }
                        Err(KvsErr::Serde("the indexed record is undecodable".to_owned()))
                    },
                }
            },
        }
    }

    /// Accounts `n` more dead bytes and compacts once they pass the
    /// threshold.
    fn add_uncompacted(&mut self, n: u64) -> (r: Result<(), KvsErr>)
        requires
            old(self).wf_core(),
            min_cap(old(self).uncompacted as int + n as int) == min_cap(old(self).dead_bytes()),
        ensures
            r is Ok,
            final (self).wf(),
            final (self)@ == old(self)@,
            min_cap(old(self).uncompacted() as int + n as int) <= COMPACTION_THRESHOLD ==> final (
            self).uncompacted() as int == min_cap(old(self).uncompacted() as int + n as int)
                && final (self).active_version() == old(self).active_version(),
            min_cap(old(self).uncompacted() as int + n as int) > COMPACTION_THRESHOLD && old(
                self,
            ).active_version() + 2 <= u64::MAX ==> final (self).uncompacted() == 0 && final (
            self).active_version() as int == old(self).active_version() as int + 2,
            min_cap(old(self).uncompacted() as int + n as int) > COMPACTION_THRESHOLD && old(
                self,
            ).active_version() + 2 > u64::MAX ==> final (self).uncompacted() as int == min_cap(
                old(self).uncompacted() as int + n as int,
            ) && final (self).active_version() == old(self).active_version(),
    {
        self.uncompacted = sat_add(self.uncompacted, n);
        proof {
            assert(self.wf());
        }
        if self.uncompacted > COMPACTION_THRESHOLD {
            match self.compact() {
                Ok(()) => {},
                Err(e) => {
                    proof {
                        assert(false);
                    }
                    return Err(e);
                },
            }
        }
        Ok(())
    }
}

impl KvStore {
    /// Rewrites the live record of every key, in index order, verbatim
    /// into a fresh segment one version above the active one, installs a
    /// fresh active segment another version up, drops every older segment,
    /// and zeroes the dead-byte count.  When fewer than two fresh versions
    /// remain, the store is left unchanged.
    #[verifier::rlimit(100)]
    fn compact(&mut self) -> (r: Result<(), KvsErr>)
        requires
            old(self).wf(),
        ensures
            r is Ok,
            final (self).wf(),
            final (self)@ == old(self)@,
            old(self).active_version() + 2 <= u64::MAX ==> {
                &&& final (self).uncompacted() == 0
                &&& final (self).active_version() as int == old(self).active_version() as int + 2
                &&& final (self).files().len() == 2
                &&& final (self).files()[0].0 as int == old(self).active_version() as int + 1
                &&& final (self).files()[0].1 == compacted_bytes(
                    old(self).files(),
                    old(self).index_entries(),
                )
                &&& final (self).files()[0].1.len() == sum_lens(old(self).index_entries())
                &&& final (self).files()[1].0 == final (self).active_version()
                &&& final (self).files()[1].1 == Seq::<u8>::empty()
                &&& final (self).index_entries().len() == old(self).index_entries().len()
                &&& forall|j: int|
                    0 <= j < old(self).index_entries().len() ==> (#[trigger] final (
                    self).index_entries()[j]).0@ == old(self).index_entries()[j].0@ && final (
                    self).index_entries()[j].1.len == old(self).index_entries()[j].1.len
                        && final (self).index_entries()[j].1.version as int == old(
                        self,
                    ).active_version() as int + 1
            },
            old(self).active_version() + 2 > u64::MAX ==> final (self).uncompacted() == old(
                self,
            ).uncompacted() && final (self).active_version() == old(self).active_version()
                && final (self).files() == old(self).files() && final (self).index_entries()
                == old(self).index_entries(),
    {
        if self.version > u64::MAX - 2 {
            return Ok(());
        }
        let compaction_version = self.version + 1;
        let new_version = self.version + 2;
        let ghost old_files = self.files();
        let ghost m_old = self.index@;
        let ghost es_old = self.index.entries_view();
        let ghost empty_map = Map::<Seq<char>, CommandPos>::empty();
        let mut comp: Vec<u8> = Vec::new();
        let mut new_index = KeyDir::new();
        let n = self.index.len();
        let mut i: usize = 0;
        proof {
            self.index.lemma_distinct();
        }
        while i < n
            invariant
                i <= n,
                n == es_old.len(),
                es_old == old(self).index_entries(),
                m_old == old(self).index_map(),
                old_files == old(self).files(),
                self.index_entries() == es_old,
                self.index_map() == m_old,
                self.files() == old_files,
                self.active_version() == old(self).active_version(),
                self.uncompacted() == old(self).uncompacted(),
                self.wf(),
                compaction_version == old(self).active_version() + 1,
                old(self).active_version() + 2 <= u64::MAX,
                empty_map == Map::<Seq<char>, CommandPos>::empty(),
                forall|a: int, b: int|
                    0 <= a < b < n ==> (#[trigger] es_old[a]).0@ != (#[trigger] es_old[b]).0@,
                new_index.wf(),
                new_index.entries_view().len() == i,
                forall|j: int|
                    0 <= j < i ==> (#[trigger] new_index.entries_view()[j]).0@ == es_old[j].0@,
                forall|j: int|
                    0 <= j < i ==> (#[trigger] new_index.entries_view()[j]).1.version
                        == compaction_version,
                forall|j: int|
                    0 <= j < i ==> rec_at(
                        comp@,
                        (#[trigger] new_index.entries_view()[j]).1,
                        es_old[j].0@,
                    ),
                forall|j: int|
                    0 <= j < i ==> rec_value(comp@, (#[trigger] new_index.entries_view()[j]).1)
                        == entry_value(old_files, es_old[j].1),
                forall|j: int|
                    0 <= j < i ==> (#[trigger] new_index.entries_view()[j]).1.len == es_old[j].1.len,
                comp@ == compacted_bytes(old_files, es_old.take(i as int)),
                load_seg(comp@, compaction_version, 0, empty_map, 0) == Some((new_index@, 0int)),
                sum_lens(new_index.entries_view()) == comp@.len(),
            decreases n - i,
        {
            let key = self.index.key_at(i).clone();
            let cp = self.index.cp_at(i);
            proof {
                crate::keydir::lemma_as_map_at(es_old, i as int);
                assert(self.index_map().contains_key(key@) && self.index_map()[key@] == cp);
            }
            let bytes = self.read_entry_bytes(cp, Ghost(key@));
            let newpos = comp.len();
            let ghost comp_pre = comp@;
            let ghost nm_pre = new_index@;
            let ghost nes_pre = new_index.entries_view();
            let ghost kstr = key;
            comp.extend_from_slice(bytes.as_slice());
            let cp2 = CommandPos {
                version: compaction_version,
                pos: newpos as u64,
                len: cp.len,
            };
            let prev2 = new_index.insert(key, cp2);
            proof {
                assert(comp@ == comp_pre + bytes@);
                crate::keydir::lemma_as_map_dom(nes_pre, kstr@);
                assert(!nm_pre.contains_key(kstr@)) by {
                    if exists|j: int| 0 <= j < nes_pre.len() && (#[trigger] nes_pre[j]).0@
                        == kstr@ {
                        let j = choose|j: int|
                            0 <= j < nes_pre.len() && (#[trigger] nes_pre[j]).0@ == kstr@;
                        assert(es_old[j].0@ == es_old[i as int].0@);
                    }
                }
                let wi = choose|wi: int|
                    {
                        &&& 0 <= wi < self.files().len()
                        &&& (#[trigger] self.files()[wi]).0 == cp.version
                        &&& rec_at(self.files()[wi].1, cp, kstr@)
                        &&& bytes@ == self.files()[wi].1.subrange(cp.pos as int, cp.pos + cp.len)
                        &&& forall|ext: Seq<u8>|
                            parse_cmd(#[trigger] (bytes@ + ext)) == (Parse::Got {
                                v: rec_cmd(self.files()[wi].1, cp),
                                used: cp.len as int,
                            })
                        &&& rec_value(self.files()[wi].1, cp) == entry_value(self.files(), cp)
                    };
                let c = rec_cmd(self.files()[wi].1, cp);
                assert(record_slice(old_files, cp) == bytes@) by {
                    let i0 = choose|i0: int|
                        0 <= i0 < old_files.len() && (#[trigger] old_files[i0]).0 == cp.version;
                    lemma_version_unique(old_files, i0, wi);
                }
                assert(comp@ =~= compacted_bytes(old_files, es_old.take(i + 1))) by {
                    assert(es_old.take(i + 1).drop_last() =~= es_old.take(i as int));
                    assert(es_old.take(i + 1).last() == es_old[i as int]);
                }
                reveal(rec_at);
                assert(c matches PCmd::PSet { key: kb, value: vb } && valid_utf8(kb)
                    && valid_utf8(vb) && decode_utf8(kb) == kstr@);
                assert(apply_rec(
                    nm_pre,
                    0,
                    c,
                    compaction_version,
                    comp_pre.len() as int,
                    bytes@.len() as int,
                ) == Some((new_index@, 0int)));
                lemma_load_extend(
                    comp_pre,
                    compaction_version,
                    0,
                    empty_map,
                    0,
                    nm_pre,
                    0,
                    bytes@,
                    c,
                    new_index@,
                    0int,
                );
                let pw = choose|pw: int|
                    #![auto]
                    0 <= pw <= nes_pre.len() && new_index.entries_view() == nes_pre.insert(
                        pw,
                        (kstr, cp2),
                    );
                crate::keydir::lemma_sum_insert(nes_pre, pw, (kstr, cp2));
                assert(pw == nes_pre.len()) by {
                    if pw < nes_pre.len() {
                        assert(new_index.entries_view()[pw] == (kstr, cp2));
                        assert(new_index.entries_view()[pw + 1] == nes_pre[pw]);
                        assert(crate::keydir::key_lt(
                            new_index.entries_view()[pw].0@,
                            new_index.entries_view()[pw + 1].0@,
                        ));
                        assert(crate::keydir::key_lt(kstr@, nes_pre[pw].0@));
                        assert(crate::keydir::key_lt(es_old[pw].0@, es_old[i as int].0@));
                        crate::keydir::lemma_lex_trans(
                            vstd::utf8::encode_utf8(kstr@),
                            vstd::utf8::encode_utf8(nes_pre[pw].0@),
                            vstd::utf8::encode_utf8(kstr@),
                        );
                        crate::keydir::lemma_lex_irrefl(vstd::utf8::encode_utf8(kstr@));
                    }
                }
                assert(new_index.entries_view() =~= nes_pre.push((kstr, cp2)));
                assert forall|j: int| 0 <= j < i implies rec_at(
                    comp@,
                    (#[trigger] new_index.entries_view()[j]).1,
                    es_old[j].0@,
                ) && rec_value(comp@, new_index.entries_view()[j].1) == entry_value(
                    old_files,
                    es_old[j].1,
                ) by {
                    assert(new_index.entries_view()[j] == nes_pre[j]);
                    lemma_rec_at_extend(comp_pre, bytes@, nes_pre[j].1, es_old[j].0@);
                }
                assert(rec_at(comp@, cp2, kstr@) && rec_value(comp@, cp2) == entry_value(
                    old_files,
                    cp,
                )) by {
                    assert(comp@.skip(cp2.pos as int) =~= bytes@);
                    assert(bytes@ + Seq::<u8>::empty() =~= bytes@);
                }
            }
            i = i + 1;
        }
        let ghost compv = comp@;
        let ghost nm_final = new_index@;
        let ghost nes_final = new_index.entries_view();
        let comp_reader = BufReaderWithPos::new(comp);
        let mut new_readers: Vec<Segment> = Vec::new();
        new_readers.push(Segment { version: compaction_version, reader: comp_reader });
        self.readers = new_readers;
        self.writer = BufWriterWithPos::new(Vec::new());
        self.version = new_version;
        self.index = new_index;
        self.uncompacted = 0;
        proof {
            let active: (u64, Seq<u8>) = (new_version, Seq::<u8>::empty());
            let comp_file: (u64, Seq<u8>) = (compaction_version, compv);
            let new_files = seq![comp_file, active];
            assert(self.files() =~= new_files);
            assert(replay(seq![comp_file], 0, empty_map, 0) == Some((nm_final, 0int))) by {
                assert(seq![comp_file][0] == comp_file);
                assert(replay(seq![comp_file], 1, nm_final, 0) == Some((nm_final, 0int)));
            }
            assert(load_seg(active.1, active.0, 0, nm_final, 0) == Some((nm_final, 0int)));
            lemma_replay_snoc(
                seq![comp_file],
                active,
                0,
                empty_map,
                0,
                nm_final,
                0int,
                nm_final,
                0int,
            );
            assert(seq![comp_file].push(active) =~= new_files);
            assert(total_bytes(new_files) == compv.len()) by {
                assert(total_bytes(Seq::<(u64, Seq<u8>)>::empty()) == 0);
                assert(seq![comp_file].drop_last() =~= Seq::<(u64, Seq<u8>)>::empty());
                assert(total_bytes(seq![comp_file]) == compv.len());
                assert(new_files.drop_last() =~= seq![comp_file]);
            }
            assert forall|kk: Seq<char>| #[trigger] nm_final.contains_key(kk) implies
                entry_valid(new_files, kk, nm_final[kk]) && entry_value(new_files, nm_final[kk])
                == old(self)@[kk] && old(self)@.contains_key(kk) by {
                crate::keydir::lemma_as_map_dom(nes_final, kk);
                let j = choose|j: int| 0 <= j < nes_final.len() && (#[trigger] nes_final[j]).0@
                    == kk;
                assert forall|b: int| j < b < nes_final.len() implies (#[trigger] nes_final[b]).0@
                    != nes_final[j].0@ by {
                    assert(es_old[b].0@ != es_old[j].0@);
                }
                crate::keydir::lemma_as_map_at(nes_final, j);
                assert(nm_final[kk] == nes_final[j].1);
                assert(rec_at(compv, nm_final[kk], kk));
                assert(new_files[0].0 == nm_final[kk].version);
                assert(entry_valid(new_files, kk, nm_final[kk]));
                let wn = lemma_entry_value(new_files, kk, nm_final[kk]);
                lemma_version_unique(new_files, wn, 0);
                assert(entry_value(new_files, nm_final[kk]) == rec_value(compv, nes_final[j].1));
                assert forall|b: int| j < b < es_old.len() implies (#[trigger] es_old[b]).0@
                    != es_old[j].0@ by {}
                crate::keydir::lemma_as_map_at(es_old, j);
                assert(m_old.contains_key(kk) && m_old[kk] == es_old[j].1);
            }
            assert forall|kk: Seq<char>| #[trigger] m_old.contains_key(kk) implies
                nm_final.contains_key(kk) by {
                crate::keydir::lemma_as_map_dom(es_old, kk);
                let j = choose|j: int| 0 <= j < es_old.len() && (#[trigger] es_old[j]).0@ == kk;
                crate::keydir::lemma_as_map_dom(nes_final, kk);
                assert(nes_final[j].0@ == kk);
            }
            assert(self.wf());
            assert(self@ =~= old(self)@);
            assert(es_old.take(n as int) =~= es_old);
            assert(compv == compacted_bytes(old_files, es_old));
            crate::keydir::lemma_sum_pointwise(nes_final, es_old);
            assert(self.files()[0].1.len() == sum_lens(es_old));
            assert(self.index_entries() == nes_final);
            assert(self.files().len() == 2 && self.files()[0].0 == compaction_version
                && self.files()[0].1 == compv && self.files()[1].0 == new_version
                && self.files()[1].1 == Seq::<u8>::empty());
        }
        Ok(())
    }
}

impl KvStore {
    /// The directory contents that persist this store: one `<version>.log`
    /// file per segment, the active one included.  Opening a store from
    /// exactly these files again is what recovery does.
    pub fn snapshot(&self) -> (r: Vec<(String, Vec<u8>)>)
        ensures
            snapshot_shape(self, r@),
    {
        let mut out: Vec<(String, Vec<u8>)> = Vec::new();
        let n = self.readers.len();
        let mut i: usize = 0;
        while i < n
            invariant
                i <= n == self.readers@.len(),
                out@.len() == i,
                forall|q: int|
                    0 <= q < i ==> (#[trigger] out@[q]).0@ == crate::names::dec_str(
                        self.files()[q].0 as int,
                    ) + ".log"@ && out@[q].1@ == self.files()[q].1,
            decreases n - i,
        {
            let name = crate::names::seg_file_name(self.readers[i].version);
            let data = copy_bytes(self.readers[i].reader.contents());
            out.push((name, data));
            i = i + 1;
        }
        let name = crate::names::seg_file_name(self.version);
        let data = copy_bytes(self.writer.contents());
        out.push((name, data));
        proof {
            assert(self.files().len() == self.readers@.len() + 1);
            assert(self.files().last() == (self.version, self.writer@));
        }
        out
    }

    /// The byte count the compaction decision watches.
    pub fn uncompacted_bytes(&self) -> (r: u64)
        ensures
            r == self.uncompacted(),
    {
        self.uncompacted
    }

    /// Total bytes across all live segments.
    pub fn total_segment_bytes(&self) -> (r: u64)
        requires
            self.wf(),
        ensures
            r as int == min_cap(self.total_log_bytes()),
    {
        let mut total: u64 = 0;
        let n = self.readers.len();
        let mut i: usize = 0;
        proof {
            assert(total_front(self.files(), 0) == 0) by {
                assert(self.files().take(0) =~= Seq::<(u64, Seq<u8>)>::empty());
            }
        }
        while i < n
            invariant
                i <= n == self.readers@.len(),
                self.files().len() == n + 1,
                total as int == min_cap(total_front(self.files(), i as int)),
                total_front(self.files(), i as int) >= 0,
            decreases n - i,
        {
            let l = self.readers[i].reader.contents().len();
            proof {
                lemma_total_front_step(self.files(), i as int);
                assert(self.files()[i as int].1.len() == l);
            }
            total = sat_add(total, l as u64);
            i = i + 1;
        }
        let l = self.writer.contents().len();
        proof {
            lemma_total_front_step(self.files(), n as int);
            assert(self.files()[n as int].1.len() == l);
            lemma_total_front_all(self.files());
        }
        sat_add(total, l as u64)
    }
}

/// Bytes of the first `i` segments.
pub open spec fn total_front(files: Seq<(u64, Seq<u8>)>, i: int) -> int {
    total_bytes(files.take(i))
}

pub proof fn lemma_total_front_step(files: Seq<(u64, Seq<u8>)>, i: int)
    requires
        0 <= i < files.len(),
    ensures
        total_front(files, i + 1) == total_front(files, i) + files[i].1.len(),
{
    assert(files.take(i + 1).drop_last() =~= files.take(i));
    assert(files.take(i + 1).last() == files[i]);
}

pub proof fn lemma_total_front_all(files: Seq<(u64, Seq<u8>)>)
    ensures
        total_front(files, files.len() as int) == total_bytes(files),
{
    assert(files.take(files.len() as int) =~= files);
}

/// After any mutation that leaves the counter at or under the threshold,
/// the segments hold at most the threshold beyond the live records: every
/// byte is live under the index or counted dead, and the dead bytes are
/// bounded by the counter.
pub proof fn lemma_space_bound(s: &KvStore)
    requires
        s.wf(),
        s.uncompacted() <= COMPACTION_THRESHOLD,
    ensures
        s.total_log_bytes() <= s.live_bytes() + COMPACTION_THRESHOLD,
{
}

impl crate::engines::KvEngine for KvStore {
    open spec fn inv(&self) -> bool {
        self.wf()
    }

    open spec fn kv(&self) -> Map<Seq<char>, Seq<char>> {
        self@
    }

    fn set(&mut self, key: String, value: String) -> (r: Result<(), KvsErr>) {
        KvStore::set(self, key, value)
    }

    fn get(&mut self, key: String) -> (r: Result<Option<String>, KvsErr>) {
        KvStore::get(self, key)
    }

    fn remove(&mut self, key: String) -> (r: Result<(), KvsErr>) {
        KvStore::remove(self, key)
    }
}

/// One mutation of the key-value map, as `set` and `remove` describe it
/// in their contracts.
pub ghost enum KvMutation {
    DoSet { key: Seq<char>, value: Seq<char> },
    DoRemove { key: Seq<char> },
}

pub open spec fn apply_mutation(m: Map<Seq<char>, Seq<char>>, op: KvMutation) -> Map<
    Seq<char>,
    Seq<char>,
> {
    match op {
        KvMutation::DoSet { key, value } => m.insert(key, value),
        KvMutation::DoRemove { key } => m.remove(key),
    }
}

pub open spec fn apply_mutations(m: Map<Seq<char>, Seq<char>>, ops: Seq<KvMutation>) -> Map<
    Seq<char>,
    Seq<char>,
>
    decreases ops.len(),
{
    if ops.len() == 0 {
        m
    } else {
        apply_mutations(apply_mutation(m, ops[0]), ops.skip(1))
    }
}

pub open spec fn mutation_key(op: KvMutation) -> Seq<char> {
    match op {
        KvMutation::DoSet { key, value } => key,
        KvMutation::DoRemove { key } => key,
    }
}

/// Last writer wins: for any interleaving of `set(k, v)` and `remove(k)`
/// applied to any starting map, the final state of `k` is decided by the
/// last completed mutation alone.
pub proof fn lemma_last_writer_wins(m: Map<Seq<char>, Seq<char>>, ops: Seq<KvMutation>, k: Seq<
    char,
>)
    requires
        ops.len() > 0,
        forall|i: int| 0 <= i < ops.len() ==> mutation_key(#[trigger] ops[i]) == k,
    ensures
        (match ops.last() {
            KvMutation::DoSet { key, value } => apply_mutations(m, ops).contains_key(k)
                && apply_mutations(m, ops)[k] == value,
            KvMutation::DoRemove { key } => !apply_mutations(m, ops).contains_key(k),
        }),
    decreases ops.len(),
{
    if ops.len() == 1 {
        assert(ops.skip(1).len() == 0);
        assert(apply_mutations(m, ops) == apply_mutations(apply_mutation(m, ops[0]), ops.skip(1)));
        assert(apply_mutations(m, ops) == apply_mutation(m, ops[0]));
        assert(ops.last() == ops[0]);
        assert(mutation_key(ops[0]) == k);
    } else {
        let m2 = apply_mutation(m, ops[0]);
        assert(apply_mutations(m, ops) == apply_mutations(m2, ops.skip(1)));
        assert(forall|i: int|
            0 <= i < ops.skip(1).len() ==> mutation_key(#[trigger] ops.skip(1)[i]) == k);
        assert(ops.skip(1).last() == ops.last());
        lemma_last_writer_wins(m2, ops.skip(1), k);
    }
}

/// A fresh copy of a byte slice.
fn copy_bytes_slice(v: &[u8]) -> (r: Vec<u8>)
    ensures
        r@ == v@,
{
    let mut out: Vec<u8> = Vec::new();
    out.extend_from_slice(v);
    proof {
        assert(out@ =~= v@);
    }
    out
}

/// The exact bytes of a valid record parse back to it, whatever follows.
pub proof fn lemma_record_slice(data: Seq<u8>, cp: CommandPos, k: Seq<char>, slice: Seq<u8>)
    requires
        rec_at(data, cp, k),
        slice == data.subrange(cp.pos as int, cp.pos + cp.len),
    ensures
        forall|ext: Seq<u8>|
            parse_cmd(#[trigger] (slice + ext)) == (Parse::Got {
                v: rec_cmd(data, cp),
                used: cp.len as int,
            }),
{
    reveal(rec_at);
    let bs = data.skip(cp.pos as int);
    assert forall|ext: Seq<u8>|
        parse_cmd(#[trigger] (slice + ext)) == (Parse::Got {
            v: rec_cmd(data, cp),
            used: cp.len as int,
        }) by {
        assert((slice + ext).take(cp.len as int) =~= bs.take(cp.len as int));
        crate::record::lemma_parse_local(bs, slice + ext);
    }
}

/// The directory contents `snapshot` writes: one canonically named
/// `<version>.log` file per segment, in segment order.
pub open spec fn snapshot_shape(s: &KvStore, out: Seq<(String, Vec<u8>)>) -> bool {
    &&& out.len() == s.files().len()
    &&& forall|i: int|
        0 <= i < out.len() ==> (#[trigger] out[i]).0@ == crate::names::dec_str(
            s.files()[i].0 as int,
        ) + ".log"@ && out[i].1@ == s.files()[i].1
}

/// `first_data` returns the contents of the first file named for `v`.
pub proof fn lemma_first_data_at(input: Seq<(String, Vec<u8>)>, j: int, v: int)
    requires
        0 <= j < input.len(),
        crate::names::parse_name(input[j].0@) == Some(v),
        forall|q: int| 0 <= q < j ==> crate::names::parse_name((#[trigger] input[q]).0@) != Some(v),
    ensures
        first_data(input, v) == input[j].1@,
        has_version(input, v),
    decreases j,
{
    if j == 0 {
    } else {
        assert(input.skip(1)[j - 1] == input[j]);
        assert(forall|q: int|
            0 <= q < j - 1 ==> crate::names::parse_name((#[trigger] input.skip(1)[q]).0@) != Some(
                v,
            ) && input.skip(1)[q] == input[q + 1]);
        lemma_first_data_at(input.skip(1), j - 1, v);
    }
    assert(has_version(input, v)) by {
        assert(crate::names::parse_name(input[j].0@) == Some(v));
    }
}

/// The files `snapshot` writes select back, in recovery order, as exactly
/// this store's segments.
pub proof fn lemma_snapshot_selection(s: &KvStore, out: Seq<(String, Vec<u8>)>)
    requires
        s.wf(),
        snapshot_shape(s, out),
    ensures
        is_selection(out, s.files()),
{
    let files = s.files();
    assert forall|i: int| 0 <= i < out.len() implies crate::names::parse_name(
        (#[trigger] out[i]).0@,
    ) == Some(files[i].0 as int) by {
        crate::names::lemma_parse_seg_name(files[i].0 as int);
    }
    assert forall|i: int| 0 <= i < files.len() implies has_version(
        out,
        (#[trigger] files[i]).0 as int,
    ) && files[i].1 == first_data(out, files[i].0 as int) by {
        assert(forall|q: int|
            0 <= q < i ==> crate::names::parse_name((#[trigger] out[q]).0@) != Some(
                files[i].0 as int,
            ));
        lemma_first_data_at(out, i, files[i].0 as int);
    }
    assert forall|v: int| #[trigger] has_version(out, v) implies exists|i: int|
        0 <= i < files.len() && (#[trigger] files[i]).0 as int == v by {
        let j = choose|j: int|
            0 <= j < out.len() && crate::names::parse_name((#[trigger] out[j]).0@) == Some(v);
        assert(files[j].0 as int == v);
    }
}

/// Durability and tombstone persistence: the files `snapshot` writes
/// select back, in recovery order, as exactly this store's segments,
/// which replay to exactly this store's index, and the map read off that
/// replay is this store's map.  Chained with `open`'s contract — whose
/// result is the replay of a selection of its input — a store opened on
/// `snapshot`'s output presents this map again, so a `get` after reopen
/// returns what the last completed `set` or `remove` of the key left
/// behind.
pub proof fn lemma_durability(s: &KvStore, out: Seq<(String, Vec<u8>)>)
    requires
        s.wf(),
        snapshot_shape(s, out),
    ensures
        is_selection(out, s.files()),
        spec_replay(s.files()) matches Some(p) && p.0 == s.index_map() && map_view(
            s.files(),
            p.0,
        ) == s@,
{
    lemma_snapshot_selection(s, out);
}

} // verus!
