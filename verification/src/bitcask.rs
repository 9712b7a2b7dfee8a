//! The log-structured storage engine: an append-only segment of records and
//! an in-memory key directory giving, for each live key, the position of its
//! current value inside the segment.
//!
//! The engine works on an in-memory copy of the active segment file. The
//! caller persists the record bytes that `put` hands back and feeds the whole
//! segment back in at `open`, which rebuilds the directory by replay.

use vstd::prelude::*;

use crate::bytes::{
    bytes_eq, push_dec_u64, read_i64_be, read_u32_be, spec_be_i64, spec_be_u32, spec_dec_digits,
};
use crate::entry::{spec_record, Entry, HEADER_SIZE};
use vstd::slice::{slice_subrange, slice_to_vec};
use vstd::utf8::encode_utf8;

verus! {

/// A key directory entry: where the current value of one key lives.
#[derive(Clone, Copy, Debug, PartialEq, Eq, Structural)]
pub struct Key {
    pub file_id: u32,
    pub value_size: u32,
    pub value_position: u64,
    pub timestamp: i64,
}

/// The storage engine.
pub struct BitCask {
    data_dir: String,
    active_file_id: u32,
    segment: Vec<u8>,
    key_dir: Vec<(Vec<u8>, Key)>,
}

/// No key occurs twice in the directory.
pub open spec fn distinct_keys(s: Seq<(Vec<u8>, Key)>) -> bool {
    forall|i: int, j: int| 0 <= i < j < s.len() ==> s[i].0@ != s[j].0@
}

/// Some directory slot holds the key `k`.
pub open spec fn has_key(s: Seq<(Vec<u8>, Key)>, k: Seq<u8>) -> bool {
    exists|i: int| 0 <= i < s.len() && s[i].0@ == k
}

/// The slot holding the key `k` (meaningful only when `has_key`).
pub open spec fn slot_of(s: Seq<(Vec<u8>, Key)>, k: Seq<u8>) -> int {
    choose|i: int| 0 <= i < s.len() && s[i].0@ == k
}

/// The key directory as a map from key bytes to directory entries.
pub open spec fn dir_map(s: Seq<(Vec<u8>, Key)>) -> Map<Seq<u8>, Key> {
    Map::new(|k: Seq<u8>| has_key(s, k), |k: Seq<u8>| s[slot_of(s, k)].1)
}

/// The value bytes an entry points at inside the segment.
pub open spec fn value_at(segment: Seq<u8>, e: Key) -> Seq<u8> {
    segment.subrange(e.value_position as int, e.value_position + e.value_size)
}

/// Replay of the segment from `off`, later records overriding earlier ones,
/// starting from the directory `acc`. Replay stops at the first incomplete
/// record.
pub open spec fn spec_replay_from(s: Seq<u8>, off: int, acc: Map<Seq<u8>, Key>) -> Map<
    Seq<u8>,
    Key,
>
    decreases s.len() - off,
{
    if off < 0 || off + 16 > s.len() {
        acc
    } else {
        let ts = spec_be_i64(s.subrange(off, off + 8));
        let ks = spec_be_u32(s.subrange(off + 8, off + 12)) as int;
        let vs = spec_be_u32(s.subrange(off + 12, off + 16)) as int;
        if off + 16 + ks + vs > s.len() {
            acc
        } else {
            let key = s.subrange(off + 16, off + 16 + ks);
            let e = Key {
                file_id: 0,
                value_size: vs as u32,
                value_position: (off + 16 + ks) as u64,
                timestamp: ts,
            };
            spec_replay_from(s, off + 16 + ks + vs, acc.insert(key, e))
        }
    }
}

/// The offset at which replay from `off` stops.
pub open spec fn spec_replay_end(s: Seq<u8>, off: int) -> int
    decreases s.len() - off,
{
    if off < 0 || off + 16 > s.len() {
        off
    } else {
        let ks = spec_be_u32(s.subrange(off + 8, off + 12)) as int;
        let vs = spec_be_u32(s.subrange(off + 12, off + 16)) as int;
        if off + 16 + ks + vs > s.len() {
            off
        } else {
            spec_replay_end(s, off + 16 + ks + vs)
        }
    }
}

/// The key directory reconstructed by replaying a whole segment.
pub open spec fn spec_replay(s: Seq<u8>) -> Map<Seq<u8>, Key> {
    spec_replay_from(s, 0, Map::empty())
}

impl BitCask {
    /// Internal consistency: the directory has no duplicate keys and every
    /// entry points at value bytes wholly inside the segment.
    pub closed spec fn wf(self) -> bool {
        &&& self.active_file_id == 0
        &&& distinct_keys(self.key_dir@)
        &&& forall|i: int|
            0 <= i < self.key_dir@.len() ==> {
                &&& (#[trigger] self.key_dir@[i]).1.file_id == 0
                &&& self.key_dir@[i].1.value_position + self.key_dir@[i].1.value_size
                    <= self.segment@.len()
            }
    }

    /// The key directory as a map.
    pub closed spec fn dir(self) -> Map<Seq<u8>, Key> {
        dir_map(self.key_dir@)
    }

    /// The live keys, in directory order.
    pub closed spec fn key_seq(self) -> Seq<Seq<u8>> {
        self.key_dir@.map_values(|p: (Vec<u8>, Key)| p.0@)
    }

    /// The bytes of the in-memory segment.
    pub closed spec fn segment_bytes(self) -> Seq<u8> {
        self.segment@
    }

    /// The configured data directory.
    pub closed spec fn data_dir_chars(self) -> Seq<char> {
        self.data_dir@
    }

    /// The segment replays to exactly the in-memory directory, consuming all
    /// of its bytes. Holds after `open` of a cleanly written segment and is
    /// preserved by `put`; `delete` breaks it, since no tombstone is written.
    pub closed spec fn in_sync(self) -> bool {
        spec_replay_end(self.segment@, 0) == self.segment@.len() && spec_replay(self.segment@)
            == self.dir()
    }
}

impl View for BitCask {
    type V = Map<Seq<u8>, Seq<u8>>;

    /// The abstract store: each live key mapped to its current value bytes.
    closed spec fn view(&self) -> Map<Seq<u8>, Seq<u8>> {
        Map::new(
            |k: Seq<u8>| has_key(self.key_dir@, k),
            |k: Seq<u8>| value_at(self.segment@, self.key_dir@[slot_of(self.key_dir@, k)].1),
        )
    }
}

/// Find the slot holding `key`, scanning from the front.
fn find_slot(dir: &Vec<(Vec<u8>, Key)>, key: &[u8]) -> (r: Option<usize>)
    ensures
        match r {
            Some(i) => i < dir@.len() && dir@[i as int].0@ == key@,
            None => !has_key(dir@, key@),
        },
{
    let mut i: usize = 0;
    while i < dir.len()
        invariant
            i <= dir@.len(),
            forall|j: int| 0 <= j < i ==> dir@[j].0@ != key@,
        decreases dir@.len() - i,
    {
        if bytes_eq(dir[i].0.as_slice(), key) {
            return Some(i);
        }
        i += 1;
    }
    None
}

/// Replace the entry in the slot holding `key`, or add a new slot at the end.
fn dir_upsert(dir: &mut Vec<(Vec<u8>, Key)>, key: Vec<u8>, e: Key)
    requires
        distinct_keys(old(dir)@),
    ensures
        distinct_keys(final(dir)@),
        has_key(old(dir)@, key@) ==> final(dir)@.len() == old(dir)@.len() && final(dir)@ == old(
            dir,
        )@.update(slot_of(old(dir)@, key@), (key, e)),
        !has_key(old(dir)@, key@) ==> final(dir)@ == old(dir)@.push((key, e)),
        dir_map(final(dir)@) == dir_map(old(dir)@).insert(key@, e),
        final(dir)@.map_values(|p: (Vec<u8>, Key)| p.0@) == if has_key(old(dir)@, key@) {
            old(dir)@.map_values(|p: (Vec<u8>, Key)| p.0@)
        } else {
            old(dir)@.map_values(|p: (Vec<u8>, Key)| p.0@).push(key@)
        },
        forall|j: int|
            0 <= j < final(dir)@.len() ==> (#[trigger] final(dir)@[j]).1 == e || (0 <= j < old(
                dir,
            )@.len() && final(dir)@[j].1 == old(dir)@[j].1),
{
    let ghost s0 = dir@;
    match find_slot(dir, key.as_slice()) {
        Some(i) => {
            let _ = dir.remove(i);
            dir.insert(i, (key, e));
            proof {
                assert(slot_of(s0, key@) == i) by {
                    let j = slot_of(s0, key@);
                    assert(0 <= j < s0.len() && s0[j].0@ == key@);
                }
                assert(dir@ =~= s0.update(i as int, (key, e)));
                assert(distinct_keys(dir@)) by {
                    assert(forall|a: int, b: int|
                        0 <= a < b < dir@.len() ==> dir@[a].0@ != dir@[b].0@) by {
                        assert(forall|a: int|
                            0 <= a < dir@.len() ==> (#[trigger] dir@[a]).0@ == s0[a].0@);
                    }
                }
                assert(dir_map(dir@) =~= dir_map(s0).insert(key@, e)) by {
                    assert(forall|a: int|
                        0 <= a < dir@.len() ==> (#[trigger] dir@[a]).0@ == s0[a].0@);
                    assert forall|k2: Seq<u8>| #[trigger]
                        has_key(dir@, k2) == has_key(s0, k2) by {
                        if has_key(dir@, k2) {
                            let j = choose|j: int| 0 <= j < dir@.len() && dir@[j].0@ == k2;
                            assert(s0[j].0@ == k2);
                        }
                        if has_key(s0, k2) {
                            let j = choose|j: int| 0 <= j < s0.len() && s0[j].0@ == k2;
                            assert(dir@[j].0@ == k2);
                        }
                    }
                    assert forall|k2: Seq<u8>|
                        has_key(s0, k2) implies (#[trigger] dir_map(dir@)[k2]) == dir_map(
                        s0,
                    ).insert(key@, e)[k2] by {
                        let j0 = slot_of(s0, k2);
                        assert(0 <= j0 < s0.len() && s0[j0].0@ == k2);
                        assert(dir@[j0].0@ == k2);
                        assert(has_key(dir@, k2));
                        let j1 = slot_of(dir@, k2);
                        assert(0 <= j1 < dir@.len() && dir@[j1].0@ == k2);
                        assert(s0[j1].0@ == k2);
                        assert(j0 == j1);
                        if k2 == key@ {
                            assert(j0 == i);
                        } else {
                            assert(j0 != i);
                        }
                    }
                }
                assert(dir@.map_values(|p: (Vec<u8>, Key)| p.0@) =~= s0.map_values(
                    |p: (Vec<u8>, Key)| p.0@,
                ));
            }
        },
        None => {
            dir.push((key, e));
            proof {
                assert(dir@ =~= s0.push((key, e)));
                assert(distinct_keys(dir@)) by {
                    assert(forall|a: int| 0 <= a < s0.len() ==> (#[trigger] s0[a]).0@ != key@);
                    assert(forall|a: int|
                        0 <= a < s0.len() ==> (#[trigger] dir@[a]).0@ == s0[a].0@);
                }
                assert(dir_map(dir@) =~= dir_map(s0).insert(key@, e)) by {
                    assert forall|k2: Seq<u8>| #[trigger]
                        has_key(dir@, k2) == (has_key(s0, k2) || k2 == key@) by {
                        if has_key(dir@, k2) {
                            let j = choose|j: int| 0 <= j < dir@.len() && dir@[j].0@ == k2;
                            if j < s0.len() {
                                assert(s0[j].0@ == k2);
                            } else {
                                assert(k2 == key@);
                            }
                        }
                        if has_key(s0, k2) {
                            let j = choose|j: int| 0 <= j < s0.len() && s0[j].0@ == k2;
                            assert(dir@[j].0@ == k2);
                        }
                        if k2 == key@ {
                            assert(dir@[s0.len() as int].0@ == k2);
                        }
                    }
                    assert forall|k2: Seq<u8>|
                        has_key(dir@, k2) implies (#[trigger] dir_map(dir@)[k2]) == dir_map(
                        s0,
                    ).insert(key@, e)[k2] by {
                        let j1 = slot_of(dir@, k2);
                        assert(0 <= j1 < dir@.len() && dir@[j1].0@ == k2);
                        if k2 == key@ {
                            assert(forall|a: int|
                                0 <= a < s0.len() ==> (#[trigger] s0[a]).0@ != key@);
                            assert(j1 == s0.len());
                        } else {
                            let j0 = slot_of(s0, k2);
                            assert(0 <= j0 < s0.len() && s0[j0].0@ == k2);
                            assert(dir@[j0].0@ == k2);
                            assert(j0 == j1);
                        }
                    }
                }
                assert(dir@.map_values(|p: (Vec<u8>, Key)| p.0@) =~= s0.map_values(
                    |p: (Vec<u8>, Key)| p.0@,
                ).push(key@));
            }
        },
    }
}

/// Relies on chrono::Utc::now and chrono::DateTime::timestamp for the
/// current wall-clock time in whole seconds since the Unix epoch. Nothing is
/// assumed of the value.
#[verifier::external_body]
fn now_timestamp() -> i64 {
    chrono::Utc::now().timestamp()
}

impl BitCask {
    /// Rebuild the key directory by replaying the whole segment from offset
    /// zero, stopping cleanly at the first incomplete record.
    fn build_key_dir(&mut self)
        requires
            old(self).key_dir@.len() == 0,
            old(self).active_file_id == 0,
        ensures
            final(self).wf(),
            final(self).dir() == spec_replay(old(self).segment@),
            final(self).segment@ == old(self).segment@,
            final(self).data_dir == old(self).data_dir,
            final(self).active_file_id == 0,
    {
        let ghost seg = old(self).segment@;
        let mut off: usize = 0;
        proof {
            assert(dir_map(self.key_dir@) =~= Map::<Seq<u8>, Key>::empty());
        }
        loop
            invariant
                off <= self.segment@.len(),
                self.segment@ == seg,
                self.data_dir == old(self).data_dir,
                self.active_file_id == 0,
                distinct_keys(self.key_dir@),
                forall|i: int|
                    0 <= i < self.key_dir@.len() ==> {
                        &&& (#[trigger] self.key_dir@[i]).1.file_id == 0
                        &&& self.key_dir@[i].1.value_position + self.key_dir@[i].1.value_size
                            <= off
                    },
                spec_replay_from(seg, 0, Map::empty()) == spec_replay_from(
                    seg,
                    off as int,
                    dir_map(self.key_dir@),
                ),
            ensures
                self.segment@ == seg,
                self.data_dir == old(self).data_dir,
                self.active_file_id == 0,
                distinct_keys(self.key_dir@),
                forall|i: int|
                    0 <= i < self.key_dir@.len() ==> {
                        &&& (#[trigger] self.key_dir@[i]).1.file_id == 0
                        &&& self.key_dir@[i].1.value_position + self.key_dir@[i].1.value_size
                            <= self.segment@.len()
                    },
                dir_map(self.key_dir@) == spec_replay(seg),
            decreases self.segment@.len() - off,
        {
            let seg_len = self.segment.len();
            if seg_len - off < 16 {
                proof {
                    assert(spec_replay_from(seg, off as int, dir_map(self.key_dir@)) == dir_map(
                        self.key_dir@,
                    ));
                }
                break ;
            }
            let ts = read_i64_be(self.segment.as_slice(), off);
            let ks = read_u32_be(self.segment.as_slice(), off + 8);
            let vs = read_u32_be(self.segment.as_slice(), off + 12);
            let rem = seg_len - (off + 16);
            if ks as usize > rem || vs as usize > rem - (ks as usize) {
                proof {
                    assert(spec_replay_from(seg, off as int, dir_map(self.key_dir@)) == dir_map(
                        self.key_dir@,
                    ));
                }
                break ;
            }
            let kstart = off + 16;
            let kend = kstart + ks as usize;
            let key = slice_to_vec(slice_subrange(self.segment.as_slice(), kstart, kend));
            let e = Key {
                file_id: 0,
                value_size: vs,
                value_position: kend as u64,
                timestamp: ts,
            };
            let ghost m0 = dir_map(self.key_dir@);
            dir_upsert(&mut self.key_dir, key, e);
            proof {
                assert(spec_replay_from(seg, off as int, m0) == spec_replay_from(
                    seg,
                    off + 16 + ks + vs,
                    m0.insert(seg.subrange(off + 16, off + 16 + ks), e),
                ));
                assert(key@ == seg.subrange(off + 16, off + 16 + ks));
            }
            off = kend + vs as usize;
        }
    }

    /// Open a store over the given data directory and segment contents. The
    /// key directory is rebuilt by replay; a corrupt trailing record only
    /// loses the tail.
    pub fn open(data_dir: String, segment: Vec<u8>) -> (r: BitCask)
        ensures
            r.wf(),
            r.dir() == spec_replay(segment@),
            r.segment_bytes() == segment@,
            r.data_dir_chars() == data_dir@,
            spec_replay_end(segment@, 0) == segment@.len() ==> r.in_sync(),
    {
        let mut cask = BitCask { data_dir, active_file_id: 0, segment, key_dir: Vec::new() };
        cask.build_key_dir();
        cask
    }

    /// Get the current value of a key, or `None` if the key is not live.
    pub fn get(&self, key: &[u8]) -> (r: Option<Vec<u8>>)
        requires
            self.wf(),
        ensures
            match r {
                Some(v) => self@.contains_key(key@) && v@ == self@[key@],
                None => !self@.contains_key(key@),
            },
    {
        let seg_len = self.segment.len();
        match find_slot(&self.key_dir, key) {
            Some(i) => {
                let e = self.key_dir[i].1;
                proof {
                    assert(self.key_dir@[i as int].1.value_position + self.key_dir@[
                        i as int].1.value_size <= self.segment@.len());
                    assert(slot_of(self.key_dir@, key@) == i) by {
                        let j = slot_of(self.key_dir@, key@);
                        assert(0 <= j < self.key_dir@.len() && self.key_dir@[j].0@ == key@);
                    }
                }
                let a = e.value_position as usize;
                let b = a + e.value_size as usize;
                let v = slice_to_vec(slice_subrange(self.segment.as_slice(), a, b));
                proof {
                    assert(v@ == value_at(self.segment@, e));
                    assert(self@[key@] == value_at(
                        self.segment@,
                        self.key_dir@[slot_of(self.key_dir@, key@)].1,
                    ));
                }
                Some(v)
            },
            None => None,
        }
    }

    /// Append a record for the pair to the segment, stamped with the current
    /// time, and point the key directory at the new value. Returns the
    /// record bytes so the caller can persist them.
    pub fn put(&mut self, key: &[u8], value: &[u8]) -> (rec: Vec<u8>)
        requires
            old(self).wf(),
            key@.len() <= u32::MAX,
            value@.len() <= u32::MAX,
            old(self).segment_bytes().len() + HEADER_SIZE + key@.len() + value@.len()
                <= usize::MAX,
        ensures
            final(self).wf(),
            final(self)@ == old(self)@.insert(key@, value@),
            final(self).key_seq() == if old(self)@.contains_key(key@) {
                old(self).key_seq()
            } else {
                old(self).key_seq().push(key@)
            },
            final(self).segment_bytes() == old(self).segment_bytes() + rec@,
            exists|ts: i64| rec@ == spec_record(ts, key@, value@),
            rec@.len() == HEADER_SIZE + key@.len() + value@.len(),
            old(self).in_sync() ==> final(self).in_sync(),
            final(self).data_dir_chars() == old(self).data_dir_chars(),
    {
        let ghost seg0 = self.segment@;
        let ghost s0 = self.key_dir@;
        let timestamp = now_timestamp();
        let entry = Entry {
            timestamp,
            key_size: key.len() as u32,
            value_size: value.len() as u32,
            key: slice_to_vec(key),
            value: slice_to_vec(value),
        };
        let rec = entry.serialize();
        self.segment.extend_from_slice(rec.as_slice());
        let vpos = self.segment.len() - value.len();
        let e = Key {
            file_id: 0,
            value_size: value.len() as u32,
            value_position: vpos as u64,
            timestamp,
        };
        let key_copy = slice_to_vec(key);
        dir_upsert(&mut self.key_dir, key_copy, e);
        proof {
            let ts = timestamp;
            assert(rec@ == spec_record(ts, key@, value@));
            assert(exists|t2: i64| rec@ == spec_record(t2, key@, value@));
            assert(self.segment@ == seg0 + rec@);
            assert(self.segment@.subrange(0, seg0.len() as int) =~= seg0);
            assert(vpos == seg0.len() + 16 + key@.len());
            assert(value_at(self.segment@, e) =~= value@) by {
                assert forall|x: int|
                    0 <= x < value@.len() implies #[trigger] self.segment@[vpos + x]
                    == value@[x] by {
                    assert(self.segment@[vpos + x] == rec@[16 + key@.len() + x]);
                    assert(rec@[16 + key@.len() + x] == value@[x]);
                }
            }
            assert(has_key(self.key_dir@, key@)) by {
                assert(dir_map(self.key_dir@).contains_key(key@));
            }
            lemma_put_view(seg0, s0, self.segment@, self.key_dir@, key@, value@, e);
            if old(self).in_sync() {
                lemma_replay_append(seg0, rec@, ts, key@, value@, 0, Map::empty());
            }
        }
        rec
    }

    /// Remove a key from the live set. The segment is not rewritten: no
    /// tombstone is appended, so the key only disappears from memory.
    pub fn delete(&mut self, key: &[u8]) -> (r: Option<()>)
        requires
            old(self).wf(),
        ensures
            final(self).wf(),
            final(self)@ == old(self)@.remove(key@),
            r is Some <==> old(self)@.contains_key(key@),
            final(self).segment_bytes() == old(self).segment_bytes(),
            final(self).data_dir_chars() == old(self).data_dir_chars(),
            old(self)@.contains_key(key@) ==> exists|i: int|
                0 <= i < old(self).key_seq().len() && old(self).key_seq()[i] == key@
                    && final(self).key_seq() == old(self).key_seq().remove(i),
            !old(self)@.contains_key(key@) ==> final(self).key_seq() == old(self).key_seq(),
    {
        let ghost s0 = self.key_dir@;
        match find_slot(&self.key_dir, key) {
            Some(i) => {
                let _ = self.key_dir.remove(i);
                proof {
                    let s1 = self.key_dir@;
                    assert(s1 == s0.remove(i as int));
                    assert(forall|j: int| 0 <= j < i ==> s1[j] == s0[j]);
                    assert(forall|j: int| i <= j < s1.len() ==> s1[j] == s0[j + 1]);
                    assert(distinct_keys(s1)) by {
                        assert forall|a: int, b: int| 0 <= a < b < s1.len() implies s1[a].0@
                            != s1[b].0@ by {
                            if b < i {
                                assert(s0[a].0@ != s0[b].0@);
                            } else if a < i {
                                assert(s0[a].0@ != s0[b + 1].0@);
                            } else {
                                assert(s0[a + 1].0@ != s0[b + 1].0@);
                            }
                        }
                    }
                    assert(self@ =~= old(self)@.remove(key@)) by {
                        assert forall|k2: Seq<u8>| #[trigger]
                            has_key(s1, k2) == (has_key(s0, k2) && k2 != key@) by {
                            if has_key(s1, k2) {
                                let j = choose|j: int| 0 <= j < s1.len() && s1[j].0@ == k2;
                                if j < i {
                                    assert(s0[j].0@ == k2);
                                    assert(s0[j].0@ != s0[i as int].0@);
                                } else {
                                    assert(s0[j + 1].0@ == k2);
                                    assert(s0[i as int].0@ != s0[j + 1].0@);
                                }
                            }
                            if has_key(s0, k2) && k2 != key@ {
                                let j = choose|j: int| 0 <= j < s0.len() && s0[j].0@ == k2;
                                assert(j != i);
                                if j < i {
                                    assert(s1[j].0@ == k2);
                                } else {
                                    assert(s1[j - 1].0@ == k2);
                                }
                            }
                        }
                        assert forall|k2: Seq<u8>|
                            has_key(s1, k2) implies (#[trigger] self@[k2]) == old(self)@[k2] by {
                            let j1 = slot_of(s1, k2);
                            assert(0 <= j1 < s1.len() && s1[j1].0@ == k2);
                            let j0 = slot_of(s0, k2);
                            assert(has_key(s0, k2));
                            assert(0 <= j0 < s0.len() && s0[j0].0@ == k2);
                            if j1 < i {
                                assert(s0[j1].0@ == k2);
                                assert(j0 == j1);
                                assert(s1[j1].1 == s0[j0].1);
                            } else {
                                assert(s0[j1 + 1].0@ == k2);
                                assert(j0 == j1 + 1);
                                assert(s1[j1].1 == s0[j0].1);
                            }
                        }
                    }
                    assert(self.key_seq() =~= old(self).key_seq().remove(i as int));
                    assert(old(self).key_seq()[i as int] == key@);
                }
                Some(())
            },
            None => {
                proof {
                    assert(self@ =~= old(self)@.remove(key@));
                }
                None
            },
        }
    }

    /// The number of bytes in the in-memory segment.
    pub fn segment_len(&self) -> (r: usize)
        ensures
            r == self.segment_bytes().len(),
    {
        self.segment.len()
    }

    /// Alias for [`BitCask::list_keys()`]
    pub fn keys(&self) -> (r: Vec<Vec<u8>>)
        ensures
            r@.map_values(|k: Vec<u8>| k@) == self.key_seq(),
    {
        self.list_keys()
    }

    /// List all live keys, in directory order.
    pub fn list_keys(&self) -> (r: Vec<Vec<u8>>)
        ensures
            r@.map_values(|k: Vec<u8>| k@) == self.key_seq(),
    {
        let mut r: Vec<Vec<u8>> = Vec::new();
        let mut i: usize = 0;
        while i < self.key_dir.len()
            invariant
                i <= self.key_dir@.len(),
                r@.len() == i,
                forall|j: int| 0 <= j < i ==> r@.map_values(|k: Vec<u8>| k@)[j]
                    == self.key_dir@[j].0@,
            decreases self.key_dir@.len() - i,
        {
            r.push(slice_to_vec(self.key_dir[i].0.as_slice()));
            i += 1;
        }
        proof {
            assert(r@.map_values(|k: Vec<u8>| k@) =~= self.key_seq());
        }
        r
    }

    /// The path of the active segment file: the data directory, a slash, the
    /// active file id and the `.data` suffix.
    pub fn get_active_file(&self) -> (r: Vec<u8>)
        requires
            self.wf(),
        ensures
            r@ == encode_utf8(self.data_dir_chars()) + seq![47u8] + spec_dec_digits(0) + encode_utf8(
                ".data"@,
            ),
    {
        let mut p = slice_to_vec(self.data_dir.as_str().as_bytes());
        p.push(47);
        push_dec_u64(&mut p, self.active_file_id as u64);
        p.extend_from_slice(".data".as_bytes());
        proof {
            assert(p@ =~= encode_utf8(self.data_dir_chars()) + seq![47u8] + spec_dec_digits(0)
                + encode_utf8(".data"@));
        }
        p
    }
}

/// After an update or a fresh push of `key`, against a segment that only
/// grew, the abstract store is the old store with `key` now mapping to the
/// new value.
proof fn lemma_put_view(
    seg0: Seq<u8>,
    s0: Seq<(Vec<u8>, Key)>,
    seg1: Seq<u8>,
    s1: Seq<(Vec<u8>, Key)>,
    key: Seq<u8>,
    value: Seq<u8>,
    e: Key,
)
    requires
        distinct_keys(s0),
        distinct_keys(s1),
        seg0.len() <= seg1.len(),
        seg1.subrange(0, seg0.len() as int) == seg0,
        forall|i: int|
            0 <= i < s0.len() ==> (#[trigger] s0[i]).1.value_position + s0[i].1.value_size
                <= seg0.len(),
        dir_map(s1) == dir_map(s0).insert(key, e),
        value_at(seg1, e) == value,
        has_key(s1, key),
        forall|j: int|
            0 <= j < s1.len() ==> (#[trigger] s1[j]).1 == e || (0 <= j < s0.len() && s1[j].1
                == s0[j].1 && s1[j].0@ == s0[j].0@),
    ensures
        Map::new(
            |k: Seq<u8>| has_key(s1, k),
            |k: Seq<u8>| value_at(seg1, s1[slot_of(s1, k)].1),
        ) == Map::new(
            |k: Seq<u8>| has_key(s0, k),
            |k: Seq<u8>| value_at(seg0, s0[slot_of(s0, k)].1),
        ).insert(key, value),
{
    let m1 = Map::new(|k: Seq<u8>| has_key(s1, k), |k: Seq<u8>| value_at(seg1, s1[slot_of(s1, k)].1));
    let m0 = Map::new(|k: Seq<u8>| has_key(s0, k), |k: Seq<u8>| value_at(seg0, s0[slot_of(s0, k)].1));
    assert forall|k2: Seq<u8>| #[trigger] has_key(s1, k2) == (has_key(s0, k2) || k2 == key) by {
        assert(dir_map(s1).dom() == dir_map(s0).insert(key, e).dom());
        assert(dir_map(s1).contains_key(k2) == dir_map(s0).insert(key, e).contains_key(k2));
    }
    assert forall|k2: Seq<u8>| has_key(s1, k2) implies (#[trigger] m1[k2]) == m0.insert(
        key,
        value,
    )[k2] by {
        let j1 = slot_of(s1, k2);
        assert(0 <= j1 < s1.len() && s1[j1].0@ == k2);
        if k2 == key {
            assert(dir_map(s1)[k2] == e);
            assert(s1[j1].1 == dir_map(s1)[k2]) by {
                let jc = slot_of(s1, k2);
                assert(0 <= jc < s1.len() && s1[jc].0@ == k2);
                assert(jc == j1);
            }
            assert(m1[k2] == value_at(seg1, e));
        } else {
            assert(dir_map(s1)[k2] == dir_map(s0)[k2]);
            assert(s1[j1].1 == dir_map(s1)[k2]);
            assert(has_key(s0, k2));
            let j0 = slot_of(s0, k2);
            assert(0 <= j0 < s0.len() && s0[j0].0@ == k2);
            assert(s0[j0].1 == dir_map(s0)[k2]);
            assert(s1[j1].1 == s0[j0].1) by {
                if s1[j1].1 == e {
                    assert(dir_map(s1)[k2] == e);
                } else {
                }
            }
            let e2 = s0[j0].1;
            assert(e2.value_position + e2.value_size <= seg0.len());
            assert(value_at(seg1, e2) =~= value_at(seg0, e2)) by {
                assert forall|x: int|
                    0 <= x < e2.value_size implies #[trigger] seg1[e2.value_position + x]
                    == seg0[e2.value_position + x] by {
                    assert(seg1.subrange(0, seg0.len() as int)[e2.value_position + x] == seg0[e2.value_position
                        + x]);
                }
            }
        }
    }
    assert(m1 =~= m0.insert(key, value));
}

/// The store after a sequence of puts: each pair inserted in order.
pub open spec fn apply_puts(
    m: Map<Seq<u8>, Seq<u8>>,
    ops: Seq<(Seq<u8>, Seq<u8>)>,
) -> Map<Seq<u8>, Seq<u8>>
    decreases ops.len(),
{
    if ops.len() == 0 {
        m
    } else {
        apply_puts(m.insert(ops[0].0, ops[0].1), ops.skip(1))
    }
}

/// Puts that never touch `k` leave `k`'s binding alone.
proof fn lemma_apply_puts_other(m: Map<Seq<u8>, Seq<u8>>, ops: Seq<(Seq<u8>, Seq<u8>)>, k: Seq<u8>)
    requires
        forall|j: int| 0 <= j < ops.len() ==> (#[trigger] ops[j]).0 != k,
    ensures
        apply_puts(m, ops).contains_key(k) == m.contains_key(k),
        m.contains_key(k) ==> apply_puts(m, ops)[k] == m[k],
    decreases ops.len(),
{
    if ops.len() > 0 {
        lemma_apply_puts_other(m.insert(ops[0].0, ops[0].1), ops.skip(1), k);
    }
}

/// Round trip: after a sequence of puts whose keys are pairwise distinct,
/// every key holds exactly the value that was put with it, so a `get` of it
/// succeeds with that value.
pub proof fn lemma_puts_round_trip(m: Map<Seq<u8>, Seq<u8>>, ops: Seq<(Seq<u8>, Seq<u8>)>, i: int)
    requires
        0 <= i < ops.len(),
        forall|a: int, b: int| 0 <= a < b < ops.len() ==> (#[trigger] ops[a]).0 != (
        #[trigger] ops[b]).0,
    ensures
        apply_puts(m, ops).contains_key(ops[i].0),
        apply_puts(m, ops)[ops[i].0] == ops[i].1,
    decreases ops.len(),
{
    let m1 = m.insert(ops[0].0, ops[0].1);
    if i == 0 {
        assert(forall|j: int| 0 <= j < ops.skip(1).len() ==> (#[trigger] ops.skip(1)[j]).0 == ops[
            j + 1].0);
        assert(forall|j: int| 0 <= j < ops.skip(1).len() ==> (#[trigger] ops.skip(1)[j]).0 != ops[
            0].0);
        lemma_apply_puts_other(m1, ops.skip(1), ops[0].0);
    } else {
        assert(forall|a: int, b: int|
            0 <= a < b < ops.skip(1).len() ==> (#[trigger] ops.skip(1)[a]).0 != (#[trigger] ops.skip(
                1,
            )[b]).0) by {
            assert(forall|j: int|
                0 <= j < ops.skip(1).len() ==> (#[trigger] ops.skip(1)[j]).0 == ops[j + 1].0);
        }
        lemma_puts_round_trip(m1, ops.skip(1), i - 1);
        assert(ops.skip(1)[i - 1] == ops[i]);
    }
}

/// Last writer wins: writing a key twice leaves the store as if only the
/// second write had happened; and since the key is already live when the
/// second write lands, the directory gains no second slot for it, so the key
/// is counted once.
pub proof fn lemma_last_writer_wins(m: Map<Seq<u8>, Seq<u8>>, k: Seq<u8>, v1: Seq<u8>, v2: Seq<u8>)
    ensures
        m.insert(k, v1).insert(k, v2) == m.insert(k, v2),
        m.insert(k, v1).contains_key(k),
{
    assert(m.insert(k, v1).insert(k, v2) =~= m.insert(k, v2));
}

/// Delete: after a put of `k` and then a delete of `k`, the key is absent
/// from the store, and a key list whose slot for `k` was removed no longer
/// lists `k`.
pub proof fn lemma_delete_forgets(
    m: Map<Seq<u8>, Seq<u8>>,
    k: Seq<u8>,
    v: Seq<u8>,
    keys: Seq<Seq<u8>>,
    i: int,
)
    requires
        0 <= i < keys.len(),
        keys[i] == k,
        forall|a: int, b: int| 0 <= a < b < keys.len() ==> keys[a] != keys[b],
    ensures
        !m.insert(k, v).remove(k).contains_key(k),
        !keys.remove(i).contains(k),
{
    assert forall|j: int| 0 <= j < keys.remove(i).len() implies #[trigger] keys.remove(i)[j]
        != k by {
        if j < i {
            assert(keys.remove(i)[j] == keys[j]);
        } else {
            assert(keys.remove(i)[j] == keys[j + 1]);
        }
    }
    if keys.remove(i).contains(k) {
        let j = choose|j: int| 0 <= j < keys.remove(i).len() && keys.remove(i)[j] == k;
        assert(false);
    }
}

/// Durability across reopen: a store rebuilt by replaying the segment of an
/// in-sync store — what `open` does — has the same directory and the same
/// abstract contents, keys and values alike.
pub proof fn lemma_reopen_recovers(c: BitCask, r: BitCask)
    requires
        c.wf(),
        c.in_sync(),
        r.wf(),
        r.segment_bytes() == c.segment_bytes(),
        r.dir() == spec_replay(c.segment_bytes()),
    ensures
        r.dir() == c.dir(),
        r@ == c@,
{
    assert(r@ =~= c@) by {
        assert forall|k: Seq<u8>| #[trigger]
            has_key(r.key_dir@, k) == has_key(c.key_dir@, k) by {
            assert(dir_map(r.key_dir@).contains_key(k) == dir_map(c.key_dir@).contains_key(k));
        }
        assert forall|k: Seq<u8>| has_key(c.key_dir@, k) implies (#[trigger] r@[k]) == c@[k] by {
            let jr = slot_of(r.key_dir@, k);
            let jc = slot_of(c.key_dir@, k);
            assert(has_key(r.key_dir@, k));
            assert(0 <= jr < r.key_dir@.len() && r.key_dir@[jr].0@ == k);
            assert(0 <= jc < c.key_dir@.len() && c.key_dir@[jc].0@ == k);
            assert(r.key_dir@[jr].1 == dir_map(r.key_dir@)[k]);
            assert(c.key_dir@[jc].1 == dir_map(c.key_dir@)[k]);
        }
    }
}

/// The bytes that a sequence of puts appends: one record per put, in order.
pub open spec fn puts_bytes(ops: Seq<(i64, Seq<u8>, Seq<u8>)>) -> Seq<u8>
    decreases ops.len(),
{
    if ops.len() == 0 {
        Seq::empty()
    } else {
        spec_record(ops[0].0, ops[0].1, ops[0].2) + puts_bytes(ops.skip(1))
    }
}

/// The directory that a sequence of puts leaves behind, when the segment
/// held `base_len` bytes before the first of them.
pub open spec fn puts_dir(
    m: Map<Seq<u8>, Key>,
    base_len: int,
    ops: Seq<(i64, Seq<u8>, Seq<u8>)>,
) -> Map<Seq<u8>, Key>
    decreases ops.len(),
{
    if ops.len() == 0 {
        m
    } else {
        let e = Key {
            file_id: 0,
            value_size: ops[0].2.len() as u32,
            value_position: (base_len + 16 + ops[0].1.len()) as u64,
            timestamp: ops[0].0,
        };
        puts_dir(
            m.insert(ops[0].1, e),
            base_len + 16 + ops[0].1.len() + ops[0].2.len(),
            ops.skip(1),
        )
    }
}

/// Replay equivalence: replaying the segment that a sequence of puts wrote
/// on top of a fully replayed prefix rebuilds exactly the directory those
/// puts left in memory, and consumes every byte.
pub proof fn lemma_replay_equivalence(s: Seq<u8>, ops: Seq<(i64, Seq<u8>, Seq<u8>)>)
    requires
        spec_replay_end(s, 0) == s.len(),
        forall|j: int|
            0 <= j < ops.len() ==> (#[trigger] ops[j]).1.len() <= u32::MAX && ops[j].2.len()
                <= u32::MAX,
    ensures
        spec_replay(s + puts_bytes(ops)) == puts_dir(spec_replay(s), s.len() as int, ops),
        spec_replay_end(s + puts_bytes(ops), 0) == s.len() + puts_bytes(ops).len(),
    decreases ops.len(),
{
    if ops.len() == 0 {
        assert(s + puts_bytes(ops) =~= s);
    } else {
        let ts = ops[0].0;
        let key = ops[0].1;
        let value = ops[0].2;
        let rec = spec_record(ts, key, value);
        let s1 = s + rec;
        lemma_replay_append(s, rec, ts, key, value, 0, Map::empty());
        assert(forall|j: int|
            0 <= j < ops.skip(1).len() ==> #[trigger] ops.skip(1)[j] == ops[j + 1]);
        lemma_replay_equivalence(s1, ops.skip(1));
        assert(s + puts_bytes(ops) =~= s1 + puts_bytes(ops.skip(1)));
        assert(rec.len() == 16 + key.len() + value.len());
        assert(puts_bytes(ops).len() == rec.len() + puts_bytes(ops.skip(1)).len());
        let e0 = Key {
            file_id: 0,
            value_size: value.len() as u32,
            value_position: (s.len() + 16 + key.len()) as u64,
            timestamp: ts,
        };
        assert(spec_replay(s1) == spec_replay(s).insert(key, e0));
        assert(puts_dir(spec_replay(s), s.len() as int, ops) == puts_dir(
            spec_replay(s).insert(key, e0),
            s.len() + rec.len() as int,
            ops.skip(1),
        ));
    }
}

/// Appending one complete record to a segment whose replay consumes every
/// byte extends the replayed directory by exactly that record's entry.
proof fn lemma_replay_append(
    s: Seq<u8>,
    rec: Seq<u8>,
    ts: i64,
    key: Seq<u8>,
    value: Seq<u8>,
    off: int,
    acc: Map<Seq<u8>, Key>,
)
    requires
        0 <= off <= s.len(),
        spec_replay_end(s, off) == s.len(),
        rec == spec_record(ts, key, value),
        key.len() <= u32::MAX,
        value.len() <= u32::MAX,
    ensures
        spec_replay_from(s + rec, off, acc) == spec_replay_from(s, off, acc).insert(
            key,
            Key {
                file_id: 0,
                value_size: value.len() as u32,
                value_position: (s.len() + 16 + key.len()) as u64,
                timestamp: ts,
            },
        ),
        spec_replay_end(s + rec, off) == s.len() + rec.len() as int,
    decreases s.len() - off,
{
    let t = s + rec;
    assert(rec.len() == 16 + key.len() + value.len());
    if off + 16 > s.len() {
        assert(spec_replay_end(s, off) == off);
        assert(off == s.len());
        assert(t.subrange(off, off + 8) =~= crate::bytes::spec_i64_be(ts));
        assert(t.subrange(off + 8, off + 12) =~= crate::bytes::spec_u32_be(key.len() as u32));
        assert(t.subrange(off + 12, off + 16) =~= crate::bytes::spec_u32_be(value.len() as u32));
        crate::bytes::lemma_i64_be_round_trip(ts);
        crate::bytes::lemma_u32_be_round_trip(key.len() as u32);
        crate::bytes::lemma_u32_be_round_trip(value.len() as u32);
        let ks = spec_be_u32(t.subrange(off + 8, off + 12)) as int;
        let vs = spec_be_u32(t.subrange(off + 12, off + 16)) as int;
        assert(ks == key.len());
        assert(vs == value.len());
        assert(off + 16 + ks + vs == t.len());
        assert(t.subrange(off + 16, off + 16 + ks) =~= key);
        let e = Key {
            file_id: 0,
            value_size: value.len() as u32,
            value_position: (s.len() + 16 + key.len()) as u64,
            timestamp: ts,
        };
        assert(spec_replay_from(t, off, acc) == spec_replay_from(t, t.len() as int, acc.insert(key, e)));
        assert(spec_replay_from(t, t.len() as int, acc.insert(key, e)) == acc.insert(key, e));
        assert(spec_replay_from(s, off, acc) == acc);
        assert(spec_replay_end(t, off) == spec_replay_end(t, t.len() as int));
        assert(spec_replay_end(t, t.len() as int) == t.len());
    } else {
        let ks = spec_be_u32(s.subrange(off + 8, off + 12)) as int;
        let vs = spec_be_u32(s.subrange(off + 12, off + 16)) as int;
        assert(ks >= 0 && vs >= 0);
        if off + 16 + ks + vs > s.len() {
            assert(spec_replay_end(s, off) == off);
            assert(false);
        }
        assert(t.subrange(off, off + 8) =~= s.subrange(off, off + 8));
        assert(t.subrange(off + 8, off + 12) =~= s.subrange(off + 8, off + 12));
        assert(t.subrange(off + 12, off + 16) =~= s.subrange(off + 12, off + 16));
        assert(t.subrange(off + 16, off + 16 + ks) =~= s.subrange(off + 16, off + 16 + ks));
        let key0 = s.subrange(off + 16, off + 16 + ks);
        let ts0 = spec_be_i64(s.subrange(off, off + 8));
        let e0 = Key {
            file_id: 0,
            value_size: vs as u32,
            value_position: (off + 16 + ks) as u64,
            timestamp: ts0,
        };
        assert(spec_replay_end(s, off) == spec_replay_end(s, off + 16 + ks + vs));
        lemma_replay_append(s, rec, ts, key, value, off + 16 + ks + vs, acc.insert(key0, e0));
        assert(spec_replay_from(t, off, acc) == spec_replay_from(
            t,
            off + 16 + ks + vs,
            acc.insert(key0, e0),
        ));
        assert(spec_replay_from(s, off, acc) == spec_replay_from(
            s,
            off + 16 + ks + vs,
            acc.insert(key0, e0),
        ));
        assert(spec_replay_end(t, off) == spec_replay_end(t, off + 16 + ks + vs));
    }
}

} // verus!
