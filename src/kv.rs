//! The log-based storage engine.

pub mod codec;
pub mod command;
pub mod config;
pub mod storage;
pub mod index;

use vstd::prelude::*;
use crate::kv::codec::{encode_op, parse_records};
use crate::kv::index::{lemma_replay_points_at_sets, replay, Index};
use crate::kv::storage::{
    entries_view, increasing, total_len, models_len, lemma_total_len_models, lemma_same_segments, lemma_seg_map, log_entries, seg_entries,
    seg_map_of, serial_of, all_serials, distinct_serials, file_map, files_len, load_ok, log_of, lemma_log_of, apply_actions, lemma_apply_extend, records_len, FileAction, LogPointer, LogStorage, Segment,
};
use crate::KvsEngine;

verus! {

/// What can go wrong in the store. The text names the operation that failed.
#[derive(Debug, PartialEq, Eq)]
pub enum KVError {
    IOError(&'static str),
    ConfigError(&'static str),
    ReadError(&'static str),
    WriteError(&'static str),
    KeyNotFound(&'static str),
    ParseError(&'static str),
    /// The log or the index contradicts itself; nothing should go on from it.
    Corruption(&'static str),
}

pub type Result<T> = core::result::Result<T, KVError>;

/// What a record says, over plain sequences of characters.
pub enum OpModel {
    Get(Seq<char>),
    Remove(Seq<char>),
    /// A `Set` record: key and value.
    Put(Seq<char>, Seq<char>),
}

/// A persisted record. `Get` only travels as a request and never belongs on disk.
pub enum Operation {
    Get(String),
    Remove(String),
    /// A `Set` record: key and value; it is written with the tag `Set`.
    Put(String, String),
}

impl View for Operation {
    type V = OpModel;

    open spec fn view(&self) -> OpModel {
        match self {
            Operation::Get(k) => OpModel::Get(k@),
            Operation::Remove(k) => OpModel::Remove(k@),
            Operation::Put(k, v) => OpModel::Put(k@, v@),
        }
    }
}

/// The value a `Set` record carries.
pub open spec fn value_of(op: Option<OpModel>) -> Seq<char> {
    match op {
        Some(OpModel::Put(_, v)) => v,
        _ => Seq::empty(),
    }
}

/// What `get` answers for `k` over the contents `m`.
pub open spec fn lookup(m: Map<Seq<char>, Seq<char>>, k: Seq<char>) -> Option<Seq<char>> {
    if m.contains_key(k) {
        Some(m[k])
    } else {
        None
    }
}

/// The characters of an optional string.
pub open spec fn opt_view(o: Option<String>) -> Option<Seq<char>> {
    match o {
        Some(s) => Some(s@),
        None => None,
    }
}

/// Size of the log, in bytes, above which a write compacts it.
pub const MERGE_THRESHOLD: usize = 10 * 1000;

/// Size, in bytes, beyond which a segment takes no more records.
pub const FILE_SIZE_LIMIT: usize = 4 * 1000;

/// The log-based engine: a segment log and the index over it.
pub struct KvStore {
    storage: LogStorage,
    index: Index,
    merge_threshold: usize,
    /// What the segment files on disk hold, before the pending actions.
    disk: Ghost<Map<usize, Seq<u8>>>,
}

impl KvStore {
    /// The live keys and their values.
    pub closed spec fn contents(&self) -> Map<Seq<char>, Seq<char>> {
        Map::new(
            |k: Seq<char>| self.index.map().contains_key(k),
            |k: Seq<char>| value_of(self.storage.record_at(self.index.map()[k])),
        )
    }

    pub closed spec fn wf(&self) -> bool {
        &&& self.storage.wf()
        &&& self.index.wf()
        &&& self.merge_threshold > 0
        &&& apply_actions(self.disk@, self.storage.pending()) == self.storage.files()
        &&& log_entries(self.storage.segs()) matches Some(es) && replay(
            Some(Map::empty()),
            es,
        ) == Some(self.index.map())
        &&& forall|k: Seq<char>| #[trigger]
            self.index.map().contains_key(k) ==> (self.storage.record_at(self.index.map()[k]) matches Some(OpModel::Put(k2, _)) && k2 == k)
    }

    /// The bytes of each segment of the log, by serial.
    pub closed spec fn files(&self) -> Map<usize, Seq<u8>> {
        self.storage.files()
    }

    /// The serial of the segment that takes new records.
    pub closed spec fn write_serial(&self) -> usize {
        self.storage.write_serial()
    }

    /// The total size of the log, in bytes.
    pub closed spec fn log_size(&self) -> nat {
        self.storage.size()
    }

    /// Size of the log, in bytes, above which a write compacts it.
    pub closed spec fn threshold(&self) -> nat {
        self.merge_threshold as nat
    }

    /// What the segment files on disk hold: the files as they were when the
    /// store opened, with every action handed out since carried out.
    pub closed spec fn disk(&self) -> Map<usize, Seq<u8>> {
        self.disk@
    }

    /// The file operations recorded and not yet handed out, oldest first.
    pub closed spec fn pending(&self) -> Seq<FileAction> {
        self.storage.pending()
    }

    /// What `room_for` asks of the counters.
    pub proof fn lemma_room_for(&self, n: nat)
        ensures
            self.room_for(n) <==> self.log_size() + n <= usize::MAX && self.write_serial()
                < usize::MAX,
    {
    }

    /// The total size of the log, in bytes.
    pub fn storage_size(&self) -> (r: usize)
        ensures
            r == self.log_size(),
    {
        self.storage.storage_size()
    }

    /// The serial of the segment that takes new records.
    pub fn current_serial(&self) -> (r: usize)
        requires
            self.wf(),
        ensures
            r == self.write_serial(),
    {
        let serials = self.storage.iter_read_files();
        proof {
            self.storage.lemma_wf();
        }
        serials[serials.len() - 1]
    }

    /// The live records, one `Set` per live key.
    pub closed spec fn live_records(&self) -> Seq<OpModel> {
        self.index.keys().map_values(|k: Seq<char>| OpModel::Put(k, self.contents()[k]))
    }

    /// The number of bytes the live records take when written afresh.
    pub open spec fn live_len(&self) -> nat {
        models_len(self.live_records())
    }

    /// Where the record of a live key sits.
    pub closed spec fn pointer_of(&self, k: Seq<char>) -> LogPointer {
        self.index.map()[k]
    }

    /// Whether the log's counters leave room for a record of `n` bytes.
    pub closed spec fn room_for(&self, n: nat) -> bool {
        self.storage.has_room(n)
    }

    /// Opens the store over the segment files found on disk, given by name
    /// and contents: takes the segments over, starts a fresh write segment
    /// and rebuilds the index by replaying every record in order.
    pub fn open(files: Vec<(String, Vec<u8>)>) -> (r: Result<KvStore>)
        ensures
            r is Ok <==> open_ok(files@),
            !(all_serials(files@) && distinct_serials(files@)) ==> (r matches Err(
                KVError::ParseError(_),
            )),
            (all_serials(files@) && distinct_serials(files@) && !load_ok(files@)) ==> (r matches Err(
                KVError::IOError(_),
            )),
            (load_ok(files@) && log_of(file_map(files@)) is None) ==> (r matches Err(
                KVError::ParseError(_),
            )),
            (load_ok(files@) && log_of(file_map(files@)) is Some && !open_ok(files@)) ==> (r
                matches Err(KVError::Corruption(_))),
            r matches Ok(s) ==> {
                &&& s.wf()
                &&& s.contents() == open_contents(files@)
                &&& s.disk() == file_map(files@)
                &&& s.log_size() == files_len(files@)
                &&& s.files() == file_map(files@).insert(s.write_serial(), Seq::<u8>::empty())
                &&& s.files().contains_key(s.write_serial())
                &&& s.files()[s.write_serial()] == Seq::<u8>::empty()
                &&& forall|m: int|
                    0 <= m < files@.len() ==> (serial_of(#[trigger] files@[m].0@) matches Some(x)
                        && x < s.write_serial() && s.files().contains_key(x) && s.files()[x]
                        == files@[m].1@)
                &&& forall|x: usize| #[trigger]
                    s.files().contains_key(x) ==> x == s.write_serial() || exists|m: int|
                        0 <= m < files@.len() && serial_of(#[trigger] files@[m].0@) == Some(x)
            },
    {
        let ghost fs = files@;
        let storage = LogStorage::load(files, FILE_SIZE_LIMIT)?;
        proof {
            storage.lemma_loaded_log(file_map(fs));
        }
        let entries = storage.iter_entries()?;
        let mut index = Index::new();
        proof {
            assert forall|i: int| 0 <= i < entries_view(entries@).len() implies storage.record_at(
                #[trigger] entries_view(entries@)[i].0,
            ) == Some(entries_view(entries@)[i].1) by {
                assert(storage.record_at(entries@[i].0) == Some(entries@[i].1@));
            }
            lemma_replay_values(storage, entries_view(entries@));
        }
        index.build_index(&entries)?;
        proof {
            lemma_replay_points_at_sets(
                storage,
                Map::<Seq<char>, LogPointer>::empty(),
                entries_view(entries@),
            );
        }
        let s = KvStore { storage, index, merge_threshold: MERGE_THRESHOLD, disk: Ghost(file_map(fs)) };
        proof {
            reveal_with_fuel(apply_actions, 2);
            let c = seq![FileAction::Create(s.storage.write_serial())];
            assert(s.storage.pending() == c);
            assert(c.drop_last() =~= Seq::<FileAction>::empty());
            assert(c.last() == FileAction::Create(s.storage.write_serial()));
            assert(apply_actions(file_map(fs), s.storage.pending()) =~= s.storage.files());
            assert(s.contents() =~= open_contents(fs));
        }
        Ok(s)
    }

    /// The value of `key`, or `None` where it is absent; a miss is no error.
    pub fn get(&self, key: String) -> (r: Result<Option<String>>)
        requires
            self.wf(),
        ensures
            r matches Ok(o) && opt_view(o) == lookup(self.contents(), key@),
    {
        if !self.index.contains(&key) {
            Ok(None)
        } else {
            let v = self.index.get(&key, &self.storage);
            match v {
                Ok(v) => Ok(Some(v)),
                Err(e) => Err(e),
            }
        }
    }

    /// Appends a `Set` record and points the index at it; compacts the log
    /// when it has outgrown the threshold.
    #[verifier::rlimit(40)]
    pub fn set(&mut self, key: String, value: String) -> (r: Result<()>)
        requires
            old(self).wf(),
        ensures
            final(self).wf(),
            r is Ok <==> old(self).room_for(encode_op(OpModel::Put(key@, value@)).len()),
            r is Ok ==> final(self).contents() == old(self).contents().insert(key@, value@),
            r is Ok ==> records_append(
                old(self).pending(),
                final(self).pending(),
                encode_op(OpModel::Put(key@, value@)),
            ),
            r is Err ==> *final(self) == *old(self) && r == Err::<(), KVError>(
                KVError::WriteError("log storage is full"),
            ),
    {
        let ghost k = key@;
        let ghost v = value@;
        let op = Operation::Put(key.clone(), value);
        let p = match self.storage.write(&op) {
            Ok(p) => p,
            Err(e) => return Err(e),
        };
        let ghost old_index = self.index.map();
        self.index.set(key, p);
        proof {
            let es = log_entries(old(self).storage.segs())->Some_0;
            assert(es.push((p, OpModel::Put(k, v))).drop_last() =~= es);
            assert forall|k2: Seq<char>| #[trigger] self.index.map().contains_key(k2) implies (
            self.storage.record_at(self.index.map()[k2]) matches Some(OpModel::Put(k3, _))
                && k3 == k2) by {
                if k2 != k {
                    assert(old_index.contains_key(k2));
                }
            }
            assert(self.contents() =~= old(self).contents().insert(k, v));
            lemma_write_appends(
                old(self).pending(),
                self.pending(),
                p.file_serial,
                self.pending().last()->Append_1,
                encode_op(OpModel::Put(k, v)),
            );
            lemma_mirror_kept(old(self).disk@, old(self).storage.pending(), self.storage.pending(), old(self).storage.files(), self.storage.files());
        }
        let ghost pm = self.pending();
        self.compact_if_large();
        proof {
            lemma_records_append_kept(old(self).pending(), pm, self.pending(), encode_op(OpModel::Put(k, v)));
        }
        Ok(())
    }

    /// Drops `key`, appending a `Remove` record; fails with `KeyNotFound`
    /// where the key is absent.
    #[verifier::rlimit(40)]
    pub fn remove(&mut self, key: String) -> (r: Result<()>)
        requires
            old(self).wf(),
        ensures
            final(self).wf(),
            !old(self).contents().contains_key(key@) ==> r == Err::<(), KVError>(
                KVError::KeyNotFound("KvStore::remove"),
            ) && *final(self) == *old(self),
            old(self).contents().contains_key(key@) ==> (r is Ok <==> old(self).room_for(
                encode_op(OpModel::Remove(key@)).len(),
            )),
            r is Ok ==> final(self).contents() == old(self).contents().remove(key@),
            r is Ok ==> records_append(
                old(self).pending(),
                final(self).pending(),
                encode_op(OpModel::Remove(key@)),
            ),
            old(self).contents().contains_key(key@) && r is Err ==> *final(self) == *old(self) && r
                == Err::<(), KVError>(KVError::WriteError("log storage is full")),
    {
        if !self.index.contains(&key) {
            return Err(KVError::KeyNotFound("KvStore::remove"));
        }
        let ghost k = key@;
        let rm_op = Operation::Remove(key.clone());
        let p = match self.storage.write(&rm_op) {
            Ok(p) => p,
            Err(e) => return Err(e),
        };
        let ghost old_index = self.index.map();
        let removed = self.index.remove(&key);
        proof {
            let es = log_entries(old(self).storage.segs())->Some_0;
            assert(es.push((p, OpModel::Remove(k))).drop_last() =~= es);
            assert forall|k2: Seq<char>| #[trigger] self.index.map().contains_key(k2) implies (
            self.storage.record_at(self.index.map()[k2]) matches Some(OpModel::Put(k3, _))
                && k3 == k2) by {
                assert(old_index.contains_key(k2));
            }
            assert(self.contents() =~= old(self).contents().remove(k));
            lemma_write_appends(
                old(self).pending(),
                self.pending(),
                p.file_serial,
                self.pending().last()->Append_1,
                encode_op(OpModel::Remove(k)),
            );
            lemma_mirror_kept(old(self).disk@, old(self).storage.pending(), self.storage.pending(), old(self).storage.files(), self.storage.files());
        }
        let ghost pm = self.pending();
        self.compact_if_large();
        proof {
            lemma_records_append_kept(old(self).pending(), pm, self.pending(), encode_op(OpModel::Remove(k)));
        }
        removed
    }

    /// Compacts the log where it has outgrown the threshold; the contents and
    /// the actions already recorded stay.
    fn compact_if_large(&mut self)
        requires
            old(self).wf(),
        ensures
            final(self).wf(),
            final(self).contents() == old(self).contents(),
            final(self).pending().len() >= old(self).pending().len(),
            final(self).pending().subrange(0, old(self).pending().len() as int) == old(self).pending(),
    {
        if self.storage.storage_size() > self.merge_threshold {
            let _ = self.merge();
        }
        proof {
            assert(self.pending().subrange(0, self.pending().len() as int) =~= self.pending());
        }
    }


    /// Compacts the log: writes every live record afresh into new segments,
    /// drops all the old ones and repoints the index. A compaction that
    /// would not shrink the log, or for which the counters leave no room, is
    /// not made. The contents stay as they were either way.
    #[verifier::rlimit(80)]
    pub fn merge(&mut self) -> (r: Result<()>)
        requires
            old(self).wf(),
        ensures
            final(self).wf(),
            final(self).contents() == old(self).contents(),
            final(self).threshold() == old(self).threshold(),
            r is Ok <==> old(self).live_len() <= old(self).log_size() && old(self).log_size()
                + old(self).live_len() <= usize::MAX && old(self).write_serial() + old(
                self,
            ).contents().dom().len() + 2 <= usize::MAX,
            r is Err ==> *final(self) == *old(self),
            final(self).pending().len() >= old(self).pending().len(),
            final(self).pending().subrange(0, old(self).pending().len() as int) == old(self).pending(),
            r is Ok ==> {
                &&& final(self).log_size() == old(self).live_len()
                &&& final(self).log_size() <= old(self).log_size()
                &&& forall|x: usize| #[trigger]
                    old(self).files().contains_key(x) ==> !final(self).files().contains_key(x)
                &&& forall|k: Seq<char>| #[trigger]
                    old(self).contents().contains_key(k) ==> final(self).pointer_of(k).file_serial
                        > old(self).write_serial()
            },
    {
        let serials = self.storage.iter_read_files();
        proof {
            self.index.lemma_keys();
            assert forall|i: int| 0 <= i < self.index.ptrs().len() implies #[trigger] self.storage.record_at(self.index.ptrs()[i]) is Some by {
                assert(self.index.map().contains_key(self.index.keys()[i]));
            }
        }
        let ops = match self.index.iter(&self.storage) {
            Ok(v) => v,
            Err(e) => return Err(e),
        };
        let ghost keys = self.index.keys();
        let ghost old_map = self.index.map();
        let ghost old_storage = self.storage;
        proof {
            assert forall|i: int| 0 <= i < ops@.len() implies #[trigger] ops@[i]@ is Put && ops@[i]@->Put_0 == keys[i] by {
                assert(old_map.contains_key(keys[i]));
                assert(old_map[keys[i]] == self.index.ptrs()[i]);
            }
            assert forall|i: int, j: int| 0 <= i < j < ops@.len() implies ops@[i]@->Put_0 != ops@[j]@->Put_0 by {
                assert(ops@[i]@->Put_0 == keys[i]);
                assert(ops@[j]@->Put_0 == keys[j]);
            }
        }
        proof {
            lemma_total_len_models(ops@);
            assert forall|i: int| 0 <= i < ops@.len() implies (#[trigger] ops@[i])@ == old(self).live_records()[i] by {
                assert(ops@[i]@->Put_0 == keys[i]);
                assert(old_map.contains_key(keys[i]));
                assert(old_map[keys[i]] == old(self).index.ptrs()[i]);
            }
            assert(ops@.map_values(|o: Operation| o@) =~= old(self).live_records());
            assert(ops@.len() == old(self).contents().dom().len()) by {
                assert(old(self).contents().dom() =~= old_map.dom());
            }
        }
        let total = match records_len(&ops) {
            Some(t) => t,
            None => return Err(KVError::WriteError("compaction would not shrink the log")),
        };
        if total > self.storage.storage_size() {
            return Err(KVError::WriteError("compaction would not shrink the log"));
        }
        let ptrs = match self.storage.merge(&serials, &ops) {
            Ok(p) => p,
            Err(e) => return Err(e),
        };
        self.index = Index::from_records(&ops, &ptrs);
        proof {
            lemma_mirror_kept(old(self).disk@, old(self).storage.pending(), self.storage.pending(), old(self).storage.files(), self.storage.files());
            self.index.lemma_keys();
            let es = Seq::new(ptrs@.len(), |i: int| (ptrs@[i], ops@[i]@));
            assert forall|i: int| 0 <= i < es.len() implies (#[trigger] es[i]).0 == self.index.ptrs()[i]
                && es[i].1 is Put && es[i].1->Put_0 == self.index.keys()[i] by {
                assert(ops@[i]@->Put_0 == keys[i]);
            }
            self.index.lemma_replay_puts(es);
            let m = self.index.map();
            assert forall|k: Seq<char>| #[trigger] m.contains_key(k) <==> old_map.contains_key(k) by {
                if m.contains_key(k) {
                    let i = choose|i: int| 0 <= i < self.index.keys().len() && self.index.keys()[i] == k;
                    assert(ops@[i]@->Put_0 == keys[i]);
                }
                if old_map.contains_key(k) {
                    let i = choose|i: int| 0 <= i < keys.len() && keys[i] == k;
                    assert(self.index.keys()[i] == ops@[i]@->Put_0);
                    assert(ops@[i]@->Put_0 == keys[i]);
                }
            }
            assert forall|k: Seq<char>| #[trigger] m.contains_key(k) implies (self.storage.record_at(m[k]) matches Some(OpModel::Put(k2, _)) && k2 == k) && value_of(self.storage.record_at(m[k])) == value_of(old_storage.record_at(old_map[k])) by {
                let i = choose|i: int| 0 <= i < self.index.keys().len() && self.index.keys()[i] == k;
                assert(ops@[i]@->Put_0 == keys[i]);
                assert(m[k] == ptrs@[i]);
                assert(self.storage.record_at(ptrs@[i]) == Some(ops@[i]@));
                assert(old_map[keys[i]] == old(self).index.ptrs()[i]);
            }
            assert(self.contents() =~= old(self).contents());
            assert forall|i: int| 0 <= i < ops@.len() implies ((#[trigger] ops@[i])@ matches OpModel::Put(k, v)
                && old(self).contents().contains_key(k) && old(self).contents()[k] == v) by {
                assert(ops@[i]@->Put_0 == keys[i]);
                assert(old_map.contains_key(keys[i]));
                assert(old_map[keys[i]] == old(self).index.ptrs()[i]);
            }
            old(self).index.lemma_keys();
            assert(ops@.len() == old(self).contents().dom().len()) by {
                assert(old(self).contents().dom() =~= old_map.dom());
            }
            lemma_total_len_models(ops@);
            assert(ops@.map_values(|o: Operation| o@) =~= old(self).live_records());
            old_storage.lemma_serials_bounded();
            assert forall|x: usize| #[trigger]
                old(self).files().contains_key(x) implies !self.files().contains_key(x) by {
                assert(serials@.contains(x));
            }
            assert forall|k: Seq<char>| #[trigger]
                old(self).contents().contains_key(k) implies self.pointer_of(k).file_serial
                    > old(self).write_serial() by {
                assert(old_map.contains_key(k));
                let i = choose|i: int| 0 <= i < keys.len() && keys[i] == k;
                assert(self.index.keys()[i] == ops@[i]@->Put_0);
                assert(self.index.map()[k] == ptrs@[i]);
                assert(self.storage.record_at(ptrs@[i]) == Some(ops@[i]@));
                let x = ptrs@[i].file_serial;
                if x <= old(self).write_serial() {
                    assert(self.storage.files().contains_key(x));
                }
            }
        }
        Ok(())
    }

    /// The file operations that mirror the log's changes on disk, oldest first.
    pub fn take_actions(&mut self) -> (r: Vec<FileAction>)
        requires
            old(self).wf(),
        ensures
            final(self).wf(),
            final(self).contents() == old(self).contents(),
            r@ == old(self).pending(),
            final(self).pending() == Seq::<FileAction>::empty(),
            apply_actions(old(self).disk(), r@) == old(self).files(),
            final(self).disk() == old(self).files(),
            final(self).files() == old(self).files(),
            final(self).log_size() == old(self).log_size(),
            final(self).write_serial() == old(self).write_serial(),
    {
        let r = self.storage.take_actions();
        self.disk = Ghost(self.storage.files());
        proof {
            assert forall|k2: Seq<char>| #[trigger] self.index.map().contains_key(k2) implies (
            self.storage.record_at(self.index.map()[k2]) matches Some(OpModel::Put(k3, _))
                && k3 == k2) by {
                assert(self.storage.files() == old(self).storage.files());
            }
            assert(self.contents() =~= old(self).contents());
        }
        r
    }
}

/// `later` keeps every action of `earlier` and, after them, records an
/// append of `bytes` to some segment.
pub open spec fn records_append(earlier: Seq<FileAction>, later: Seq<FileAction>, bytes: Seq<u8>) -> bool {
    &&& later.len() >= earlier.len()
    &&& later.subrange(0, earlier.len() as int) == earlier
    &&& exists|j: int|
        earlier.len() <= j < later.len() && (#[trigger] later[j] matches FileAction::Append(_, b)
            && b@ == bytes)
}

/// One write records, after what was there, the append of its bytes.
proof fn lemma_write_appends(
    p0: Seq<FileAction>,
    pm: Seq<FileAction>,
    serial: usize,
    b: Vec<u8>,
    bytes: Seq<u8>,
)
    requires
        pm == p0.push(FileAction::Append(serial, b)) || pm == p0.push(
            FileAction::Create(serial),
        ).push(FileAction::Append(serial, b)),
        b@ == bytes,
    ensures
        records_append(p0, pm, bytes),
{
    assert(pm.subrange(0, p0.len() as int) =~= p0);
    assert(pm[pm.len() - 1] == FileAction::Append(serial, b));
}

/// Keeping a run of actions as a prefix keeps a recorded append.
proof fn lemma_records_append_kept(
    p0: Seq<FileAction>,
    pm: Seq<FileAction>,
    pf: Seq<FileAction>,
    bytes: Seq<u8>,
)
    requires
        records_append(p0, pm, bytes),
        pf.len() >= pm.len(),
        pf.subrange(0, pm.len() as int) == pm,
    ensures
        records_append(p0, pf, bytes),
{
    let j = choose|j: int|
        p0.len() <= j < pm.len() && (#[trigger] pm[j] matches FileAction::Append(_, b) && b@
            == bytes);
    assert(pf.subrange(0, pm.len() as int)[j] == pf[j]);
    assert(pf.subrange(0, p0.len() as int) =~= p0) by {
        assert forall|i: int| 0 <= i < p0.len() implies pf[i] == p0[i] by {
            assert(pf.subrange(0, pm.len() as int)[i] == pf[i]);
            assert(pm.subrange(0, p0.len() as int)[i] == pm[i]);
        }
    }
}

/// Actions recorded after the pending ones, that do to the files what the
/// change did, keep the disk in step.
proof fn lemma_mirror_kept(
    disk: Map<usize, Seq<u8>>,
    pb: Seq<FileAction>,
    pa: Seq<FileAction>,
    fb: Map<usize, Seq<u8>>,
    fa: Map<usize, Seq<u8>>,
)
    requires
        apply_actions(disk, pb) == fb,
        pa.len() >= pb.len(),
        pa.subrange(0, pb.len() as int) == pb,
        fa == apply_actions(fb, pa.subrange(pb.len() as int, pa.len() as int)),
    ensures
        apply_actions(disk, pa) == fa,
{
    assert(pb.subrange(0, pb.len() as int) =~= pb);
    lemma_apply_extend(disk, 0, pb, pa, fb, fa);
    assert(pa.subrange(0, pa.len() as int) =~= pa);
}

/// Replays records over keys and values: a `Set` stores its value, a
/// `Remove` drops a key that must be there, a `Get` on disk fails.
pub open spec fn replay_values(es: Seq<(LogPointer, OpModel)>) -> Option<Map<Seq<char>, Seq<char>>>
    decreases es.len(),
{
    if es.len() == 0 {
        Some(Map::empty())
    } else {
        match replay_values(es.drop_last()) {
            None => None,
            Some(m) => match es.last().1 {
                OpModel::Put(k, v) => Some(m.insert(k, v)),
                OpModel::Remove(k) => if m.contains_key(k) {
                    Some(m.remove(k))
                } else {
                    None
                },
                OpModel::Get(_) => None,
            },
        }
    }
}

/// Whether the store opens over these segment files: the names are
/// distinct serials with room left, every segment decodes, and replaying
/// the records in order is consistent.
pub open spec fn open_ok(fs: Seq<(String, Vec<u8>)>) -> bool {
    &&& load_ok(fs)
    &&& log_of(file_map(fs)) is Some
    &&& replay_values(log_of(file_map(fs))->Some_0) is Some
}

/// The contents of a store opened over these segment files.
pub open spec fn open_contents(fs: Seq<(String, Vec<u8>)>) -> Map<Seq<char>, Seq<char>> {
    replay_values(log_of(file_map(fs))->Some_0)->Some_0
}

/// Replay over pointers and replay over values agree, where every record
/// resolves to what it says.
proof fn lemma_replay_values(st: LogStorage, es: Seq<(LogPointer, OpModel)>)
    requires
        forall|i: int| 0 <= i < es.len() ==> st.record_at(#[trigger] es[i].0) == Some(es[i].1),
    ensures
        replay(Some(Map::empty()), es) is Some <==> replay_values(es) is Some,
        replay(Some(Map::empty()), es) matches Some(m) ==> replay_values(es)->Some_0 == Map::new(
            |k: Seq<char>| m.contains_key(k),
            |k: Seq<char>| value_of(st.record_at(m[k])),
        ),
    decreases es.len(),
{
    if es.len() == 0 {
        let m = Map::<Seq<char>, LogPointer>::empty();
        assert(Map::new(|k: Seq<char>| m.contains_key(k), |k: Seq<char>| value_of(st.record_at(m[k])))
            =~= Map::<Seq<char>, Seq<char>>::empty());
    } else {
        let d = es.drop_last();
        assert forall|i: int| 0 <= i < d.len() implies st.record_at(#[trigger] d[i].0) == Some(d[i].1) by {
            assert(d[i] == es[i]);
        }
        lemma_replay_values(st, d);
        let n = es.len() - 1;
        assert(es.last() == es[n]);
        assert(st.record_at(es[n].0) == Some(es[n].1));
        match replay(Some(Map::empty()), d) {
            Some(m) => {
                let vm = replay_values(d)->Some_0;
                match es.last().1 {
                    OpModel::Put(k, v) => {
                        let m2 = m.insert(k, es.last().0);
                        assert(Map::new(|x: Seq<char>| m2.contains_key(x), |x: Seq<char>| value_of(st.record_at(m2[x])))
                            =~= vm.insert(k, v));
                    },
                    OpModel::Remove(k) => {
                        let m2 = m.remove(k);
                        assert(Map::new(|x: Seq<char>| m2.contains_key(x), |x: Seq<char>| value_of(st.record_at(m2[x])))
                            =~= vm.remove(k));
                    },
                    OpModel::Get(_) => {},
                }
            },
            None => {},
        }
    }
}

/// A store's segment files, read back, always open again, and the store
/// opened over them holds exactly the contents the store had.
pub proof fn law_reopen_succeeds(s: KvStore, fs: Seq<(String, Vec<u8>)>)
    requires
        s.wf(),
        load_ok(fs),
        file_map(fs) == s.files(),
    ensures
        open_ok(fs),
        open_contents(fs) == s.contents(),
{
    s.storage.lemma_wf();
    lemma_log_of(s.storage.segs());
    let segs = s.storage.segs();
    assert(segs.subrange(0, segs.len() as int) =~= segs);
    s.storage.lemma_log_resolves(segs.len() as int);
    let es = log_entries(segs)->Some_0;
    lemma_replay_values(s.storage, es);
    assert(replay_values(es)->Some_0 =~= s.contents());
}

/// With no segment files at all, the store opens, empty.
pub proof fn law_open_empty()
    ensures
        open_ok(Seq::<(String, Vec<u8>)>::empty()),
        open_contents(Seq::<(String, Vec<u8>)>::empty()) == Map::<Seq<char>, Seq<char>>::empty(),
{
    let fs = Seq::<(String, Vec<u8>)>::empty();
    let none = Seq::<Segment>::empty();
    assert(increasing(none));
    lemma_log_of(none);
    assert(seg_map_of(none) == file_map(fs));
    assert(log_entries(none) == Some(Seq::<(LogPointer, OpModel)>::empty()));
    assert(replay_values(Seq::<(LogPointer, OpModel)>::empty()) == Some(Map::<Seq<char>, Seq<char>>::empty()));
}

/// Reading a key back right after setting it gives the value set.
pub proof fn law_set_then_get(m: Map<Seq<char>, Seq<char>>, k: Seq<char>, v: Seq<char>)
    ensures
        lookup(m.insert(k, v), k) == Some(v),
{
}

/// After a key is removed, reading it gives nothing.
pub proof fn law_remove_then_get(m: Map<Seq<char>, Seq<char>>, k: Seq<char>)
    ensures
        lookup(m.remove(k), k) == None::<Seq<char>>,
{
}

/// Of two writes to one key, the later one is what a read returns.
pub proof fn law_last_write_wins(
    m: Map<Seq<char>, Seq<char>>,
    k: Seq<char>,
    v1: Seq<char>,
    v2: Seq<char>,
)
    ensures
        lookup(m.insert(k, v1).insert(k, v2), k) == Some(v2),
{
}

/// Reopening a store over the segments it left on disk, with a fresh empty
/// write segment after them, gives back exactly the contents it had.
pub proof fn law_reopen(before: KvStore, after: KvStore)
    requires
        before.wf(),
        after.wf(),
        forall|x: usize| #[trigger]
            before.files().contains_key(x) ==> after.files().contains_key(x) && after.files()[x]
                == before.files()[x] && x < after.write_serial(),
        forall|x: usize| #[trigger]
            after.files().contains_key(x) ==> x == after.write_serial() || before.files().contains_key(x),
        after.files().contains_key(after.write_serial()),
        after.files()[after.write_serial()] == Seq::<u8>::empty(),
    ensures
        after.contents() == before.contents(),
{
    before.storage.lemma_wf();
    after.storage.lemma_wf();
    before.storage.lemma_serials_bounded();
    after.storage.lemma_serials_bounded();
    let sa = after.storage.segs();
    let sb = before.storage.segs();
    let da = sa.drop_last();
    let ws = after.storage.write_serial();
    assert(increasing(da));
    lemma_seg_map(da);
    assert(!seg_map_of(da).contains_key(ws)) by {
        if seg_map_of(da).contains_key(ws) {
            let a = choose|a: int| 0 <= a < da.len() && da[a].serial == ws;
            assert(sa[a].serial < sa[sa.len() - 1].serial);
        }
    }
    assert(sa.last().serial == ws);
    assert(seg_map_of(sa) == seg_map_of(da).insert(ws, sa.last().data@));
    assert(seg_map_of(da) =~= seg_map_of(sa).remove(ws));
    assert(seg_map_of(sa) == after.files());
    assert(seg_map_of(sb) == before.files());
    assert(seg_map_of(da) =~= seg_map_of(sb));
    lemma_same_segments(da, sb);
    assert(parse_records(Seq::<u8>::empty(), 0) == Some(Seq::<(int, OpModel)>::empty()));
    assert(sa.last().data@ == Seq::<u8>::empty());
    let eb = log_entries(sb)->Some_0;
    assert(seg_entries(ws, Seq::<(int, OpModel)>::empty()) =~= Seq::<(LogPointer, OpModel)>::empty());
    assert(eb + Seq::<(LogPointer, OpModel)>::empty() =~= eb);
    assert(after.index.map() == before.index.map());
    assert forall|k: Seq<char>| #[trigger] before.index.map().contains_key(k) implies after.storage.record_at(
        before.index.map()[k],
    ) == before.storage.record_at(before.index.map()[k]) by {
        let p = before.index.map()[k];
        assert(before.storage.record_at(p) is Some);
    }
    assert(after.contents() =~= before.contents());
}

impl KvsEngine for KvStore {
    open spec fn inv(&self) -> bool {
        self.wf()
    }

    open spec fn models(&self) -> bool {
        true
    }

    open spec fn model(&self) -> Map<Seq<char>, Seq<char>> {
        self.contents()
    }

    fn name(&self) -> (r: String)
        ensures
            r@ == seq!['k', 'v', 's'],
    {
        proof {
            reveal_strlit("kvs");
        }
        "kvs".to_string()
    }

    fn set(&mut self, key: String, value: String) -> (r: Result<()>) {
        KvStore::set(self, key, value)
    }

    fn get(&mut self, key: String) -> (r: Result<Option<String>>) {
        KvStore::get(self, key)
    }

    fn remove(&mut self, key: String) -> (r: Result<()>) {
        KvStore::remove(self, key)
    }
}

} // verus!
