//! The in-memory index: from each live key to the pointer of its latest `Set`.

use vstd::prelude::*;
use crate::kv::storage::{entries_view, LogPointer, LogStorage};
use crate::kv::{KVError, OpModel, Operation, Result};

verus! {

/// The keys and pointers of a list of entries, later entries winning.
pub open spec fn map_of(s: Seq<(String, LogPointer)>) -> Map<Seq<char>, LogPointer>
    decreases s.len(),
{
    if s.len() == 0 {
        Map::empty()
    } else {
        map_of(s.drop_last()).insert(s.last().0@, s.last().1)
    }
}

pub open spec fn unique_keys(s: Seq<(String, LogPointer)>) -> bool {
    forall|i: int, j: int| 0 <= i < j < s.len() ==> s[i].0@ != s[j].0@
}

/// With distinct keys, each entry stands in the map and the map holds no other key.
pub proof fn lemma_map_of(s: Seq<(String, LogPointer)>)
    requires
        unique_keys(s),
    ensures
        forall|k: Seq<char>| #[trigger]
            map_of(s).contains_key(k) ==> exists|i: int| 0 <= i < s.len() && s[i].0@ == k,
        forall|i: int|
            0 <= i < s.len() ==> #[trigger] map_of(s).contains_key(s[i].0@) && map_of(s)[s[i].0@]
                == s[i].1,
        map_of(s).dom().finite(),
        map_of(s).dom().len() == s.len(),
    decreases s.len(),
{
    if s.len() == 0 {
        assert(map_of(s).dom() =~= Set::<Seq<char>>::empty());
    } else {
        let d = s.drop_last();
        assert(unique_keys(d));
        lemma_map_of(d);
        let n = s.len() - 1;
        assert(s[n] == s.last());
        assert forall|k: Seq<char>| #[trigger]
            map_of(s).contains_key(k) implies exists|i: int| 0 <= i < s.len() && s[i].0@ == k by {
            if k != s.last().0@ {
                let i = choose|i: int| 0 <= i < d.len() && d[i].0@ == k;
                assert(s[i].0@ == k);
            } else {
                assert(s[n].0@ == k);
            }
        }
        assert forall|i: int| 0 <= i < s.len() implies #[trigger] map_of(s).contains_key(s[i].0@)
            && map_of(s)[s[i].0@] == s[i].1 by {
            if i < n {
                assert(d[i] == s[i]);
            }
        }
        assert(!map_of(d).contains_key(s.last().0@)) by {
            if map_of(d).contains_key(s.last().0@) {
                let i = choose|i: int| 0 <= i < d.len() && d[i].0@ == s.last().0@;
                assert(s[i].0@ != s[n].0@);
            }
        }
        assert(map_of(s).dom() =~= map_of(d).dom().insert(s.last().0@));
    }
}

/// One step of replay: a `Set` points its key at the record, a `Remove`
/// drops a key that must be there, and a `Get` on disk is corruption.
pub open spec fn replay_step(
    m: Option<Map<Seq<char>, LogPointer>>,
    e: (LogPointer, OpModel),
) -> Option<Map<Seq<char>, LogPointer>> {
    match m {
        None => None,
        Some(m) => match e.1 {
            OpModel::Put(k, _) => Some(m.insert(k, e.0)),
            OpModel::Remove(k) => if m.contains_key(k) {
                Some(m.remove(k))
            } else {
                None
            },
            OpModel::Get(_) => None,
        },
    }
}

/// Replays a run of records, in order, over a starting map.
pub open spec fn replay(
    m: Option<Map<Seq<char>, LogPointer>>,
    es: Seq<(LogPointer, OpModel)>,
) -> Option<Map<Seq<char>, LogPointer>>
    decreases es.len(),
{
    if es.len() == 0 {
        m
    } else {
        replay_step(replay(m, es.drop_last()), es.last())
    }
}


/// Once replay fails, it stays failed.
pub proof fn lemma_replay_none(m: Map<Seq<char>, LogPointer>, es: Seq<(LogPointer, OpModel)>, i: int)
    requires
        0 <= i <= es.len(),
        replay(Some(m), es.subrange(0, i)) is None,
    ensures
        replay(Some(m), es) is None,
    decreases es.len() - i,
{
    if i == es.len() {
        assert(es.subrange(0, i) =~= es);
    } else {
        assert(es.subrange(0, i + 1).drop_last() =~= es.subrange(0, i));
        lemma_replay_none(m, es, i + 1);
    }
}

/// Replay from records that all resolve to what they say keeps every key
/// pointing at a `Set` of that key.
pub proof fn lemma_replay_points_at_sets(
    st: LogStorage,
    m: Map<Seq<char>, LogPointer>,
    es: Seq<(LogPointer, OpModel)>,
)
    requires
        forall|i: int| 0 <= i < es.len() ==> st.record_at(#[trigger] es[i].0) == Some(es[i].1),
        forall|k: Seq<char>| #[trigger] m.contains_key(k) ==> (st.record_at(m[k]) matches Some(
            OpModel::Put(k2, _),
        ) && k2 == k),
        replay(Some(m), es) is Some,
    ensures
        forall|k: Seq<char>| #[trigger] replay(Some(m), es)->Some_0.contains_key(k) ==> (
        st.record_at(replay(Some(m), es)->Some_0[k]) matches Some(OpModel::Put(k2, _)) && k2 == k),
    decreases es.len(),
{
    if es.len() > 0 {
        let d = es.drop_last();
        assert forall|i: int| 0 <= i < d.len() implies st.record_at(#[trigger] d[i].0) == Some(d[i].1) by {
            assert(d[i] == es[i]);
        }
        assert(replay(Some(m), d) is Some);
        lemma_replay_points_at_sets(st, m, d);
        assert(st.record_at(es[es.len() - 1].0) == Some(es[es.len() - 1].1));
        assert(es.last() == es[es.len() - 1]);
    }
}


proof fn lemma_replay_prefix(
    e: Seq<(String, LogPointer)>,
    es: Seq<(LogPointer, OpModel)>,
    i: int,
)
    requires
        es.len() == e.len(),
        0 <= i <= es.len(),
        forall|j: int| 0 <= j < es.len() ==> (#[trigger] es[j]).0 == e[j].1 && es[j].1 is Put
            && es[j].1->Put_0 == e[j].0@,
    ensures
        replay(Some(Map::empty()), es.subrange(0, i)) == Some(map_of(e.subrange(0, i))),
    decreases i,
{
    if i > 0 {
        lemma_replay_prefix(e, es, i - 1);
        assert(es.subrange(0, i).drop_last() =~= es.subrange(0, i - 1));
        assert(e.subrange(0, i).drop_last() =~= e.subrange(0, i - 1));
        assert(es.subrange(0, i).last() == es[i - 1]);
        assert(e.subrange(0, i).last() == e[i - 1]);
    } else {
        assert(es.subrange(0, 0) =~= Seq::<(LogPointer, OpModel)>::empty());
        assert(e.subrange(0, 0) =~= Seq::<(String, LogPointer)>::empty());
    }
}

/// The index.
pub struct Index {
    entries: Vec<(String, LogPointer)>,
}

impl Index {
    /// Each live key and the pointer of its latest `Set`.
    pub closed spec fn map(&self) -> Map<Seq<char>, LogPointer> {
        map_of(self.entries@)
    }

    pub closed spec fn wf(&self) -> bool {
        unique_keys(self.entries@)
    }

    /// The keys in the order the index holds them.
    pub closed spec fn keys(&self) -> Seq<Seq<char>> {
        self.entries@.map_values(|e: (String, LogPointer)| e.0@)
    }

    /// The pointers in the order the index holds them.
    pub closed spec fn ptrs(&self) -> Seq<LogPointer> {
        self.entries@.map_values(|e: (String, LogPointer)| e.1)
    }

    pub proof fn lemma_keys(&self)
        requires
            self.wf(),
        ensures
            self.keys().len() == self.map().dom().len(),
            self.ptrs().len() == self.keys().len(),
            forall|i: int| 0 <= i < self.keys().len() ==> self.map()[#[trigger] self.keys()[i]] == self.ptrs()[i],
            forall|i: int| 0 <= i < self.keys().len() ==> #[trigger] self.map().contains_key(self.keys()[i]),
            forall|k: Seq<char>| #[trigger] self.map().contains_key(k) ==> self.keys().contains(k),
            forall|i: int, j: int| 0 <= i < j < self.keys().len() ==> self.keys()[i] != self.keys()[j],
    {
        lemma_map_of(self.entries@);
        assert forall|i: int| 0 <= i < self.keys().len() implies #[trigger] self.map().contains_key(self.keys()[i]) by {
            assert(self.keys()[i] == self.entries@[i].0@);
        }
        assert forall|i: int| 0 <= i < self.keys().len() implies self.map()[#[trigger] self.keys()[i]] == self.ptrs()[i] by {
            assert(self.keys()[i] == self.entries@[i].0@);
            assert(self.ptrs()[i] == self.entries@[i].1);
            assert(self.map().contains_key(self.entries@[i].0@));
        }
        assert forall|k: Seq<char>| #[trigger] self.map().contains_key(k) implies self.keys().contains(k) by {
            let i = choose|i: int| 0 <= i < self.entries@.len() && self.entries@[i].0@ == k;
            assert(self.keys()[i] == k);
        }
    }


    /// Replaying `Set` records of the index's keys, in its order, to its
    /// pointers rebuilds exactly its map.
    pub proof fn lemma_replay_puts(&self, es: Seq<(LogPointer, OpModel)>)
        requires
            es.len() == self.keys().len(),
            forall|i: int| 0 <= i < es.len() ==> (#[trigger] es[i]).0 == self.ptrs()[i]
                && es[i].1 is Put && es[i].1->Put_0 == self.keys()[i],
        ensures
            replay(Some(Map::empty()), es) == Some(self.map()),
    {
        let e = self.entries@;
        assert forall|i: int| 0 <= i <= es.len() implies replay(Some(Map::empty()), es.subrange(0, i))
            == Some(map_of(#[trigger] e.subrange(0, i))) by {
            lemma_replay_prefix(e, es, i);
        }
        assert(es.subrange(0, es.len() as int) =~= es);
        assert(e.subrange(0, e.len() as int) =~= e);
    }

    pub fn new() -> (r: Index)
        ensures
            r.wf(),
            r.map() == Map::<Seq<char>, LogPointer>::empty(),
    {
        Index { entries: Vec::new() }
    }

    fn find(&self, key: &String) -> (r: Option<usize>)
        requires
            self.wf(),
        ensures
            match r {
                Some(i) => i < self.entries@.len() && self.entries@[i as int].0@ == key@,
                None => !self.map().contains_key(key@),
            },
    {
        let mut i: usize = 0;
        while i < self.entries.len()
            invariant
                i <= self.entries@.len(),
                forall|j: int| 0 <= j < i ==> self.entries@[j].0@ != key@,
            decreases self.entries@.len() - i,
        {
            if self.entries[i].0 == *key {
                return Some(i);
            }
            i = i + 1;
        }
        proof {
            lemma_map_of(self.entries@);
        }
        None
    }

    pub fn contains(&self, key: &String) -> (r: bool)
        requires
            self.wf(),
        ensures
            r == self.map().contains_key(key@),
    {
        proof {
            lemma_map_of(self.entries@);
        }
        match self.find(key) {
            Some(i) => {
                assert(self.map().contains_key(self.entries@[i as int].0@));
                true
            },
            None => false,
        }
    }

    /// The pointer stored for `key`.
    pub fn pointer(&self, key: &String) -> (r: Option<LogPointer>)
        requires
            self.wf(),
        ensures
            r == (if self.map().contains_key(key@) {
                Some(self.map()[key@])
            } else {
                None
            }),
    {
        proof {
            lemma_map_of(self.entries@);
        }
        match self.find(key) {
            Some(i) => {
                assert(self.map().contains_key(self.entries@[i as int].0@));
                Some(self.entries[i].1)
            },
            None => None,
        }
    }

    /// The value of the `Set` record stored for `key`.
    pub fn get(&self, key: &String, storage: &LogStorage) -> (r: Result<String>)
        requires
            self.wf(),
            storage.wf(),
        ensures
            !self.map().contains_key(key@) ==> r == Err::<String, KVError>(
                KVError::KeyNotFound("index::get"),
            ),
            self.map().contains_key(key@) ==> match storage.record_at(self.map()[key@]) {
                Some(OpModel::Put(_, v)) => r matches Ok(s) && s@ == v,
                Some(_) => r matches Err(KVError::Corruption(_)),
                None => if storage.has_bytes_at(self.map()[key@]) {
                    r matches Err(KVError::ParseError(_))
                } else {
                    r matches Err(KVError::ReadError(_))
                },
            },
    {
        let p = match self.pointer(key) {
            Some(p) => p,
            None => return Err(KVError::KeyNotFound("index::get")),
        };
        match p.read(storage)? {
            Operation::Put(_, v) => Ok(v),
            _ => Err(KVError::Corruption("index points at a record that is not a Set")),
        }
    }

    /// Points `key` at `log_ptr`, whether or not it was there.
    pub fn set(&mut self, key: String, log_ptr: LogPointer)
        requires
            old(self).wf(),
        ensures
            final(self).wf(),
            final(self).map() == old(self).map().insert(key@, log_ptr),
    {
        proof {
            lemma_map_of(self.entries@);
        }
        match self.find(&key) {
            Some(i) => {
                let ghost before = self.entries@;
                let ghost k = key@;
                self.entries.set(i, (key, log_ptr));
                proof {
                    let s = self.entries@;
                    assert(unique_keys(s)) by {
                        assert forall|a: int, b: int| 0 <= a < b < s.len() implies s[a].0@ != s[b].0@ by {
                            assert(before[a].0@ != before[b].0@);
                        }
                    }
                    lemma_map_of(s);
                    assert(self.map() =~= map_of(before).insert(k, log_ptr)) by {
                        assert forall|x: Seq<char>| #[trigger] self.map().contains_key(x) <==> map_of(before).insert(k, log_ptr).contains_key(x) by {
                            if self.map().contains_key(x) {
                                let j = choose|j: int| 0 <= j < s.len() && s[j].0@ == x;
                                if j != i {
                                    assert(before[j] == s[j]);
                                }
                            }
                            if map_of(before).contains_key(x) {
                                let j = choose|j: int| 0 <= j < before.len() && before[j].0@ == x;
                                if j != i {
                                    assert(before[j] == s[j]);
                                } else {
                                    assert(s[j].0@ == x);
                                }
                            }
                        }
                        assert forall|x: Seq<char>| #[trigger] self.map().contains_key(x) implies self.map()[x] == map_of(before).insert(k, log_ptr)[x] by {
                            let j = choose|j: int| 0 <= j < s.len() && s[j].0@ == x;
                            if j != i {
                                assert(before[j] == s[j]);
                            }
                        }
                    }
                }
            },
            None => {
                let ghost before = self.entries@;
                self.entries.push((key, log_ptr));
                proof {
                    let s = self.entries@;
                    assert(s.drop_last() =~= before);
                    assert(unique_keys(s)) by {
                        assert forall|a: int, b: int| 0 <= a < b < s.len() implies s[a].0@ != s[b].0@ by {
                            if b == s.len() - 1 {
                                assert(map_of(before).contains_key(before[a].0@));
                            } else {
                                assert(before[a].0@ != before[b].0@);
                            }
                        }
                    }
                }
            },
        }
    }

    /// Drops `key`; fails with `KeyNotFound` where it is not there.
    pub fn remove(&mut self, key: &String) -> (r: Result<()>)
        requires
            old(self).wf(),
        ensures
            final(self).wf(),
            old(self).map().contains_key(key@) <==> r is Ok,
            r is Ok ==> final(self).map() == old(self).map().remove(key@),
            r is Err ==> final(self).map() == old(self).map() && r == Err::<(), KVError>(
                KVError::KeyNotFound("index::remove"),
            ),
    {
        proof {
            lemma_map_of(self.entries@);
        }
        match self.find(key) {
            Some(i) => {
                let ghost before = self.entries@;
                let ghost k = key@;
                assert(map_of(before).contains_key(before[i as int].0@));
                self.entries.remove(i);
                proof {
                    let s = self.entries@;
                    assert(unique_keys(s)) by {
                        assert forall|a: int, b: int| 0 <= a < b < s.len() implies s[a].0@ != s[b].0@ by {
                            if a < i && b < i {
                                assert(before[a].0@ != before[b].0@);
                            } else if a < i {
                                assert(before[a].0@ != before[b + 1].0@);
                            } else {
                                assert(before[a + 1].0@ != before[b + 1].0@);
                            }
                        }
                    }
                    lemma_map_of(s);
                    assert forall|x: Seq<char>| #[trigger] self.map().contains_key(x) <==> map_of(before).remove(k).contains_key(x) by {
                        if self.map().contains_key(x) {
                            let j = choose|j: int| 0 <= j < s.len() && s[j].0@ == x;
                            if j < i {
                                assert(before[j] == s[j]);
                                assert(before[j].0@ != before[i as int].0@);
                            } else {
                                assert(before[j + 1] == s[j]);
                                assert(before[j + 1].0@ != before[i as int].0@);
                            }
                        }
                        if map_of(before).remove(k).contains_key(x) {
                            let j = choose|j: int| 0 <= j < before.len() && before[j].0@ == x;
                            if j < i {
                                assert(s[j] == before[j]);
                            } else {
                                assert(j != i);
                                assert(s[j - 1] == before[j]);
                            }
                        }
                    }
                    assert forall|x: Seq<char>| #[trigger] self.map().contains_key(x) implies self.map()[x] == map_of(before).remove(k)[x] by {
                        let j = choose|j: int| 0 <= j < s.len() && s[j].0@ == x;
                        if j < i {
                            assert(before[j] == s[j]);
                        } else {
                            assert(before[j + 1] == s[j]);
                        }
                    }
                    assert(self.map() =~= map_of(before).remove(k));
                }
                Ok(())
            },
            None => Err(KVError::KeyNotFound("index::remove")),
        }
    }


    /// Resolves every entry, in the order the index holds them.
    pub fn iter(&self, storage: &LogStorage) -> (r: Result<Vec<Operation>>)
        requires
            self.wf(),
            storage.wf(),
        ensures
            r matches Ok(v) ==> v@.len() == self.keys().len() && forall|i: int|
                0 <= i < v@.len() ==> storage.record_at(self.ptrs()[i]) == Some(#[trigger] v@[i]@),
            (forall|i: int|
                0 <= i < self.ptrs().len() ==> #[trigger] storage.record_at(self.ptrs()[i]) is Some)
                ==> r is Ok,
    {
        let mut out: Vec<Operation> = Vec::new();
        let mut i: usize = 0;
        while i < self.entries.len()
            invariant
                storage.wf(),
                i <= self.entries@.len(),
                out@.len() == i,
                forall|j: int|
                    0 <= j < i ==> storage.record_at(self.ptrs()[j]) == Some(#[trigger] out@[j]@),
            decreases self.entries@.len() - i,
        {
            assert(self.ptrs()[i as int] == self.entries@[i as int].1);
            let op = match self.entries[i].1.read(storage) {
                Ok(op) => op,
                Err(e) => return Err(e),
            };
            out.push(op);
            i = i + 1;
        }
        Ok(out)
    }

    /// An index over records just written: record `i` is a `Set` of a key
    /// no other record has, and went to `ptrs[i]`.
    pub fn from_records(ops: &Vec<Operation>, ptrs: &Vec<LogPointer>) -> (r: Index)
        requires
            ops@.len() == ptrs@.len(),
            forall|i: int| 0 <= i < ops@.len() ==> #[trigger] ops@[i]@ is Put,
            forall|i: int, j: int|
                0 <= i < j < ops@.len() ==> ops@[i]@->Put_0 != ops@[j]@->Put_0,
        ensures
            r.wf(),
            r.ptrs() == ptrs@,
            r.keys().len() == ops@.len(),
            forall|i: int| 0 <= i < ops@.len() ==> #[trigger] r.keys()[i] == ops@[i]@->Put_0,
    {
        let mut entries: Vec<(String, LogPointer)> = Vec::new();
        let mut i: usize = 0;
        while i < ops.len()
            invariant
                ops@.len() == ptrs@.len(),
                forall|i: int| 0 <= i < ops@.len() ==> #[trigger] ops@[i]@ is Put,
                i <= ops@.len(),
                entries@.len() == i,
                forall|j: int| 0 <= j < i ==> #[trigger] entries@[j].0@ == ops@[j]@->Put_0
                    && entries@[j].1 == ptrs@[j],
            decreases ops@.len() - i,
        {
            assert(ops@[i as int]@ is Put);
            match &ops[i] {
                Operation::Put(k, _) => {
                    entries.push((k.clone(), ptrs[i]));
                },
                _ => {},
            }
            i = i + 1;
        }
        let r = Index { entries };
        proof {
            assert forall|j: int| 0 <= j < ptrs@.len() implies r.ptrs()[j] == ptrs@[j] by {
                assert(entries@[j].0@ == ops@[j]@->Put_0);
            }
            assert(r.ptrs() =~= ptrs@);
            assert forall|a: int, b: int| 0 <= a < b < entries@.len() implies entries@[a].0@ != entries@[b].0@ by {
                assert(entries@[a].0@ == ops@[a]@->Put_0);
                assert(entries@[b].0@ == ops@[b]@->Put_0);
            }
        }
        r
    }


    /// Replays the log over the index, in order: a `Set` points its key at
    /// the record, a `Remove` drops its key. A `Remove` of a key that is not
    /// there, or a `Get` in the log, is corruption: the build stops with
    /// `Corruption`.
    pub fn build_index(&mut self, log: &Vec<(LogPointer, Operation)>) -> (r: Result<()>)
        requires
            old(self).wf(),
        ensures
            final(self).wf(),
            r is Ok <==> replay(Some(old(self).map()), entries_view(log@)) is Some,
            r is Ok ==> Some(final(self).map()) == replay(Some(old(self).map()), entries_view(log@)),
            r is Err ==> r == Err::<(), KVError>(KVError::Corruption("log replay is inconsistent")),
    {
        let ghost m0 = self.map();
        let ghost es = entries_view(log@);
        let mut i: usize = 0;
        proof {
            assert(es.subrange(0, 0) =~= Seq::<(LogPointer, OpModel)>::empty());
        }
        while i < log.len()
            invariant
                self.wf(),
                m0 == old(self).map(),
                es == entries_view(log@),
                i <= log@.len(),
                replay(Some(m0), es.subrange(0, i as int)) == Some(self.map()),
            decreases log@.len() - i,
        {
            proof {
                assert(es.subrange(0, i + 1).drop_last() =~= es.subrange(0, i as int));
                assert(es.subrange(0, i + 1).last() == es[i as int]);
                assert(es[i as int] == (log@[i as int].0, log@[i as int].1@));
            }
            let p = log[i].0;
            match &log[i].1 {
                Operation::Put(k, _) => {
                    self.set(k.clone(), p);
                },
                Operation::Remove(k) => {
                    if self.remove(k).is_err() {
                        proof {
                            lemma_replay_none(m0, es, i + 1);
                        }
                        return Err(KVError::Corruption("log replay is inconsistent"));
                    }
                },
                Operation::Get(_) => {
                    proof {
                        lemma_replay_none(m0, es, i + 1);
                    }
                    return Err(KVError::Corruption("log replay is inconsistent"));
                },
            }
            i = i + 1;
        }
        proof {
            assert(es.subrange(0, log@.len() as int) =~= es);
        }
        Ok(())
    }

    /// The number of live keys.
    pub fn len(&self) -> (r: usize)
        requires
            self.wf(),
        ensures
            r == self.map().dom().len(),
    {
        proof {
            lemma_map_of(self.entries@);
        }
        self.entries.len()
    }
}

} // verus!
