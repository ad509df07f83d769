//! The segment log: an ordered set of append-only segments, each named by a
//! strictly increasing serial, the last of which takes new records.
//!
//! The log keeps the bytes of every segment it tracks and records, in
//! `actions`, the file operations that mirror its changes on disk.

use vstd::prelude::*;
use vstd::string::*;
use crate::kv::codec::{
    decode_record, lemma_records_append, parse_records, encode_op, encode_record, lemma_op_round_trip, lemma_op_stable, parse_op,
    push_bytes,
};
use crate::kv::{KVError, OpModel, Operation, Result};

verus! {

/// One segment: its serial and its bytes.
pub struct Segment {
    pub serial: usize,
    pub data: Vec<u8>,
}

/// A file operation that brings the on-disk segments in line with the log.
pub enum FileAction {
    /// Create the empty segment file of this serial.
    Create(usize),
    /// Append these bytes to the segment file of this serial.
    Append(usize, Vec<u8>),
    /// Delete the segment file of this serial.
    Delete(usize),
}

/// Where a record lives: a segment serial and a byte offset in it.
#[derive(Clone, Copy, Debug, PartialEq, Eq, Structural)]
pub struct LogPointer {
    pub file_serial: usize,
    pub offset: usize,
}

/// The segments by serial.
pub open spec fn seg_map_of(s: Seq<Segment>) -> Map<usize, Seq<u8>>
    decreases s.len(),
{
    if s.len() == 0 {
        Map::empty()
    } else {
        seg_map_of(s.drop_last()).insert(s.last().serial, s.last().data@)
    }
}

/// The total number of bytes in the segments.
pub open spec fn size_of(s: Seq<Segment>) -> nat
    decreases s.len(),
{
    if s.len() == 0 {
        0
    } else {
        size_of(s.drop_last()) + s.last().data@.len()
    }
}

pub open spec fn increasing(s: Seq<Segment>) -> bool {
    forall|i: int, j: int| 0 <= i < j < s.len() ==> s[i].serial < s[j].serial
}

/// Every serial of the map names a segment of the sequence, and each
/// segment's bytes stand under its serial.
pub proof fn lemma_seg_map(s: Seq<Segment>)
    requires
        increasing(s),
    ensures
        forall|x: usize| #[trigger]
            seg_map_of(s).contains_key(x) ==> exists|i: int| 0 <= i < s.len() && s[i].serial == x,
        forall|i: int|
            0 <= i < s.len() ==> #[trigger] seg_map_of(s).contains_key(s[i].serial)
                && seg_map_of(s)[s[i].serial] == s[i].data@,
    decreases s.len(),
{
    if s.len() > 0 {
        let d = s.drop_last();
        assert(increasing(d));
        lemma_seg_map(d);
        assert forall|x: usize| #[trigger]
            seg_map_of(s).contains_key(x) implies exists|i: int|
                0 <= i < s.len() && s[i].serial == x by {
            if x != s.last().serial {
                assert(seg_map_of(d).contains_key(x));
                let i = choose|i: int| 0 <= i < d.len() && d[i].serial == x;
                assert(s[i].serial == x);
            } else {
                assert(s[s.len() - 1].serial == x);
            }
        }
        assert forall|i: int| 0 <= i < s.len() implies #[trigger] seg_map_of(s).contains_key(
            s[i].serial,
        ) && seg_map_of(s)[s[i].serial] == s[i].data@ by {
            if i < s.len() - 1 {
                assert(d[i] == s[i]);
                assert(s[i].serial < s.last().serial);
            }
        }
    }
}


/// Every prefix of a run of segments holds at most all of its bytes.
pub proof fn lemma_size_prefix(s: Seq<Segment>, i: int)
    requires
        0 <= i <= s.len(),
    ensures
        size_of(s.subrange(0, i)) <= size_of(s),
    decreases s.len() - i,
{
    if i == s.len() {
        assert(s.subrange(0, i) =~= s);
    } else {
        lemma_size_prefix(s, i + 1);
        assert(s.subrange(0, i + 1).drop_last() =~= s.subrange(0, i));
    }
}

/// The number of bytes that a run of records takes.
pub open spec fn total_len(s: Seq<Operation>) -> nat
    decreases s.len(),
{
    if s.len() == 0 {
        0
    } else {
        encode_op(s[0]@).len() + total_len(s.drop_first())
    }
}


/// A suffix's records take at least as many bytes as its first record.
proof fn lemma_total_len_bound(s: Seq<Operation>, k: int)
    requires
        0 <= k < s.len(),
    ensures
        total_len(s.subrange(k, s.len() as int)) >= encode_op(s[k]@).len(),
        total_len(s) >= total_len(s.subrange(k, s.len() as int)),
    decreases k,
{
    assert(s.subrange(k, s.len() as int)[0] == s[k]);
    if k > 0 {
        lemma_total_len_bound(s.drop_first(), k - 1);
        assert(s.drop_first().subrange(k - 1, s.len() - 1) =~= s.subrange(k, s.len() as int));
    } else {
        assert(s.subrange(0, s.len() as int) =~= s);
    }
}


pub open spec fn is_digit(c: char) -> bool {
    '0' <= c <= '9'
}

/// The number that a run of decimal digits spells.
pub open spec fn decimal_value(s: Seq<char>) -> nat
    decreases s.len(),
{
    if s.len() == 0 {
        0
    } else {
        10 * decimal_value(s.drop_last()) + (s.last() as nat - '0' as nat) as nat
    }
}

/// The serial that a segment file's name gives: its decimal digits, where
/// the name is nothing else and the number fits.
pub open spec fn serial_of(name: Seq<char>) -> Option<usize> {
    if name.len() > 0 && (forall|i: int| 0 <= i < name.len() ==> is_digit(#[trigger] name[i]))
        && decimal_value(name) <= usize::MAX {
        Some(decimal_value(name) as usize)
    } else {
        None
    }
}

/// Reads the serial of a segment file from its name.
pub fn parse_serial(name: &str) -> (r: Option<usize>)
    ensures
        r == serial_of(name@),
{
    let n = name.unicode_len();
    if n == 0 {
        return None;
    }
    let mut v: usize = 0;
    let mut i: usize = 0;
    while i < n
        invariant
            n == name@.len(),
            i <= n,
            forall|j: int| 0 <= j < i ==> is_digit(#[trigger] name@[j]),
            v == decimal_value(name@.subrange(0, i as int)),
        decreases n - i,
    {
        let c = name.get_char(i);
        proof {
            assert(name@.subrange(0, i + 1).drop_last() =~= name@.subrange(0, i as int));
        }
        if !('0' <= c && c <= '9') {
            return None;
        }
        let d = (c as u32 - '0' as u32) as usize;
        if v > (usize::MAX - d) / 10 {
            proof {
                assert(10 * v + d > usize::MAX) by (nonlinear_arith)
                    requires
                        v > (usize::MAX - d) / 10,
                        d <= 9,
                ;
                assert(name@.subrange(0, i + 1).last() == c);
                assert(decimal_value(name@.subrange(0, i + 1)) == 10 * v + d);
                if forall|j: int| 0 <= j < name@.len() ==> is_digit(#[trigger] name@[j]) {
                    lemma_decimal_prefix(name@, i + 1);
                }
            }
            return None;
        }
        assert(10 * v + d <= usize::MAX) by (nonlinear_arith)
            requires
                v <= (usize::MAX - d) / 10,
                d <= 9,
        ;
        v = 10 * v + d;
        i = i + 1;
    }
    proof {
        assert(name@.subrange(0, n as int) =~= name@);
    }
    Some(v)
}

/// A number spelled by a run of digits is at least the one its prefix spells.
proof fn lemma_decimal_prefix(s: Seq<char>, i: int)
    requires
        0 <= i <= s.len(),
        forall|j: int| 0 <= j < s.len() ==> is_digit(#[trigger] s[j]),
    ensures
        decimal_value(s.subrange(0, i)) <= decimal_value(s),
    decreases s.len() - i,
{
    if i < s.len() {
        lemma_decimal_prefix(s, i + 1);
        assert(s.subrange(0, i + 1).drop_last() =~= s.subrange(0, i));
        let a = s.subrange(0, i + 1);
        assert(a.last() == s[i]);
        assert(decimal_value(a) >= decimal_value(a.drop_last()));
    } else {
        assert(s.subrange(0, i) =~= s);
    }
}

/// The entries of one segment's records, as pointers and operations.
pub open spec fn seg_entries(serial: usize, recs: Seq<(int, OpModel)>) -> Seq<(LogPointer, OpModel)> {
    recs.map_values(|r: (int, OpModel)| (LogPointer { file_serial: serial, offset: r.0 as usize }, r.1))
}

/// Every record of every segment, in replay order: segments by ascending
/// serial, records by ascending offset. `None` where a segment does not decode.
pub open spec fn log_entries(s: Seq<Segment>) -> Option<Seq<(LogPointer, OpModel)>>
    decreases s.len(),
{
    if s.len() == 0 {
        Some(Seq::empty())
    } else {
        match (log_entries(s.drop_last()), parse_records(s.last().data@, 0)) {
            (Some(a), Some(r)) => Some(a + seg_entries(s.last().serial, r)),
            _ => None,
        }
    }
}

pub open spec fn entries_view(v: Seq<(LogPointer, Operation)>) -> Seq<(LogPointer, OpModel)> {
    v.map_values(|e: (LogPointer, Operation)| (e.0, e.1@))
}

/// A segment that does not decode spoils every longer run of segments.
proof fn lemma_log_entries_none(s: Seq<Segment>, i: int)
    requires
        0 <= i <= s.len(),
        log_entries(s.subrange(0, i)) is None,
    ensures
        log_entries(s) is None,
    decreases s.len() - i,
{
    if i == s.len() {
        assert(s.subrange(0, i) =~= s);
    } else {
        assert(s.subrange(0, i + 1).drop_last() =~= s.subrange(0, i));
        lemma_log_entries_none(s, i + 1);
    }
}

/// Two runs of segments ordered by serial that hold the same segments hold
/// the same records in the same order.
pub proof fn lemma_same_segments(s1: Seq<Segment>, s2: Seq<Segment>)
    requires
        increasing(s1),
        increasing(s2),
        seg_map_of(s1) == seg_map_of(s2),
    ensures
        log_entries(s1) == log_entries(s2),
    decreases s1.len(),
{
    lemma_seg_map(s1);
    lemma_seg_map(s2);
    if s1.len() == 0 {
        if s2.len() > 0 {
            assert(seg_map_of(s2).contains_key(s2[0].serial));
        }
    } else {
        let n1 = s1.len() - 1;
        assert(s1[n1] == s1.last());
        assert(seg_map_of(s2).contains_key(s1[n1].serial));
        let j = choose|j: int| 0 <= j < s2.len() && s2[j].serial == s1[n1].serial;
        let n2 = s2.len() - 1;
        assert(s2[n2] == s2.last());
        assert(seg_map_of(s1).contains_key(s2[n2].serial));
        let i = choose|i: int| 0 <= i < s1.len() && s1[i].serial == s2[n2].serial;
        if j < n2 {
            assert(s2[j].serial < s2[n2].serial);
        }
        if i < n1 {
            assert(s1[i].serial < s1[n1].serial);
        }
        let x = s1.last().serial;
        assert(x == s2.last().serial);
        let d1 = s1.drop_last();
        let d2 = s2.drop_last();
        assert(increasing(d1));
        assert(increasing(d2));
        lemma_seg_map(d1);
        lemma_seg_map(d2);
        assert(!seg_map_of(d1).contains_key(x)) by {
            if seg_map_of(d1).contains_key(x) {
                let a = choose|a: int| 0 <= a < d1.len() && d1[a].serial == x;
                assert(s1[a].serial < s1[n1].serial);
            }
        }
        assert(!seg_map_of(d2).contains_key(x)) by {
            if seg_map_of(d2).contains_key(x) {
                let a = choose|a: int| 0 <= a < d2.len() && d2[a].serial == x;
                assert(s2[a].serial < s2[n2].serial);
            }
        }
        assert(seg_map_of(d1) =~= seg_map_of(s1).remove(x));
        assert(seg_map_of(d2) =~= seg_map_of(s2).remove(x));
        lemma_same_segments(d1, d2);
    }
}

/// The number of bytes that the records take, where it fits in a `usize`.
pub(crate) fn records_len(records: &Vec<Operation>) -> (r: Option<usize>)
    ensures
        total_len(records@) <= usize::MAX ==> r == Some(total_len(records@) as usize),
        total_len(records@) > usize::MAX ==> r is None,
{
    let n = records.len();
    let mut total: usize = 0;
    let mut k: usize = n;
    let ghost rs = records@;
    proof {
        assert(rs.subrange(n as int, n as int) =~= Seq::<Operation>::empty());
    }
    while k > 0
        invariant
            k <= n,
            n == rs.len(),
            rs == records@,
            total == total_len(rs.subrange(k as int, n as int)),
        decreases k,
    {
        let e = encode_record(&records[k - 1]);
        proof {
            assert(rs.subrange(k - 1, n as int).drop_first() =~= rs.subrange(k as int, n as int));
        }
        if e.len() > usize::MAX - total {
            proof {
                lemma_total_len_bound(rs, (k - 1) as int);
            }
            return None;
        }
        total = total + e.len();
        k = k - 1;
    }
    proof {
        assert(rs.subrange(0, n as int) =~= rs);
    }
    Some(total)
}

/// The records of a set of segments, taken in serial order.
pub open spec fn log_of(m: Map<usize, Seq<u8>>) -> Option<Seq<(LogPointer, OpModel)>> {
    log_entries(choose|s: Seq<Segment>| increasing(s) && seg_map_of(s) == m)
}

/// Any run of segments ordered by serial holds the records `log_of` names.
pub proof fn lemma_log_of(s: Seq<Segment>)
    requires
        increasing(s),
    ensures
        log_of(seg_map_of(s)) == log_entries(s),
{
    let m = seg_map_of(s);
    let c = choose|c: Seq<Segment>| increasing(c) && seg_map_of(c) == m;
    lemma_same_segments(c, s);
}

/// The number of bytes that a run of records takes, over their models.
pub open spec fn models_len(s: Seq<OpModel>) -> nat
    decreases s.len(),
{
    if s.len() == 0 {
        0
    } else {
        encode_op(s[0]).len() + models_len(s.drop_first())
    }
}

pub proof fn lemma_total_len_models(s: Seq<Operation>)
    ensures
        total_len(s) == models_len(s.map_values(|o: Operation| o@)),
    decreases s.len(),
{
    if s.len() > 0 {
        lemma_total_len_models(s.drop_first());
        assert(s.map_values(|o: Operation| o@).drop_first() =~= s.drop_first().map_values(
            |o: Operation| o@,
        ));
    }
}

/// Every action creates or appends to a segment of serial `w` or above.
pub open spec fn writes_from(acts: Seq<FileAction>, w: usize) -> bool {
    forall|i: int|
        0 <= i < acts.len() ==> match #[trigger] acts[i] {
            FileAction::Create(x) => x >= w,
            FileAction::Append(x, _) => x >= w,
            FileAction::Delete(_) => false,
        }
}

/// Each record that a segment decodes to sits at its offset.
pub proof fn lemma_records_resolve(d: Seq<u8>, i: int)
    requires
        parse_records(d, i) is Some,
    ensures
        forall|j: int|
            0 <= j < parse_records(d, i)->Some_0.len() ==> ({
                let r = #[trigger] parse_records(d, i)->Some_0[j];
                &&& i <= r.0 < d.len()
                &&& parse_op(d, r.0) matches Some((op, _)) && op == r.1
            }),
    decreases d.len() - i,
{
    if i < d.len() {
        let (op, e) = parse_op(d, i)->Some_0;
        lemma_records_resolve(d, e);
        let rest = parse_records(d, e)->Some_0;
        let all = parse_records(d, i)->Some_0;
        assert(all == seq![(i, op)] + rest);
        assert forall|j: int| 0 <= j < all.len() implies ({
            let r = #[trigger] all[j];
            &&& i <= r.0 < d.len()
            &&& parse_op(d, r.0) matches Some((op2, _)) && op2 == r.1
        }) by {
            if j > 0 {
                assert(all[j] == rest[j - 1]);
            }
        }
    }
}

/// What one file action does to the segment files, by serial.
pub open spec fn apply_action(m: Map<usize, Seq<u8>>, a: FileAction) -> Map<usize, Seq<u8>> {
    match a {
        FileAction::Create(x) => if m.contains_key(x) {
            m
        } else {
            m.insert(x, Seq::empty())
        },
        FileAction::Append(x, b) => m.insert(
            x,
            (if m.contains_key(x) {
                m[x]
            } else {
                Seq::empty()
            }) + b@,
        ),
        FileAction::Delete(x) => m.remove(x),
    }
}

/// What a run of file actions, in order, does to the segment files.
pub open spec fn apply_actions(m: Map<usize, Seq<u8>>, acts: Seq<FileAction>) -> Map<usize, Seq<u8>>
    decreases acts.len(),
{
    if acts.len() == 0 {
        m
    } else {
        apply_action(apply_actions(m, acts.drop_last()), acts.last())
    }
}

/// Carrying out two runs of actions is carrying out their concatenation.
pub proof fn lemma_apply_concat(m: Map<usize, Seq<u8>>, a: Seq<FileAction>, b: Seq<FileAction>)
    ensures
        apply_actions(m, a + b) == apply_actions(apply_actions(m, a), b),
    decreases b.len(),
{
    if b.len() == 0 {
        assert(a + b =~= a);
    } else {
        lemma_apply_concat(m, a, b.drop_last());
        assert((a + b).drop_last() =~= a + b.drop_last());
        assert((a + b).last() == b.last());
    }
}

/// Actions that only write at serial `w` or above commute with dropping
/// serials below `w`.
proof fn lemma_apply_remove(m: Map<usize, Seq<u8>>, acts: Seq<FileAction>, d: Set<usize>, w: usize)
    requires
        writes_from(acts, w),
        forall|x: usize| d.contains(x) ==> x < w,
    ensures
        apply_actions(m.remove_keys(d), acts) == apply_actions(m, acts).remove_keys(d),
    decreases acts.len(),
{
    if acts.len() > 0 {
        let p = acts.drop_last();
        assert(writes_from(p, w)) by {
            assert forall|i: int| 0 <= i < p.len() implies match #[trigger] p[i] {
                FileAction::Create(x) => x >= w,
                FileAction::Append(x, _) => x >= w,
                FileAction::Delete(_) => false,
            } by {
                assert(p[i] == acts[i]);
            }
        }
        lemma_apply_remove(m, p, d, w);
        let l = acts.last();
        assert(l == acts[acts.len() - 1]);
        let a = apply_actions(m, p);
        assert(apply_action(a.remove_keys(d), l) =~= apply_action(a, l).remove_keys(d));
    }
}

/// Deleting serials one by one drops them all.
proof fn lemma_apply_deletes(m: Map<usize, Seq<u8>>, xs: Seq<usize>)
    ensures
        apply_actions(m, xs.map_values(|x: usize| FileAction::Delete(x))) == m.remove_keys(xs.to_set()),
    decreases xs.len(),
{
    let acts = xs.map_values(|x: usize| FileAction::Delete(x));
    if xs.len() == 0 {
        assert(m.remove_keys(xs.to_set()) =~= m);
    } else {
        lemma_apply_deletes(m, xs.drop_last());
        assert(acts.drop_last() =~= xs.drop_last().map_values(|x: usize| FileAction::Delete(x)));
        assert(acts.last() == FileAction::Delete(xs.last()));
        assert(xs.to_set() =~= xs.drop_last().to_set().insert(xs.last())) by {
            assert forall|x: usize| xs.to_set().contains(x) <==> xs.drop_last().to_set().insert(xs.last()).contains(x) by {
                if xs.contains(x) {
                    let i = choose|i: int| 0 <= i < xs.len() && xs[i] == x;
                    if i < xs.len() - 1 {
                        assert(xs.drop_last()[i] == x);
                    }
                }
                if xs.drop_last().contains(x) {
                    let i = choose|i: int| 0 <= i < xs.len() - 1 && xs.drop_last()[i] == x;
                    assert(xs[i] == x);
                }
            }
        }
        assert(m.remove_keys(xs.drop_last().to_set()).remove(xs.last()) =~= m.remove_keys(xs.to_set()));
    }
}

proof fn lemma_one_write(
    f0: Map<usize, Seq<u8>>,
    f1: Map<usize, Seq<u8>>,
    suf: Seq<FileAction>,
    x: usize,
    b: Vec<u8>,
    rotated: bool,
)
    requires
        rotated ==> !f0.contains_key(x) && f1 == f0.insert(x, b@) && suf == seq![
            FileAction::Create(x),
            FileAction::Append(x, b),
        ],
        !rotated ==> f0.contains_key(x) && f1 == f0.insert(x, f0[x] + b@) && suf == seq![
            FileAction::Append(x, b),
        ],
    ensures
        apply_actions(f0, suf) == f1,
{
    reveal_with_fuel(apply_actions, 3);
    if rotated {
        assert(suf.drop_last() =~= seq![FileAction::Create(x)]);
        assert(suf.drop_last().drop_last() =~= Seq::<FileAction>::empty());
        assert(suf.drop_last().last() == FileAction::Create(x));
        assert(suf.last() == FileAction::Append(x, b));
        assert(Seq::<u8>::empty() + b@ =~= b@);
        assert(apply_actions(f0, suf.drop_last()) == f0.insert(x, Seq::<u8>::empty()));
        assert(apply_actions(f0, suf) =~= f1);
    } else {
        assert(suf.drop_last() =~= Seq::<FileAction>::empty());
        assert(suf.last() == FileAction::Append(x, b));
        assert(apply_actions(f0, suf) =~= f1);
    }
}

/// Carrying out a run of actions and then the ones recorded after it is
/// carrying out the whole run.
pub proof fn lemma_apply_extend(
    f: Map<usize, Seq<u8>>,
    k0: int,
    pb: Seq<FileAction>,
    pa: Seq<FileAction>,
    fb: Map<usize, Seq<u8>>,
    fa: Map<usize, Seq<u8>>,
)
    requires
        0 <= k0 <= pb.len() <= pa.len(),
        pa.subrange(0, pb.len() as int) == pb,
        fb == apply_actions(f, pb.subrange(k0, pb.len() as int)),
        fa == apply_actions(fb, pa.subrange(pb.len() as int, pa.len() as int)),
    ensures
        fa == apply_actions(f, pa.subrange(k0, pa.len() as int)),
{
    let a = pb.subrange(k0, pb.len() as int);
    let b = pa.subrange(pb.len() as int, pa.len() as int);
    assert(pa.subrange(k0, pa.len() as int) =~= a + b) by {
        assert forall|i: int| 0 <= i < a.len() implies pa[k0 + i] == a[i] by {
            assert(pa.subrange(0, pb.len() as int)[k0 + i] == pa[k0 + i]);
        }
    }
    lemma_apply_concat(f, a, b);
}

/// What compaction's actions do: a fresh segment, the writes into it and
/// after it, then the deletion of the dropped segments.
proof fn lemma_merge_effect(
    f0: Map<usize, Seq<u8>>,
    f1: Map<usize, Seq<u8>>,
    f2: Map<usize, Seq<u8>>,
    ws: usize,
    w: Seq<FileAction>,
    dropped: Seq<usize>,
    lset: Set<usize>,
)
    requires
        ws < usize::MAX,
        forall|x: usize| #[trigger] f0.contains_key(x) ==> x <= ws,
        f1 == f0.remove_keys(lset).insert((ws + 1) as usize, Seq::<u8>::empty()),
        f2 == apply_actions(f1, w),
        writes_from(w, (ws + 1) as usize),
        forall|j: int| 0 <= j < dropped.len() ==> lset.contains(#[trigger] dropped[j]) && f0.contains_key(dropped[j]),
        forall|x: usize| #[trigger] f0.contains_key(x) && lset.contains(x) ==> dropped.contains(x),
    ensures
        apply_actions(
            f0,
            seq![FileAction::Create((ws + 1) as usize)] + w + dropped.map_values(|x: usize| FileAction::Delete(x)),
        ) == f2,
{
    let c = seq![FileAction::Create((ws + 1) as usize)];
    let dels = dropped.map_values(|x: usize| FileAction::Delete(x));
    let d = dropped.to_set();
    let n = (ws + 1) as usize;
    reveal_with_fuel(apply_actions, 2);
    assert(c.drop_last() =~= Seq::<FileAction>::empty());
    assert(!f0.contains_key(n));
    let a1 = apply_actions(f0, c);
    assert(a1 == f0.insert(n, Seq::<u8>::empty()));
    assert forall|x: usize| d.contains(x) implies x < n by {
        let j = choose|j: int| 0 <= j < dropped.len() && dropped[j] == x;
        assert(f0.contains_key(dropped[j]));
    }
    assert(a1.remove_keys(d) =~= f1) by {
        assert forall|x: usize| #[trigger] a1.remove_keys(d).contains_key(x) <==> f1.contains_key(x) by {
            if f0.contains_key(x) && lset.contains(x) {
                assert(dropped.contains(x));
            }
            if d.contains(x) {
                let j = choose|j: int| 0 <= j < dropped.len() && dropped[j] == x;
                assert(lset.contains(dropped[j]));
            }
        }
    }
    lemma_apply_remove(a1, w, d, n);
    lemma_apply_deletes(apply_actions(a1, w), dropped);
    lemma_apply_concat(f0, c, w);
    lemma_apply_concat(f0, c + w, dels);
}

fn listed(l: &Vec<usize>, x: usize) -> (r: bool)
    ensures
        r == l@.contains(x),
{
    let mut i: usize = 0;
    while i < l.len()
        invariant
            i <= l@.len(),
            forall|j: int| 0 <= j < i ==> l@[j] != x,
        decreases l@.len() - i,
    {
        if l[i] == x {
            return true;
        }
        i = i + 1;
    }
    false
}


/// The segment files given by name and contents, by serial.
pub open spec fn file_map(fs: Seq<(String, Vec<u8>)>) -> Map<usize, Seq<u8>>
    decreases fs.len(),
{
    if fs.len() == 0 {
        Map::empty()
    } else {
        file_map(fs.drop_first()).insert(serial_of(fs[0].0@)->Some_0, fs[0].1@)
    }
}

/// The total number of bytes in the given files.
pub open spec fn files_len(fs: Seq<(String, Vec<u8>)>) -> nat
    decreases fs.len(),
{
    if fs.len() == 0 {
        0
    } else {
        fs[0].1@.len() + files_len(fs.drop_first())
    }
}

/// Every file name is a serial.
pub open spec fn all_serials(fs: Seq<(String, Vec<u8>)>) -> bool {
    forall|m: int| 0 <= m < fs.len() ==> #[trigger] serial_of(fs[m].0@) is Some
}

/// No two files name the same serial.
pub open spec fn distinct_serials(fs: Seq<(String, Vec<u8>)>) -> bool {
    forall|a: int, b: int|
        0 <= a < b < fs.len() ==> serial_of(#[trigger] fs[a].0@) != serial_of(#[trigger] fs[b].0@)
}

/// Whether the log can take over these files: names are distinct serials,
/// a serial is left for the fresh write segment and the sizes add up within
/// a `usize`.
pub open spec fn load_ok(fs: Seq<(String, Vec<u8>)>) -> bool {
    &&& all_serials(fs)
    &&& distinct_serials(fs)
    &&& forall|m: int| 0 <= m < fs.len() ==> (#[trigger] serial_of(fs[m].0@))->Some_0 < usize::MAX
    &&& files_len(fs) <= usize::MAX
}

proof fn lemma_size_insert(s: Seq<Segment>, j: int, x: Segment)
    requires
        0 <= j <= s.len(),
    ensures
        size_of(s.insert(j, x)) == size_of(s) + x.data@.len(),
    decreases s.len(),
{
    if j == s.len() {
        assert(s.insert(j, x).drop_last() =~= s);
    } else {
        lemma_size_insert(s.drop_last(), j, x);
        assert(s.insert(j, x).drop_last() =~= s.drop_last().insert(j, x));
        assert(s.insert(j, x).last() == s.last());
    }
}

/// Puts `seg` in its place among segments ordered by serial; refuses a
/// serial that is already there.
fn insert_segment(segs: &mut Vec<Segment>, seg: Segment) -> (r: bool)
    requires
        increasing(old(segs)@),
    ensures
        increasing(final(segs)@),
        r <==> !seg_map_of(old(segs)@).contains_key(seg.serial),
        r ==> seg_map_of(final(segs)@) == seg_map_of(old(segs)@).insert(seg.serial, seg.data@),
        r ==> size_of(final(segs)@) == size_of(old(segs)@) + seg.data@.len(),
        !r ==> final(segs)@ == old(segs)@,
{
    let ghost s0 = segs@;
    proof {
        lemma_seg_map(s0);
    }
    let mut j: usize = 0;
    while j < segs.len() && segs[j].serial < seg.serial
        invariant
            segs@ == s0,
            j <= s0.len(),
            forall|m: int| 0 <= m < j ==> s0[m].serial < seg.serial,
        decreases s0.len() - j,
    {
        j = j + 1;
    }
    if j < segs.len() && segs[j].serial == seg.serial {
        assert(seg_map_of(s0).contains_key(s0[j as int].serial));
        return false;
    }
    proof {
        assert forall|m: int| j <= m < s0.len() implies s0[m].serial > seg.serial by {
            if m > j {
                assert(s0[j as int].serial < s0[m].serial);
            }
        }
        assert(!seg_map_of(s0).contains_key(seg.serial)) by {
            if seg_map_of(s0).contains_key(seg.serial) {
                let m = choose|m: int| 0 <= m < s0.len() && s0[m].serial == seg.serial;
            }
        }
    }
    let ghost x = seg.serial;
    let ghost d = seg.data@;
    let ghost sg = seg;
    segs.insert(j, seg);
    proof {
        lemma_size_insert(s0, j as int, sg);
        let s1 = segs@;
        assert forall|a: int, b: int| 0 <= a < b < s1.len() implies s1[a].serial < s1[b].serial by {
            if b < j {
            } else if b == j {
            } else if a < j {
                assert(s1[b] == s0[b - 1]);
            } else if a == j {
                assert(s1[b] == s0[b - 1]);
            } else {
                assert(s1[a] == s0[a - 1]);
                assert(s1[b] == s0[b - 1]);
            }
        }
        lemma_seg_map(s1);
        let m1 = seg_map_of(s1);
        let m2 = seg_map_of(s0).insert(x, d);
        assert forall|k: usize| #[trigger] m1.contains_key(k) <==> m2.contains_key(k) by {
            if m1.contains_key(k) {
                let a = choose|a: int| 0 <= a < s1.len() && s1[a].serial == k;
                if a < j {
                    assert(s1[a] == s0[a]);
                } else if a > j {
                    assert(s1[a] == s0[a - 1]);
                }
            }
            if m2.contains_key(k) && k != x {
                let a = choose|a: int| 0 <= a < s0.len() && s0[a].serial == k;
                if a < j {
                    assert(s1[a] == s0[a]);
                } else {
                    assert(s1[a + 1] == s0[a]);
                }
            }
            if k == x {
                assert(s1[j as int].serial == x);
            }
        }
        assert forall|k: usize| #[trigger] m1.contains_key(k) implies m1[k] == m2[k] by {
            let a = choose|a: int| 0 <= a < s1.len() && s1[a].serial == k;
            if a < j {
                assert(s1[a] == s0[a]);
            } else if a > j {
                assert(s1[a] == s0[a - 1]);
            }
        }
        assert(m1 =~= m2);
    }
    true
}

/// The segment log.
pub struct LogStorage {
    segments: Vec<Segment>,
    file_size_limit: usize,
    cur_storage_size: usize,
    actions: Vec<FileAction>,
}

impl LogStorage {
    pub closed spec fn segs(&self) -> Seq<Segment> {
        self.segments@
    }

    /// The bytes of each tracked segment, by serial.
    pub open spec fn files(&self) -> Map<usize, Seq<u8>> {
        seg_map_of(self.segs())
    }

    /// The serial of the segment that takes new records.
    pub open spec fn write_serial(&self) -> usize {
        self.segs().last().serial
    }

    /// The size of the segment that takes new records.
    pub open spec fn cur_len(&self) -> nat {
        self.segs().last().data@.len()
    }

    pub closed spec fn limit(&self) -> nat {
        self.file_size_limit as nat
    }

    pub closed spec fn size(&self) -> nat {
        self.cur_storage_size as nat
    }

    /// The file operations not yet handed out.
    pub closed spec fn pending(&self) -> Seq<FileAction> {
        self.actions@
    }

    pub closed spec fn wf(&self) -> bool {
        &&& self.segments@.len() > 0
        &&& increasing(self.segments@)
        &&& self.cur_storage_size == size_of(self.segments@)
        &&& self.file_size_limit > 0
    }

    /// Whether a record of `n` bytes goes into a fresh segment.
    pub open spec fn will_rotate(&self, n: nat) -> bool {
        self.cur_len() + n > self.limit()
    }

    /// Whether the counters leave room for a record of `n` bytes.
    pub open spec fn has_room(&self, n: nat) -> bool {
        &&& self.size() + n <= usize::MAX
        &&& self.write_serial() < usize::MAX
    }

    /// Whether a pointer names a byte of a tracked segment, where a record
    /// could start.
    pub open spec fn has_bytes_at(&self, p: LogPointer) -> bool {
        self.files().contains_key(p.file_serial) && p.offset < self.files()[p.file_serial].len()
    }

    /// The record that a pointer resolves to.
    pub open spec fn record_at(&self, p: LogPointer) -> Option<OpModel> {
        if self.files().contains_key(p.file_serial) {
            match parse_op(self.files()[p.file_serial], p.offset as int) {
                Some((op, _)) => Some(op),
                None => None,
            }
        } else {
            None
        }
    }

    pub proof fn lemma_wf(&self)
        requires
            self.wf(),
        ensures
            increasing(self.segs()),
            self.segs().len() > 0,
            self.size() == size_of(self.segs()),
    {
    }

    /// A log that holds the segments of `m` and an empty write segment after
    /// them holds the records `log_of(m)` names.
    pub proof fn lemma_loaded_log(&self, m: Map<usize, Seq<u8>>)
        requires
            self.wf(),
            self.files() == m.insert(self.write_serial(), Seq::<u8>::empty()),
            !m.contains_key(self.write_serial()),
        ensures
            log_of(m) == log_entries(self.segs()),
    {
        let sa = self.segs();
        let da = sa.drop_last();
        let ws = self.write_serial();
        assert(increasing(da));
        lemma_seg_map(da);
        assert(!seg_map_of(da).contains_key(ws)) by {
            if seg_map_of(da).contains_key(ws) {
                let a = choose|a: int| 0 <= a < da.len() && da[a].serial == ws;
                assert(sa[a].serial < sa[sa.len() - 1].serial);
            }
        }
        assert(seg_map_of(sa) == seg_map_of(da).insert(ws, sa.last().data@));
        assert(seg_map_of(da) =~= seg_map_of(sa).remove(ws));
        assert(seg_map_of(da) =~= m);
        lemma_log_of(da);
        self.lemma_serials_bounded();
        assert(sa.last().data@ == Seq::<u8>::empty());
        assert(parse_records(Seq::<u8>::empty(), 0) == Some(Seq::<(int, OpModel)>::empty()));
        assert(seg_entries(ws, Seq::<(int, OpModel)>::empty()) =~= Seq::<(LogPointer, OpModel)>::empty());
        match log_entries(da) {
            Some(a) => {
                assert(a + Seq::<(LogPointer, OpModel)>::empty() =~= a);
            },
            None => {},
        }
    }

    /// Every record of the log resolves, through its pointer, to what it says.
    pub proof fn lemma_log_resolves(&self, n: int)
        requires
            self.wf(),
            0 <= n <= self.segs().len(),
            log_entries(self.segs().subrange(0, n)) is Some,
        ensures
            forall|i: int|
                0 <= i < log_entries(self.segs().subrange(0, n))->Some_0.len() ==> self.record_at(
                    (#[trigger] log_entries(self.segs().subrange(0, n))->Some_0[i]).0,
                ) == Some(log_entries(self.segs().subrange(0, n))->Some_0[i].1),
        decreases n,
    {
        let segs = self.segs();
        let sub = segs.subrange(0, n);
        if n > 0 {
            let d = sub.drop_last();
            assert(d =~= segs.subrange(0, n - 1));
            self.lemma_log_resolves(n - 1);
            let seg = segs[n - 1];
            assert(sub.last() == seg);
            let a = log_entries(d)->Some_0;
            let rs = parse_records(seg.data@, 0)->Some_0;
            lemma_records_resolve(seg.data@, 0);
            lemma_seg_map(segs);
            assert(seg_map_of(segs).contains_key(segs[n - 1].serial));
            assert(self.files()[seg.serial] == seg.data@);
            lemma_size_prefix(segs, n);
            assert(sub.drop_last() == d);
            assert(size_of(sub) >= seg.data@.len());
            let es = log_entries(sub)->Some_0;
            assert(es == a + seg_entries(seg.serial, rs));
            assert forall|i: int| 0 <= i < es.len() implies self.record_at((#[trigger] es[i]).0)
                == Some(es[i].1) by {
                if i < a.len() {
                    assert(es[i] == a[i]);
                } else {
                    let j = i - a.len();
                    assert(es[i] == seg_entries(seg.serial, rs)[j]);
                    let r = rs[j];
                    assert(0 <= r.0 < seg.data@.len());
                }
            }
        }
    }

    /// Every tracked serial is at most the write serial.
    pub proof fn lemma_serials_bounded(&self)
        requires
            self.wf(),
        ensures
            forall|x: usize| #[trigger]
                self.files().contains_key(x) ==> x <= self.write_serial(),
            self.files().contains_key(self.write_serial()),
            self.files()[self.write_serial()] == self.segs().last().data@,
    {
        lemma_seg_map(self.segments@);
        let s = self.segments@;
        assert(s[s.len() - 1] == s.last());
        assert forall|x: usize| #[trigger] self.files().contains_key(x) implies x
            <= self.write_serial() by {
            let i = choose|i: int| 0 <= i < s.len() && s[i].serial == x;
            if i < s.len() - 1 {
                assert(s[i].serial < s[s.len() - 1].serial);
            }
        }
    }

    proof fn lemma_segment_spoils(&self, i: int)
        requires
            0 <= i < self.segments@.len(),
            parse_records(self.segments@[i].data@, 0) is None,
        ensures
            log_entries(self.segs()) is None,
    {
        let sub = self.segments@.subrange(0, i + 1);
        assert(sub.last() == self.segments@[i]);
        lemma_log_entries_none(self.segments@, i + 1);
    }

    /// A log over one empty segment of serial `serial`.
    pub fn new_empty(serial: usize, file_size_limit: usize) -> (r: LogStorage)
        requires
            file_size_limit > 0,
        ensures
            r.wf(),
            r.files() == Map::<usize, Seq<u8>>::empty().insert(serial, Seq::<u8>::empty()),
            r.write_serial() == serial,
            r.size() == 0,
            r.limit() == file_size_limit,
            r.pending() == seq![FileAction::Create(serial)],
    {
        let mut segments: Vec<Segment> = Vec::new();
        segments.push(Segment { serial, data: Vec::new() });
        let mut actions: Vec<FileAction> = Vec::new();
        actions.push(FileAction::Create(serial));
        let r = LogStorage { segments, file_size_limit, cur_storage_size: 0, actions };
        assert(r.segments@.drop_last() =~= Seq::<Segment>::empty());
        assert(size_of(Seq::<Segment>::empty()) == 0);
        assert(seg_map_of(Seq::<Segment>::empty()) == Map::<usize, Seq<u8>>::empty());
        assert(r.segments@.last().data@ == Seq::<u8>::empty());
        assert(r.files() =~= Map::<usize, Seq<u8>>::empty().insert(serial, Seq::<u8>::empty()));
        assert(r.pending() =~= seq![FileAction::Create(serial)]);
        r
    }


    /// Starts a fresh write segment whose serial follows the current one.
    fn replace_write_file(&mut self)
        requires
            old(self).wf(),
            old(self).write_serial() < usize::MAX,
        ensures
            final(self).wf(),
            final(self).write_serial() == old(self).write_serial() + 1,
            final(self).cur_len() == 0,
            final(self).files() == old(self).files().insert(
                final(self).write_serial(),
                Seq::<u8>::empty(),
            ),
            final(self).size() == old(self).size(),
            final(self).limit() == old(self).limit(),
            final(self).pending() == old(self).pending().push(
                FileAction::Create(final(self).write_serial()),
            ),
            log_entries(final(self).segs()) == log_entries(old(self).segs()),
            final(self).segs().drop_last() == old(self).segs(),
            final(self).segs().last().serial == final(self).write_serial(),
    {
        let n = self.segments.len();
        let serial = self.segments[n - 1].serial + 1;
        let ghost before = self.segments@;
        self.segments.push(Segment { serial, data: Vec::new() });
        self.actions.push(FileAction::Create(serial));
        proof {
            let s = self.segments@;
            assert(s.drop_last() =~= before);
            assert(parse_records(Seq::<u8>::empty(), 0) == Some(Seq::<(int, OpModel)>::empty()));
            assert(seg_entries(serial, Seq::<(int, OpModel)>::empty()) =~= Seq::<(LogPointer, OpModel)>::empty());
            match log_entries(before) {
                Some(a) => {
                    assert(a + Seq::<(LogPointer, OpModel)>::empty() =~= a);
                },
                None => {},
            }
            assert(before[n - 1] == before.last());
            assert forall|i: int, j: int| 0 <= i < j < s.len() implies s[i].serial
                < s[j].serial by {
                if j == s.len() - 1 && i < n - 1 {
                    assert(before[i].serial < before[n - 1].serial);
                }
            }
        }
    }

    /// Appends `bytes` to the write segment, first moving to a fresh segment
    /// where the current one would outgrow the size limit, and returns where
    /// the bytes went.
    fn write_bytes(&mut self, bytes: Vec<u8>) -> (r: Result<LogPointer>)
        requires
            old(self).wf(),
        ensures
            final(self).wf(),
            final(self).limit() == old(self).limit(),
            r is Ok <==> old(self).has_room(bytes@.len()),
            r is Err ==> *final(self) == *old(self) && r == Err::<LogPointer, KVError>(
                KVError::WriteError("log storage is full"),
            ),
            r matches Ok(p) ==> {
                let rotated = old(self).will_rotate(bytes@.len());
                &&& p.file_serial == final(self).write_serial()
                &&& final(self).size() == old(self).size() + bytes@.len()
                &&& final(self).cur_len() == p.offset + bytes@.len()
                &&& rotated ==> final(self).write_serial() == old(self).write_serial() + 1
                    && p.offset == 0 && final(self).files() == old(self).files().insert(
                    p.file_serial,
                    bytes@,
                )
                &&& !rotated ==> final(self).write_serial() == old(self).write_serial()
                    && p.offset == old(self).cur_len() && final(self).files() == old(
                    self,
                ).files().insert(p.file_serial, old(self).files()[p.file_serial] + bytes@)
                &&& final(self).pending() == (if rotated {
                    old(self).pending().push(FileAction::Create(p.file_serial))
                } else {
                    old(self).pending()
                }).push(FileAction::Append(p.file_serial, final(self).pending().last()->Append_1))
                &&& final(self).pending().last()->Append_1@ == bytes@
                &&& final(self).segs().last().serial == p.file_serial
                &&& final(self).segs().last().data@ == (if rotated {
                    Seq::<u8>::empty()
                } else {
                    old(self).segs().last().data@
                }) + bytes@
                &&& rotated ==> final(self).segs().drop_last() == old(self).segs()
                &&& !rotated ==> final(self).segs().drop_last() == old(self).segs().drop_last()
            },
    {
        let n = self.segments.len();
        let serial = self.segments[n - 1].serial;
        if bytes.len() > usize::MAX - self.cur_storage_size || serial == usize::MAX {
            return Err(KVError::WriteError("log storage is full"));
        }
        proof {
            self.lemma_serials_bounded();
        }
        if bytes.len() > self.file_size_limit || self.segments[n - 1].data.len()
            > self.file_size_limit - bytes.len() {
            self.replace_write_file();
        }
        proof {
            self.lemma_serials_bounded();
        }
        let ghost mid = *self;
        let mut copy: Vec<u8> = Vec::new();
        push_bytes(&mut copy, bytes.as_slice());
        let mut bytes = bytes;
        let mut seg = self.segments.pop().unwrap();
        let serial = seg.serial;
        let offset = seg.data.len();
        seg.data.append(&mut bytes);
        self.segments.push(seg);
        self.cur_storage_size = self.cur_storage_size + copy.len();
        self.actions.push(FileAction::Append(serial, copy));
        proof {
            let s = self.segments@;
            let m = mid.segments@;
            assert(s.drop_last() =~= m.drop_last());
            assert(m[m.len() - 1] == m.last());
            assert(increasing(s)) by {
                assert forall|i: int, j: int| 0 <= i < j < s.len() implies s[i].serial
                    < s[j].serial by {
                    assert(m[i].serial < m[j].serial);
                }
            }
            assert(self.files() =~= mid.files().insert(serial, mid.files()[serial] + copy@));
            assert(Seq::<u8>::empty() + copy@ =~= copy@);
            assert(s.last().data@ == m.last().data@ + copy@);
            if old(self).will_rotate(copy@.len()) {
                assert(m.last().data@ == Seq::<u8>::empty());
                assert(s.drop_last() == old(self).segs());
            } else {
                assert(m == old(self).segs());
            }
        }
        Ok(LogPointer { file_serial: serial, offset })
    }

    /// Appends one record and returns where it went.
    #[verifier::rlimit(80)]
    pub fn write(&mut self, op: &Operation) -> (r: Result<LogPointer>)
        requires
            old(self).wf(),
        ensures
            final(self).wf(),
            final(self).limit() == old(self).limit(),
            r is Ok <==> old(self).has_room(encode_op(op@).len()),
            r is Err ==> *final(self) == *old(self) && r == Err::<LogPointer, KVError>(
                KVError::WriteError("log storage is full"),
            ),
            r matches Ok(p) ==> {
                let n = encode_op(op@).len();
                let rotated = old(self).will_rotate(n);
                &&& p.file_serial == final(self).write_serial()
                &&& final(self).size() == old(self).size() + n
                &&& final(self).cur_len() == p.offset + n
                &&& rotated ==> final(self).write_serial() == old(self).write_serial() + 1
                    && p.offset == 0 && final(self).files() == old(self).files().insert(
                    p.file_serial,
                    encode_op(op@),
                )
                &&& !rotated ==> final(self).write_serial() == old(self).write_serial()
                    && p.offset == old(self).cur_len() && final(self).files() == old(
                    self,
                ).files().insert(p.file_serial, old(self).files()[p.file_serial] + encode_op(op@))
                &&& final(self).record_at(p) == Some(op@)
                &&& forall|q: LogPointer| #[trigger]
                    old(self).record_at(q) is Some ==> final(self).record_at(q) == old(
                        self,
                    ).record_at(q)
                &&& final(self).pending() == (if rotated {
                    old(self).pending().push(FileAction::Create(p.file_serial))
                } else {
                    old(self).pending()
                }).push(FileAction::Append(p.file_serial, final(self).pending().last()->Append_1))
                &&& final(self).pending().last()->Append_1@ == encode_op(op@)
                &&& final(self).write_serial() >= old(self).write_serial()
                &&& final(self).files() == apply_actions(
                    old(self).files(),
                    final(self).pending().subrange(
                        old(self).pending().len() as int,
                        final(self).pending().len() as int,
                    ),
                )
                &&& final(self).pending().len() >= old(self).pending().len()
                &&& final(self).pending().subrange(0, old(self).pending().len() as int) == old(
                    self,
                ).pending()
                &&& final(self).write_serial() <= old(self).write_serial() + 1
                &&& log_entries(old(self).segs()) is Some ==> log_entries(final(self).segs())
                    == Some(log_entries(old(self).segs())->Some_0.push((p, op@)))
            },
    {
        let bytes = encode_record(op);
        proof {
            self.lemma_serials_bounded();
        }
        let r = self.write_bytes(bytes);
        proof {
            if r is Ok {
                let p = r->Ok_0;
                let enc = encode_op(op@);
                let f0 = old(self).files();
                let k0 = old(self).pending().len() as int;
                let suf = self.pending().subrange(k0, self.pending().len() as int);
                let b = self.pending().last()->Append_1;
                old(self).lemma_serials_bounded();
                let rot = old(self).will_rotate(enc.len());
                if rot {
                    assert(suf =~= seq![FileAction::Create(p.file_serial), FileAction::Append(p.file_serial, b)]);
                } else {
                    assert(suf =~= seq![FileAction::Append(p.file_serial, b)]);
                }
                lemma_one_write(f0, self.files(), suf, p.file_serial, b, rot);
                assert(self.pending().subrange(0, k0) =~= old(self).pending());
                let fs = self.segs();
                let os = old(self).segs();
                if old(self).will_rotate(enc.len()) {
                    lemma_op_round_trip(Seq::<u8>::empty(), op@, Seq::<u8>::empty());
                    assert(Seq::<u8>::empty() + enc + Seq::<u8>::empty() =~= enc);
                    assert(parse_records(Seq::<u8>::empty(), 0) == Some(Seq::<(int, OpModel)>::empty()));
                    lemma_records_append(Seq::<u8>::empty(), 0, op@);
                    assert(Seq::<u8>::empty() + enc =~= enc);
                    assert(fs.last().data@ =~= enc);
                    let recs = Seq::<(int, OpModel)>::empty().push((0int, op@));
                    assert(seg_entries(p.file_serial, recs) =~= seq![(p, op@)]);
                    match log_entries(os) {
                        Some(es) => {
                            assert(es + seq![(p, op@)] =~= es.push((p, op@)));
                        },
                        None => {},
                    }
                } else {
                    old(self).lemma_serials_bounded();
                    let od = os.last().data@;
                    match (log_entries(os.drop_last()), parse_records(od, 0)) {
                        (Some(a), Some(rs)) => {
                            lemma_records_append(od, 0, op@);
                            assert(seg_entries(p.file_serial, rs.push((od.len() as int, op@))) =~= seg_entries(p.file_serial, rs).push((p, op@)));
                            assert(a + seg_entries(p.file_serial, rs).push((p, op@)) =~= (a + seg_entries(p.file_serial, rs)).push((p, op@)));
                        },
                        _ => {},
                    }
                    let d = f0[p.file_serial];
                    lemma_op_round_trip(d, op@, Seq::<u8>::empty());
                    assert(d + enc + Seq::<u8>::empty() =~= d + enc);
                    assert forall|q: LogPointer| #[trigger]
                        old(self).record_at(q) is Some implies self.record_at(q) == old(
                            self,
                        ).record_at(q) by {
                        if q.file_serial == p.file_serial {
                            lemma_op_stable(d, enc, q.offset as int);
                        }
                    }
                }
            }
        }
        r
    }


    /// Drops the listed segments and starts a fresh write segment after the
    /// current one; returns the serials dropped.
    fn start_merge(&mut self, l: &Vec<usize>) -> (dropped: Vec<usize>)
        requires
            old(self).wf(),
            old(self).write_serial() < usize::MAX,
        ensures
            final(self).wf(),
            final(self).limit() == old(self).limit(),
            final(self).write_serial() == old(self).write_serial() + 1,
            final(self).files() == old(self).files().remove_keys(l@.to_set()).insert(
                final(self).write_serial(),
                Seq::<u8>::empty(),
            ),
            final(self).size() <= old(self).size(),
            forall|j: int| 0 <= j < dropped@.len() ==> #[trigger] l@.contains(dropped@[j])
                && old(self).files().contains_key(dropped@[j]),
            forall|x: usize| #[trigger]
                old(self).files().contains_key(x) && l@.contains(x) ==> dropped@.contains(x),
            final(self).pending() == old(self).pending().push(
                FileAction::Create(final(self).write_serial()),
            ),
            (forall|x: usize| #[trigger] old(self).files().contains_key(x) ==> l@.contains(x))
                ==> log_entries(final(self).segs()) == Some(Seq::<(LogPointer, OpModel)>::empty())
                && final(self).size() == 0,
    {
        let ghost lset = l@.to_set();
        let ghost all_listed = forall|x: usize| #[trigger] old(self).files().contains_key(x) ==> l@.contains(x);
        let n = self.segments.len();
        let ws = self.segments[n - 1].serial;
        let mut src: Vec<Segment> = Vec::new();
        std::mem::swap(&mut src, &mut self.segments);
        let ghost s0 = src@;
        let mut out: Vec<Segment> = Vec::new();
        let mut dropped: Vec<usize> = Vec::new();
        let mut total: usize = 0;
        let mut i: usize = 0;
        proof {
            lemma_seg_map(s0);
            if all_listed {
                assert forall|m: int| 0 <= m < n implies l@.contains(#[trigger] s0[m].serial) by {
                    assert(s0 == old(self).segs());
                    assert(seg_map_of(s0).contains_key(s0[m].serial));
                    assert(old(self).files().contains_key(s0[m].serial));
                }
            }
            assert(s0.subrange(0, 0) =~= Seq::<Segment>::empty());
            assert(seg_map_of(out@) =~= seg_map_of(s0.subrange(0, 0)).remove_keys(lset));
        }
        while i < n
            invariant
                n == s0.len(),
                src@ == s0,
                increasing(s0),
                ws == s0.last().serial,
                size_of(s0) <= usize::MAX,
                i <= n,
                seg_map_of(out@) == seg_map_of(s0.subrange(0, i as int)).remove_keys(lset),
                size_of(out@) <= size_of(s0.subrange(0, i as int)),
                total == size_of(out@),
                increasing(out@),
                forall|j: int, m: int|
                    0 <= j < out@.len() && i <= m < n ==> out@[j].serial < s0[m].serial,
                forall|j: int| 0 <= j < out@.len() ==> out@[j].serial <= ws,
                forall|j: int| 0 <= j < dropped@.len() ==> #[trigger] l@.contains(dropped@[j]),
                lset == l@.to_set(),
                all_listed ==> forall|m: int| 0 <= m < n ==> l@.contains(#[trigger] s0[m].serial),
                all_listed ==> out@.len() == 0,
                forall|m: int| 0 <= m < n ==> #[trigger] seg_map_of(s0).contains_key(s0[m].serial),
                forall|j: int| 0 <= j < dropped@.len() ==> seg_map_of(s0).contains_key(#[trigger] dropped@[j]),
                forall|m: int| 0 <= m < i && l@.contains(#[trigger] s0[m].serial) ==> dropped@.contains(s0[m].serial),
            decreases n - i,
        {
            let serial = src[i].serial;
            proof {
                assert(s0.subrange(0, i + 1).drop_last() =~= s0.subrange(0, i as int));
                assert(s0.subrange(0, i + 1).last() == s0[i as int]);
                lemma_size_prefix(s0, i + 1);
                if i < n - 1 {
                    assert(s0[i as int].serial < s0[n - 1].serial);
                }
                assert(s0[n - 1] == s0.last());
            }
            if listed(l, serial) {
                let ghost dbefore = dropped@;
                dropped.push(serial);
                proof {
                    assert forall|m: int| 0 <= m < i + 1 && l@.contains(#[trigger] s0[m].serial) implies dropped@.contains(s0[m].serial) by {
                        if m < i {
                            let j = choose|j: int| 0 <= j < dbefore.len() && dbefore[j] == s0[m].serial;
                            assert(dropped@[j] == s0[m].serial);
                        } else {
                            assert(dropped@[dbefore.len() as int] == s0[m].serial);
                        }
                    }
                    assert(seg_map_of(out@) =~= seg_map_of(s0.subrange(0, i + 1)).remove_keys(lset));
                }
            } else {
                let mut data: Vec<u8> = Vec::new();
                push_bytes(&mut data, src[i].data.as_slice());
                let ghost before = out@;
                total = total + data.len();
                out.push(Segment { serial, data });
                proof {
                    assert(out@.drop_last() =~= before);
                    assert(seg_map_of(out@) =~= seg_map_of(s0.subrange(0, i + 1)).remove_keys(lset));
                    assert forall|a: int, b: int| 0 <= a < b < out@.len() implies out@[a].serial
                        < out@[b].serial by {
                        if b < out@.len() - 1 {
                            assert(before[a].serial < before[b].serial);
                        }
                    }
                    assert forall|j: int, m: int|
                        0 <= j < out@.len() && i + 1 <= m < n implies out@[j].serial < s0[m].serial by {
                        if j < out@.len() - 1 {
                        } else {
                            assert(s0[i as int].serial < s0[m].serial);
                        }
                    }
                }
            }
            i = i + 1;
        }
        let ghost kept = out@;
        out.push(Segment { serial: ws + 1, data: Vec::new() });
        self.segments = out;
        self.cur_storage_size = total;
        self.actions.push(FileAction::Create(ws + 1));
        proof {
            let s = self.segments@;
            assert(s0.subrange(0, n as int) =~= s0);
            assert(s.drop_last() =~= kept);
            assert(s0 == old(self).segs());
            assert forall|x: usize| #[trigger]
                old(self).files().contains_key(x) && l@.contains(x) implies dropped@.contains(x) by {
                let m = choose|m: int| 0 <= m < s0.len() && s0[m].serial == x;
            }
            if all_listed {
                assert(kept =~= Seq::<Segment>::empty());
                assert(log_entries(kept) == Some(Seq::<(LogPointer, OpModel)>::empty()));
                assert(parse_records(Seq::<u8>::empty(), 0) == Some(Seq::<(int, OpModel)>::empty()));
                assert(seg_entries((ws + 1) as usize, Seq::<(int, OpModel)>::empty()) =~= Seq::<(LogPointer, OpModel)>::empty());
                assert(Seq::<(LogPointer, OpModel)>::empty() + Seq::<(LogPointer, OpModel)>::empty() =~= Seq::<(LogPointer, OpModel)>::empty());
                assert(size_of(kept) == 0);
            }
            assert forall|a: int, b: int| 0 <= a < b < s.len() implies s[a].serial < s[b].serial by {
                if b < s.len() - 1 {
                    assert(kept[a].serial < kept[b].serial);
                } else {
                    assert(kept[a].serial <= ws);
                }
            }
        }
        dropped
    }

    /// Appends records in order and returns where each went. Fails,
    /// changing nothing, where the counters leave no room for all of them.
    #[verifier::rlimit(80)]
    pub fn write_iter(&mut self, records: &Vec<Operation>) -> (r: Result<Vec<LogPointer>>)
        requires
            old(self).wf(),
        ensures
            final(self).wf(),
            final(self).limit() == old(self).limit(),
            r is Err ==> *final(self) == *old(self) && r == Err::<Vec<LogPointer>, KVError>(
                KVError::WriteError("log storage is full"),
            ),
            r is Ok <==> old(self).size() + total_len(records@) <= usize::MAX
                && old(self).write_serial() + records@.len() + 1 <= usize::MAX,
            r matches Ok(ptrs) ==> {
                &&& ptrs@.len() == records@.len()
                &&& forall|i: int|
                    0 <= i < ptrs@.len() ==> final(self).record_at(#[trigger] ptrs@[i]) == Some(
                        records@[i]@,
                    )
                &&& forall|q: LogPointer| #[trigger]
                    old(self).record_at(q) is Some ==> final(self).record_at(q) == old(
                        self,
                    ).record_at(q)
                &&& forall|x: usize|
                    #![trigger final(self).files().contains_key(x)]
                    x < old(self).write_serial() ==> (final(self).files().contains_key(x)
                        <==> old(self).files().contains_key(x))
                &&& final(self).write_serial() >= old(self).write_serial()
                &&& final(self).size() == old(self).size() + total_len(records@)
                &&& forall|i: int| 0 <= i < ptrs@.len() ==> (#[trigger] ptrs@[i]).file_serial >= old(self).write_serial()
                &&& forall|i: int, j: int|
                    0 <= i < j < ptrs@.len() ==> ptrs@[i].file_serial < ptrs@[j].file_serial || (
                    ptrs@[i].file_serial == ptrs@[j].file_serial && ptrs@[i].offset < ptrs@[j].offset)
                &&& final(self).files() == apply_actions(
                    old(self).files(),
                    final(self).pending().subrange(
                        old(self).pending().len() as int,
                        final(self).pending().len() as int,
                    ),
                )
                &&& final(self).pending().len() >= old(self).pending().len()
                &&& final(self).pending().subrange(0, old(self).pending().len() as int) == old(
                    self,
                ).pending()
                &&& writes_from(
                    final(self).pending().subrange(
                        old(self).pending().len() as int,
                        final(self).pending().len() as int,
                    ),
                    old(self).write_serial(),
                )
                &&& log_entries(old(self).segs()) is Some ==> log_entries(final(self).segs())
                    == Some(log_entries(old(self).segs())->Some_0 + Seq::new(
                    ptrs@.len(),
                    |i: int| (ptrs@[i], records@[i]@),
                ))
            },
    {
        let n = records.len();
        let ghost rs = records@;
        let total = match records_len(records) {
            Some(t) => t,
            None => return Err(KVError::WriteError("log storage is full")),
        };
        let m = self.segments.len();
        let ws = self.segments[m - 1].serial;
        if total > usize::MAX - self.cur_storage_size || ws > usize::MAX - 1 || n > usize::MAX - 1 - ws {
            return Err(KVError::WriteError("log storage is full"));
        }
        let ghost start = *self;
        let mut ptrs: Vec<LogPointer> = Vec::new();
        let mut i: usize = 0;
        proof {
            assert(self.pending().subrange(0, self.pending().len() as int) =~= self.pending());
            assert(self.pending().subrange(self.pending().len() as int, self.pending().len() as int) =~= Seq::<FileAction>::empty());
            assert(rs.subrange(0, n as int) =~= rs);
            if log_entries(start.segs()) is Some {
                let es = log_entries(start.segs())->Some_0;
                assert(es + Seq::new(0nat, |j: int| (ptrs@[j], rs[j]@)) =~= es);
            }
        }
        proof {
            assert(rs.subrange(n as int, n as int) =~= Seq::<Operation>::empty());
        }
        while i < n
            invariant
                self.wf(),
                self.limit() == start.limit(),
                n == rs.len(),
                rs == records@,
                i <= n,
                ws == start.write_serial(),
                ws + n + 1 <= usize::MAX,
                self.write_serial() <= ws + i,
                self.write_serial() >= ws,
                self.size() + total_len(rs.subrange(i as int, n as int)) <= usize::MAX,
                self.size() + total_len(rs.subrange(i as int, n as int)) == start.size() + total_len(rs),
                self.pending().len() >= start.pending().len(),
                forall|j: int| 0 <= j < i ==> (#[trigger] ptrs@[j]).file_serial >= ws,
                forall|a: int, b: int|
                    0 <= a < b < i ==> ptrs@[a].file_serial < ptrs@[b].file_serial || (
                    ptrs@[a].file_serial == ptrs@[b].file_serial && ptrs@[a].offset < ptrs@[b].offset),
                i > 0 ==> ptrs@[i - 1].file_serial < self.write_serial() || (ptrs@[i - 1].file_serial
                    == self.write_serial() && ptrs@[i - 1].offset < self.cur_len()),
                self.files() == apply_actions(
                    start.files(),
                    self.pending().subrange(start.pending().len() as int, self.pending().len() as int),
                ),
                self.pending().subrange(0, start.pending().len() as int) == start.pending(),
                writes_from(
                    self.pending().subrange(start.pending().len() as int, self.pending().len() as int),
                    ws,
                ),
                ptrs@.len() == i,
                forall|j: int| 0 <= j < i ==> self.record_at(#[trigger] ptrs@[j]) == Some(rs[j]@),
                forall|q: LogPointer| #[trigger]
                    start.record_at(q) is Some ==> self.record_at(q) == start.record_at(q),
                forall|x: usize|
                    #![trigger self.files().contains_key(x)]
                    x < ws ==> (self.files().contains_key(x) <==> start.files().contains_key(x)),
                log_entries(start.segs()) is Some ==> log_entries(self.segs()) == Some(
                    log_entries(start.segs())->Some_0 + Seq::new(i as nat, |j: int| (ptrs@[j], rs[j]@)),
                ),
            decreases n - i,
        {
            proof {
                assert(rs.subrange(i as int, n as int).drop_first() =~= rs.subrange(i + 1, n as int));
                assert(rs.subrange(i as int, n as int)[0] == rs[i as int]);
            }
            let ghost before = *self;
            let ghost before_ptrs = ptrs@;
            let p = self.write(&records[i]);
            let p = match p {
                Ok(p) => p,
                Err(e) => {
                    proof {
                        assert(false);
                    }
                    return Err(e);
                },
            };
            ptrs.push(p);
            proof {
                lemma_apply_extend(
                    start.files(),
                    start.pending().len() as int,
                    before.pending(),
                    self.pending(),
                    before.files(),
                    self.files(),
                );
                let k0 = start.pending().len() as int;
                let pb = before.pending();
                let pa = self.pending();
                assert(pa.subrange(0, k0) =~= start.pending()) by {
                    assert forall|j: int| 0 <= j < k0 implies pa[j] == pb[j] by {
                        assert(pb.subrange(0, k0)[j] == pb[j]);
                    }
                }
                assert(writes_from(pa.subrange(k0, pa.len() as int), ws)) by {
                    assert forall|j: int| 0 <= j < pa.len() - k0 implies match #[trigger] pa.subrange(k0, pa.len() as int)[j] {
                        FileAction::Create(x) => x >= ws,
                        FileAction::Append(x, _) => x >= ws,
                        FileAction::Delete(_) => false,
                    } by {
                        if k0 + j < pb.len() {
                            assert(pa[k0 + j] == pb[k0 + j]);
                            assert(pb.subrange(k0, pb.len() as int)[j] == pb[k0 + j]);
                        }
                    }
                }
                assert forall|j: int| 0 <= j < i + 1 implies self.record_at(#[trigger] ptrs@[j])
                    == Some(rs[j]@) by {
                    if j < i {
                        assert(ptrs@[j] == before_ptrs[j]);
                        assert(before.record_at(ptrs@[j]) is Some);
                    }
                }
                assert forall|q: LogPointer| #[trigger]
                    start.record_at(q) is Some implies self.record_at(q) == start.record_at(q) by {
                    assert(before.record_at(q) is Some);
                }
                if log_entries(start.segs()) is Some {
                    let es = log_entries(start.segs())->Some_0;
                    let mid = es + Seq::new(i as nat, |j: int| (before_ptrs[j], rs[j]@));
                    assert(log_entries(before.segs()) == Some(mid));
                    assert(mid.push((p, rs[i as int]@)) =~= es + Seq::new(
                        (i + 1) as nat,
                        |j: int| (ptrs@[j], rs[j]@),
                    ));
                }
            }
            i = i + 1;
        }
        assert(rs.subrange(n as int, n as int) =~= Seq::<Operation>::empty());
        Ok(ptrs)
    }

    /// Compacts the log: starts a fresh segment, writes `records` there in
    /// order, then drops the listed segments that were there before. Returns
    /// where each record went. Fails, changing nothing, where the counters
    /// leave no room for the records.
    pub fn merge(&mut self, file_serials: &Vec<usize>, records: &Vec<Operation>) -> (r: Result<
        Vec<LogPointer>,
    >)
        requires
            old(self).wf(),
        ensures
            final(self).wf(),
            final(self).limit() == old(self).limit(),
            r is Err ==> *final(self) == *old(self) && r == Err::<Vec<LogPointer>, KVError>(
                KVError::WriteError("log storage is full"),
            ),
            r is Ok <==> old(self).size() + total_len(records@) <= usize::MAX
                && old(self).write_serial() + records@.len() + 2 <= usize::MAX,
            r matches Ok(ptrs) ==> {
                &&& ptrs@.len() == records@.len()
                &&& forall|i: int|
                    0 <= i < ptrs@.len() ==> final(self).record_at(#[trigger] ptrs@[i]) == Some(
                        records@[i]@,
                    )
                &&& forall|x: usize|
                    #![trigger final(self).files().contains_key(x)]
                    x <= old(self).write_serial() ==> (final(self).files().contains_key(x)
                        <==> old(self).files().contains_key(x) && !file_serials@.contains(x))
                &&& final(self).write_serial() > old(self).write_serial()
                &&& (forall|x: usize| #[trigger] old(self).files().contains_key(x) ==> file_serials@.contains(x))
                    ==> log_entries(final(self).segs()) == Some(Seq::new(ptrs@.len(), |i: int| (ptrs@[i], records@[i]@)))
                    && final(self).size() == total_len(records@)
                &&& forall|i: int| 0 <= i < ptrs@.len() ==> (#[trigger] ptrs@[i]).file_serial > old(self).write_serial()
                &&& final(self).pending().len() > old(self).pending().len()
                &&& final(self).pending().subrange(0, old(self).pending().len() as int) == old(self).pending()
                &&& final(self).pending()[old(self).pending().len() as int] == FileAction::Create(
                    (old(self).write_serial() + 1) as usize,
                )
                &&& exists|j: int|
                    old(self).pending().len() < j <= final(self).pending().len() && #[trigger] writes_from(
                        final(self).pending().subrange(old(self).pending().len() + 1int, j),
                        (old(self).write_serial() + 1) as usize,
                    ) && forall|i: int|
                        j <= i < final(self).pending().len() ==> (#[trigger] final(self).pending()[i] matches FileAction::Delete(x)
                            && file_serials@.contains(x) && old(self).files().contains_key(x))
                &&& forall|x: usize| #[trigger] old(self).files().contains_key(x) && file_serials@.contains(x)
                    ==> final(self).pending().contains(FileAction::Delete(x))
                &&& final(self).files() == apply_actions(
                    old(self).files(),
                    final(self).pending().subrange(
                        old(self).pending().len() as int,
                        final(self).pending().len() as int,
                    ),
                )
            },
    {
        let n = records.len();
        let total = match records_len(records) {
            Some(t) => t,
            None => return Err(KVError::WriteError("log storage is full")),
        };
        let m = self.segments.len();
        let ws = self.segments[m - 1].serial;
        if total > usize::MAX - self.cur_storage_size || ws > usize::MAX - 2 || n > usize::MAX - 2 - ws {
            return Err(KVError::WriteError("log storage is full"));
        }
        let ghost all_listed = forall|x: usize| #[trigger] old(self).files().contains_key(x) ==> file_serials@.contains(x);
        let dropped = self.start_merge(file_serials);
        let ghost mid_files = self.files();
        proof {
            old(self).lemma_serials_bounded();
        }
        let ptrs = match self.write_iter(records) {
            Ok(p) => p,
            Err(e) => {
                proof {
                    assert(false);
                }
                return Err(e);
            },
        };
        proof {
            if all_listed {
                let z = Seq::new(ptrs@.len(), |i: int| (ptrs@[i], records@[i]@));
                assert(Seq::<(LogPointer, OpModel)>::empty() + z =~= z);
            }
        }
        let ghost segs_after = self.segments@;
        let ghost size_after = self.cur_storage_size;
        let ghost lim = self.file_size_limit;
        let ghost p2 = self.pending();
        let ghost n0 = old(self).pending().len() as int;
        proof {
            old(self).lemma_serials_bounded();
            assert forall|i: int| 0 <= i < ptrs@.len() implies (#[trigger] ptrs@[i]).file_serial > old(self).write_serial() by {
            }
            assert(p2[n0] == FileAction::Create((ws + 1) as usize)) by {
                assert(p2.subrange(0, n0 + 1)[n0] == p2[n0]);
            }
            assert(p2.subrange(0, n0) =~= old(self).pending()) by {
                assert forall|k: int| 0 <= k < n0 implies p2[k] == old(self).pending()[k] by {
                    assert(p2.subrange(0, n0 + 1)[k] == p2[k]);
                }
            }
            assert(p2.subrange(n0 + 1, p2.len() as int) =~= p2.subrange(n0 + 1, p2.len() as int));
        }
        let mut d: usize = 0;
        while d < dropped.len()
            invariant
                self.segments@ == segs_after,
                ptrs@.len() == n,
                self.cur_storage_size == size_after,
                self.file_size_limit == lim,
                d <= dropped@.len(),
                self.pending().len() == p2.len() + d,
                self.pending().subrange(0, p2.len() as int) == p2,
                forall|i: int| 0 <= i < d ==> self.pending()[p2.len() + i] == FileAction::Delete(dropped@[i]),
            decreases dropped@.len() - d,
        {
            let ghost pb = self.pending();
            self.actions.push(FileAction::Delete(dropped[d]));
            proof {
                assert(self.pending().subrange(0, p2.len() as int) =~= pb.subrange(0, p2.len() as int));
            }
            d = d + 1;
        }
        proof {
            let pf = self.pending();
            let j = p2.len() as int;
            assert forall|k: int| 0 <= k < j implies pf[k] == p2[k] by {
                assert(pf.subrange(0, j)[k] == pf[k]);
            }
            assert(pf.subrange(0, n0) =~= old(self).pending()) by {
                assert forall|k: int| 0 <= k < n0 implies pf[k] == old(self).pending()[k] by {
                    assert(p2.subrange(0, n0)[k] == p2[k]);
                }
            }
            assert(pf.subrange(n0 + 1, j) =~= p2.subrange(n0 + 1, j));
            assert(writes_from(pf.subrange(n0 + 1, j), (ws + 1) as usize));
            assert forall|i: int| j <= i < pf.len() implies (#[trigger] pf[i] matches FileAction::Delete(x)
                && file_serials@.contains(x) && old(self).files().contains_key(x)) by {
                assert(pf[j + (i - j)] == FileAction::Delete(dropped@[i - j]));
            }
            assert forall|x: usize| #[trigger] old(self).files().contains_key(x) && file_serials@.contains(x)
                implies pf.contains(FileAction::Delete(x)) by {
                let k = choose|k: int| 0 <= k < dropped@.len() && dropped@[k] == x;
                assert(pf[j + k] == FileAction::Delete(x));
            }
            let wseq = p2.subrange(n0 + 1, j);
            let dels = dropped@.map_values(|x: usize| FileAction::Delete(x));
            assert(pf.subrange(n0, pf.len() as int) =~= seq![FileAction::Create((ws + 1) as usize)] + wseq + dels) by {
                assert forall|i: int| 0 <= i < dels.len() implies pf[j + i] == dels[i] by {
                }
            }
            lemma_merge_effect(
                old(self).files(),
                mid_files,
                self.files(),
                ws,
                wseq,
                dropped@,
                file_serials@.to_set(),
            );
        }
        Ok(ptrs)
    }


    /// Takes over the segment files found on disk, by name and contents, and
    /// starts a fresh write segment after the highest serial (0 where there
    /// is none). Fails with `ParseError` on a name that is not a serial or a
    /// serial given twice.
    pub fn load(files: Vec<(String, Vec<u8>)>, file_size_limit: usize) -> (r: Result<LogStorage>)
        requires
            file_size_limit > 0,
        ensures
            r is Ok <==> load_ok(files@),
            !(all_serials(files@) && distinct_serials(files@)) ==> (r matches Err(
                KVError::ParseError(_),
            )),
            (all_serials(files@) && distinct_serials(files@) && !load_ok(files@)) ==> (r matches Err(
                KVError::IOError(_),
            )),
            r matches Ok(st) ==> {
                &&& st.wf()
                &&& st.limit() == file_size_limit
                &&& st.size() == files_len(files@)
                &&& st.files() == file_map(files@).insert(st.write_serial(), Seq::<u8>::empty())
                &&& !file_map(files@).contains_key(st.write_serial())
                &&& files@.len() == 0 ==> st.write_serial() == 0
                &&& files@.len() > 0 ==> exists|m: int|
                    0 <= m < files@.len() && serial_of(#[trigger] files@[m].0@) == Some(
                        (st.write_serial() - 1) as usize,
                    )
                &&& st.files().contains_key(st.write_serial())
                &&& st.files()[st.write_serial()] == Seq::<u8>::empty()
                &&& forall|m: int|
                    0 <= m < files@.len() ==> (serial_of(#[trigger] files@[m].0@) matches Some(x)
                        && x < st.write_serial() && st.files().contains_key(x) && st.files()[x]
                        == files@[m].1@)
                &&& forall|x: usize| #[trigger]
                    st.files().contains_key(x) ==> x == st.write_serial() || exists|m: int|
                        0 <= m < files@.len() && serial_of(#[trigger] files@[m].0@) == Some(x)
                &&& st.pending() == seq![FileAction::Create(st.write_serial())]
            },
    {
        let ghost fs = files@;
        let mut rest = files;
        let mut segs: Vec<Segment> = Vec::new();
        proof {
            assert(seg_map_of(segs@) =~= Map::<usize, Seq<u8>>::empty());
            assert(fs.subrange(fs.len() as int, fs.len() as int) =~= Seq::<(String, Vec<u8>)>::empty());
            assert(size_of(segs@) == 0);
        }
        while rest.len() > 0
            invariant
                fs == files@,
                rest@.len() <= fs.len(),
                forall|m: int| 0 <= m < rest@.len() ==> rest@[m] == fs[m],
                increasing(segs@),
                forall|m: int|
                    rest@.len() <= m < fs.len() ==> (serial_of(#[trigger] fs[m].0@) matches Some(x)
                        && seg_map_of(segs@).contains_key(x) && seg_map_of(segs@)[x] == fs[m].1@),
                forall|x: usize| #[trigger]
                    seg_map_of(segs@).contains_key(x) ==> exists|m: int|
                        rest@.len() <= m < fs.len() && serial_of(#[trigger] fs[m].0@) == Some(x),
                forall|a: int, b: int|
                    rest@.len() <= a < b < fs.len() ==> serial_of(#[trigger] fs[a].0@) != serial_of(
                        #[trigger] fs[b].0@,
                    ),
                seg_map_of(segs@) == file_map(fs.subrange(rest@.len() as int, fs.len() as int)),
                size_of(segs@) == files_len(fs.subrange(rest@.len() as int, fs.len() as int)),
            decreases rest@.len(),
        {
            let ghost k = rest@.len();
            match rest.pop() {
                None => {},
                Some((name, data)) => {
                    let serial = match parse_serial(name.as_str()) {
                        Some(x) => x,
                        None => {
                            assert(fs[k - 1] == (name, data));
                            assert(serial_of(fs[k - 1].0@) is None);
                            assert(!all_serials(fs));
                            return Err(KVError::ParseError("segment file name is not a serial"));
                        },
                    };
                    assert(fs[k - 1] == (name, data));
                    let ghost before = seg_map_of(segs@);
                    proof {
                        let sub = fs.subrange(k - 1, fs.len() as int);
                        assert(sub.drop_first() =~= fs.subrange(k as int, fs.len() as int));
                        assert(sub[0] == fs[k - 1]);
                    }
                    if !insert_segment(&mut segs, Segment { serial, data }) {
                        proof {
                            let m = choose|m: int| k <= m < fs.len() && serial_of(#[trigger] fs[m].0@) == Some(serial);
                            assert(serial_of(fs[k - 1].0@) == serial_of(fs[m].0@));
                        }
                        return Err(KVError::ParseError("two segment files share a serial"));
                    }
                    proof {
                        assert forall|m: int|
                            rest@.len() <= m < fs.len() implies (serial_of(#[trigger] fs[m].0@) matches Some(x)
                                && seg_map_of(segs@).contains_key(x) && seg_map_of(segs@)[x] == fs[m].1@) by {
                            if m >= k {
                                let x = serial_of(fs[m].0@)->Some_0;
                                assert(before.contains_key(x));
                            }
                        }
                        assert forall|x: usize| #[trigger]
                            seg_map_of(segs@).contains_key(x) implies exists|m: int|
                                rest@.len() <= m < fs.len() && serial_of(#[trigger] fs[m].0@) == Some(x) by {
                            if x != serial {
                                assert(before.contains_key(x));
                            } else {
                                assert(serial_of(fs[k - 1].0@) == Some(x));
                            }
                        }
                        assert forall|a: int, b: int|
                            rest@.len() <= a < b < fs.len() implies serial_of(#[trigger] fs[a].0@) != serial_of(
                                #[trigger] fs[b].0@,
                            ) by {
                            if a == k - 1 {
                                let x = serial_of(fs[b].0@)->Some_0;
                                assert(before.contains_key(x));
                            }
                        }
                    }
                },
            }
        }
        proof {
            assert(rest@.len() == 0);
            assert(fs.subrange(0, fs.len() as int) =~= fs);
            lemma_seg_map(segs@);
        }
        let n = segs.len();
        let serial = if n == 0 {
            0
        } else {
            let last = segs[n - 1].serial;
            if last == usize::MAX {
                proof {
                    assert(seg_map_of(segs@).contains_key(segs@[n - 1].serial));
                    let m = choose|m: int| 0 <= m < fs.len() && serial_of(#[trigger] fs[m].0@) == Some(last);
                }
                return Err(KVError::IOError("segment serials are exhausted"));
            }
            last + 1
        };
        proof {
            lemma_seg_map(segs@);
        }
        let ghost s0 = segs@;
        segs.push(Segment { serial, data: Vec::new() });
        proof {
            let s1 = segs@;
            assert(s1.drop_last() =~= s0);
            assert forall|a: int, b: int| 0 <= a < b < s1.len() implies s1[a].serial < s1[b].serial by {
                if b == s1.len() - 1 {
                    assert(s0[a].serial <= s0[n - 1].serial);
                    if a < n - 1 {
                        assert(s0[a].serial < s0[n - 1].serial);
                    }
                } else {
                    assert(s0[a].serial < s0[b].serial);
                }
            }
        }
        let ghost s1 = segs@;
        proof {
            assert(s1.drop_last() =~= s0);
            assert(size_of(s1) == size_of(s0));
            assert(all_serials(fs)) by {
                assert forall|m: int| 0 <= m < fs.len() implies #[trigger] serial_of(fs[m].0@) is Some by {
                    assert(rest@.len() <= m);
                }
            }
            assert(distinct_serials(fs));
        }
        let mut total: usize = 0;
        let mut i: usize = 0;
        while i < segs.len()
            invariant
                segs@ == s1,
                fs == files@,
                size_of(s1) == files_len(fs),
                all_serials(fs),
                distinct_serials(fs),
                i <= segs@.len(),
                total == size_of(segs@.subrange(0, i as int)),
            decreases segs@.len() - i,
        {
            proof {
                assert(segs@.subrange(0, i + 1).drop_last() =~= segs@.subrange(0, i as int));
            }
            if segs[i].data.len() > usize::MAX - total {
                proof {
                    lemma_size_prefix(segs@, i + 1);
                }
                return Err(KVError::IOError("segments are too large"));
            }
            total = total + segs[i].data.len();
            i = i + 1;
        }
        proof {
            assert(segs@.subrange(0, segs@.len() as int) =~= segs@);
            assert(segs@.drop_last() =~= s0);
        }
        let mut actions: Vec<FileAction> = Vec::new();
        actions.push(FileAction::Create(serial));
        let st = LogStorage { segments: segs, file_size_limit, cur_storage_size: total, actions };
        proof {
            let s1 = st.segments@;
            assert(seg_map_of(s1) == seg_map_of(s0).insert(serial, Seq::<u8>::empty()));
            assert(st.pending() =~= seq![FileAction::Create(serial)]);
            assert forall|m: int|
                0 <= m < fs.len() implies (serial_of(#[trigger] fs[m].0@) matches Some(x)
                    && x < st.write_serial() && st.files().contains_key(x) && st.files()[x]
                    == fs[m].1@) by {
                let x = serial_of(fs[m].0@)->Some_0;
                assert(seg_map_of(s0).contains_key(x));
                let a = choose|a: int| 0 <= a < s0.len() && s0[a].serial == x;
                if a < n - 1 {
                    assert(s0[a].serial < s0[n - 1].serial);
                }
            }
            assert(!file_map(fs).contains_key(serial)) by {
                if file_map(fs).contains_key(serial) {
                    let a = choose|a: int| 0 <= a < s0.len() && s0[a].serial == serial;
                    if a < n - 1 {
                        assert(s0[a].serial < s0[n - 1].serial);
                    }
                }
            }
            if fs.len() > 0 {
                assert(seg_map_of(s0).contains_key(s0[n - 1].serial));
                let m = choose|m: int| 0 <= m < fs.len() && serial_of(#[trigger] fs[m].0@) == Some(s0[n - 1].serial);
                assert(serial_of(fs[m].0@) == Some((serial - 1) as usize));
            } else {
                if n > 0 {
                    assert(seg_map_of(s0).contains_key(s0[0].serial));
                }
            }
        }
        Ok(st)
    }

    /// Every record of every segment, in replay order, each with its pointer.
    /// Fails with `ParseError` where a segment does not decode to the end.
    pub fn iter_entries(&self) -> (r: Result<Vec<(LogPointer, Operation)>>)
        requires
            self.wf(),
        ensures
            r is Ok <==> log_entries(self.segs()) is Some,
            r is Err ==> (r matches Err(KVError::ParseError(_))),
            r matches Ok(v) ==> entries_view(v@) == log_entries(self.segs())->Some_0,
            r matches Ok(v) ==> forall|i: int|
                0 <= i < v@.len() ==> self.record_at(#[trigger] v@[i].0) == Some(v@[i].1@),
    {
        let mut out: Vec<(LogPointer, Operation)> = Vec::new();
        let mut i: usize = 0;
        proof {
            lemma_seg_map(self.segments@);
            assert(self.segments@.subrange(0, 0) =~= Seq::<Segment>::empty());
            assert(entries_view(out@) =~= Seq::<(LogPointer, OpModel)>::empty());
        }
        while i < self.segments.len()
            invariant
                self.wf(),
                i <= self.segments@.len(),
                log_entries(self.segments@.subrange(0, i as int)) == Some(entries_view(out@)),
                forall|j: int|
                    0 <= j < out@.len() ==> self.record_at(#[trigger] out@[j].0) == Some(out@[j].1@),
            decreases self.segments@.len() - i,
        {
            let serial = self.segments[i].serial;
            let data = self.segments[i].data.as_slice();
            let ghost d = data@;
            proof {
                lemma_seg_map(self.segments@);
                assert(self.files().contains_key(self.segments@[i as int].serial));
            }
            let ghost base = entries_view(out@);
            let ghost mut done: Seq<(int, OpModel)> = Seq::empty();
            let mut off: usize = 0;
            proof {
                assert(done + parse_records(d, 0)->Some_0 =~= parse_records(d, 0)->Some_0);
            }
            while off < data.len()
                invariant
                    self.wf(),
                    i < self.segments@.len(),
                    d == self.segments@[i as int].data@,
                    serial == self.segments@[i as int].serial,
                    d == data@,
                    d == self.files()[serial],
                    self.files().contains_key(serial),
                    off <= d.len(),
                    parse_records(d, 0) == match parse_records(d, off as int) {
                        Some(rest) => Some(done + rest),
                        None => None,
                    },
                    entries_view(out@) == base + seg_entries(serial, done),
                    forall|j: int|
                        0 <= j < out@.len() ==> self.record_at(#[trigger] out@[j].0) == Some(out@[j].1@),
                decreases d.len() - off,
            {
                let (op, e) = match decode_record(data, off) {
                    Some(x) => x,
                    None => {
                        proof {
                            self.lemma_segment_spoils(i as int);
                        }
                        return Err(KVError::ParseError("segment holds a record that does not decode"));
                    },
                };
                if e <= off || e > data.len() {
                    proof {
                        self.lemma_segment_spoils(i as int);
                    }
                    return Err(KVError::ParseError("segment holds a record that does not decode"));
                }
                let ghost entry = (off as int, op@);
                let p = LogPointer { file_serial: serial, offset: off };
                let ghost before = out@;
                out.push((p, op));
                proof {
                    match parse_records(d, e as int) {
                        Some(rest) => {
                            assert(done + (seq![entry] + rest) =~= done.push(entry) + rest);
                        },
                        None => {},
                    }
                    assert(entries_view(out@) =~= entries_view(before).push((p, op@)));
                    assert(seg_entries(serial, done.push(entry)) =~= seg_entries(serial, done).push((p, op@)));
                    done = done.push(entry);
                    assert(entries_view(out@) =~= base + seg_entries(serial, done));
                    assert forall|j: int|
                        0 <= j < out@.len() implies self.record_at(#[trigger] out@[j].0) == Some(out@[j].1@) by {
                        if j < before.len() {
                            assert(out@[j] == before[j]);
                        }
                    }
                }
                off = e;
            }
            proof {
                assert(done + Seq::<(int, OpModel)>::empty() =~= done);
                let sub = self.segments@.subrange(0, i + 1);
                assert(sub.drop_last() =~= self.segments@.subrange(0, i as int));
                assert(sub.last() == self.segments@[i as int]);
            }
            i = i + 1;
        }
        proof {
            assert(self.segments@.subrange(0, self.segments@.len() as int) =~= self.segments@);
        }
        Ok(out)
    }

    /// The total size of all tracked segments.
    pub fn storage_size(&self) -> (r: usize)
        ensures
            r == self.size(),
            self.wf() ==> r == size_of(self.segs()),
    {
        self.cur_storage_size
    }

    /// The serials of all tracked segments, ascending.
    pub fn iter_read_files(&self) -> (r: Vec<usize>)
        requires
            self.wf(),
        ensures
            r@.len() == self.segs().len(),
            forall|i: int| 0 <= i < r@.len() ==> r@[i] == self.segs()[i].serial,
            forall|x: usize| self.files().contains_key(x) <==> r@.contains(x),
    {
        let mut r: Vec<usize> = Vec::new();
        let mut i: usize = 0;
        while i < self.segments.len()
            invariant
                i <= self.segments@.len(),
                r@.len() == i,
                forall|j: int| 0 <= j < i ==> r@[j] == self.segments@[j].serial,
            decreases self.segments@.len() - i,
        {
            r.push(self.segments[i].serial);
            i = i + 1;
        }
        proof {
            lemma_seg_map(self.segments@);
            assert forall|x: usize| self.files().contains_key(x) <==> r@.contains(x) by {
                if self.files().contains_key(x) {
                    let j = choose|j: int| 0 <= j < self.segments@.len() && self.segments@[j].serial == x;
                    assert(r@[j] == x);
                }
                if r@.contains(x) {
                    let j = choose|j: int| 0 <= j < r@.len() && r@[j] == x;
                    assert(self.segments@[j].serial == x);
                }
            }
        }
        r
    }

    /// Hands out the file operations recorded so far, oldest first.
    pub fn take_actions(&mut self) -> (r: Vec<FileAction>)
        ensures
            r@ == old(self).pending(),
            final(self).pending() == Seq::<FileAction>::empty(),
            final(self).segs() == old(self).segs(),
            final(self).size() == old(self).size(),
            final(self).limit() == old(self).limit(),
            final(self).wf() == old(self).wf(),
    {
        let mut r: Vec<FileAction> = Vec::new();
        std::mem::swap(&mut r, &mut self.actions);
        r
    }
}

impl LogPointer {
    /// Decodes the record this pointer names.
    pub fn read(&self, storage: &LogStorage) -> (r: Result<Operation>)
        requires
            storage.wf(),
        ensures
            match storage.record_at(*self) {
                Some(op) => r matches Ok(o) && o@ == op,
                None => if storage.has_bytes_at(*self) {
                    r matches Err(KVError::ParseError(_))
                } else {
                    r matches Err(KVError::ReadError(_))
                },
            },
    {
        let mut i: usize = 0;
        proof {
            lemma_seg_map(storage.segments@);
        }
        while i < storage.segments.len()
            invariant
                storage.wf(),
                i <= storage.segments@.len(),
                forall|j: int| 0 <= j < i ==> storage.segments@[j].serial != self.file_serial,
            decreases storage.segments@.len() - i,
        {
            if storage.segments[i].serial == self.file_serial {
                proof {
                    lemma_seg_map(storage.segments@);
                }
                assert(storage.files().contains_key(storage.segments@[i as int].serial));
                assert(storage.files()[self.file_serial] == storage.segments@[i as int].data@);
                if self.offset >= storage.segments[i].data.len() {
                    return Err(KVError::ReadError("LogPointer::read"));
                }
                return match decode_record(storage.segments[i].data.as_slice(), self.offset) {
                    Some((op, _)) => Ok(op),
                    None => Err(KVError::ParseError("LogPointer::read")),
                };
            }
            i = i + 1;
        }
        proof {
            lemma_seg_map(storage.segments@);
            if storage.files().contains_key(self.file_serial) {
                let j = choose|j: int|
                    0 <= j < storage.segments@.len() && storage.segments@[j].serial
                        == self.file_serial;
                assert(storage.segments@[j].serial != self.file_serial);
            }
        }
        Err(KVError::ReadError("LogPointer::read"))
    }
}

} // verus!
