//! The storage engine: the command log, the index over it, and the
//! interface that every engine offers.
use vstd::prelude::*;
use crate::codec::{Command, CommandView, spec_serialize, fits, serialize, deserialize, lemma_decode_serialize};
use crate::error::{KvsError, Result};
use crate::segments::{Location, Segment, SegmentLog, sealed_len, lemma_sealed_len_take};
use crate::replay::{strict_log, lemma_strict_log, lemma_strict_log_push, lemma_parse_append, recs_len, lemma_recs_len_take, apply_all, commands_of, parse_log, parse_segment, recover, scan_segment, lemma_apply_all_concat, lemma_apply_all_push};

verus! {

/// The operations of a key-value store engine.
pub trait KvsEngine: Sized {
    /// What the store holds: each live key and its value.
    spec fn contents(&self) -> Map<Seq<char>, Seq<char>>;

    /// The engine's internal consistency.
    spec fn inv(&self) -> bool;

    /// Gets the string value of a given string key.
    ///
    /// Returns `None` if the given key does not exist.
    fn get(&mut self, key: String) -> (r: Result<Option<String>>)
        requires
            old(self).inv(),
        ensures
            final(self).inv(),
            final(self).contents() == old(self).contents(),
            r matches Ok(o) ==> match old(self).contents().get(key@) {
                Some(v) => o matches Some(s) && s@ == v,
                None => o is None,
            },
    ;

    /// Sets the value of a string key to a string.
    ///
    /// If the key already exists, the previous value will be overwritten.
    fn set(&mut self, key: String, value: String) -> (r: Result<()>)
        requires
            old(self).inv(),
        ensures
            final(self).inv(),
            r is Ok ==> final(self).contents() == old(self).contents().insert(key@, value@),
            r is Err ==> final(self).contents() == old(self).contents(),
    ;

    /// Removes a given key.
    ///
    /// # Errors
    ///
    /// It returns `KvsError::KeyNotFound` if the given key is not found.
    fn remove(&mut self, key: String) -> (r: Result<()>)
        requires
            old(self).inv(),
        ensures
            final(self).inv(),
            !old(self).contents().contains_key(key@) ==> r matches Err(KvsError::KeyNotFound),
            r is Ok ==> final(self).contents() == old(self).contents().remove(key@),
            r is Err ==> final(self).contents() == old(self).contents(),
    ;
}

/// An index entry: a live key and the location of its latest `Put` record.
pub struct IndexEntry {
    pub key: String,
    pub loc: Location,
}

/// The index holds `k`.
pub open spec fn indexed(index: Seq<IndexEntry>, k: Seq<char>) -> bool {
    exists|i: int| 0 <= i < index.len() && #[trigger] index[i].key@ == k
}

/// Some entry of the index points at `loc`.
pub open spec fn located(index: Seq<IndexEntry>, loc: Location) -> bool {
    exists|i: int| 0 <= i < index.len() && #[trigger] index[i].loc == loc
}

/// The total length of the records that the index points at.
pub open spec fn live_len(index: Seq<IndexEntry>) -> int
    decreases index.len(),
{
    if index.len() == 0 {
        0
    } else {
        live_len(index.drop_last()) + index.last().loc.len
    }
}

proof fn lemma_live_len_update(index: Seq<IndexEntry>, i: int, e: IndexEntry)
    requires
        0 <= i < index.len(),
    ensures
        live_len(index.update(i, e)) == live_len(index) - index[i].loc.len + e.loc.len,
    decreases index.len(),
{
    if i < index.len() - 1 {
        assert(index.update(i, e).drop_last() =~= index.drop_last().update(i, e));
        lemma_live_len_update(index.drop_last(), i, e);
    } else {
        assert(index.update(i, e).drop_last() =~= index.drop_last());
    }
}

proof fn lemma_live_len_remove(index: Seq<IndexEntry>, i: int)
    requires
        0 <= i < index.len(),
    ensures
        live_len(index.remove(i)) == live_len(index) - index[i].loc.len,
    decreases index.len(),
{
    if i < index.len() - 1 {
        assert(index.remove(i).drop_last() =~= index.drop_last().remove(i));
        lemma_live_len_remove(index.drop_last(), i);
    } else {
        assert(index.remove(i) =~= index.drop_last());
    }
}

proof fn lemma_live_len_take(index: Seq<IndexEntry>, k: int)
    requires
        0 <= k <= index.len(),
    ensures
        0 <= live_len(index.take(k)) <= live_len(index),
        k < index.len() ==> live_len(index.take(k + 1)) == live_len(index.take(k))
            + index[k].loc.len,
    decreases index.len(),
{
    if k < index.len() {
        assert(index.take(k + 1).drop_last() =~= index.take(k));
        lemma_live_len_take(index.drop_last(), k);
        assert(index.drop_last().take(k) =~= index.take(k));
    } else {
        assert(index.take(k) =~= index);
        if index.len() > 0 {
            lemma_live_len_take(index.drop_last(), k - 1);
            assert(index.drop_last().take(k - 1) =~= index.drop_last());
        }
    }
}

/// Some record of `recs` lies at `loc`.
pub open spec fn recorded(recs: Seq<(Command, Location)>, loc: Location) -> bool {
    exists|i: int| 0 <= i < recs.len() && #[trigger] recs[i].1 == loc
}

/// The segments' ids follow one another, from the first one's.
pub open spec fn consecutive(segs: Seq<Segment>) -> bool {
    forall|i: int| 0 <= i < segs.len() ==> #[trigger] segs[i].id == segs[0].id + i
}

/// The bytes of each segment.
pub open spec fn segment_bytes(segs: Seq<Segment>) -> Seq<Seq<u8>> {
    segs.map_values(|s: Segment| s.data@)
}

/// The key that a command names.
pub open spec fn command_key(c: CommandView) -> Seq<char> {
    match c {
        CommandView::Put { key, .. } => key,
        CommandView::Remove { key } => key,
    }
}

/// `seg` holds one `Put` record for each key of `m`, with its value, and
/// nothing else.
pub open spec fn compacted(seg: Option<Seq<u8>>, m: Map<Seq<char>, Seq<char>>) -> bool {
    seg matches Some(d) && parse_segment(d, false) matches Some(cs) && apply_all(Map::empty(), cs)
        == m && (forall|i: int| 0 <= i < cs.len() ==> #[trigger] cs[i] is Put) && (forall|
        i: int,
        j: int,
    | 0 <= i < j < cs.len() ==> command_key(#[trigger] cs[i]) != command_key(#[trigger] cs[j]))
}

/// The log-structured engine.
pub struct KvStore {
    log: SegmentLog,
    index: Vec<IndexEntry>,
    stale: u64,
    compaction_threshold: u64,
    kv: Ghost<Map<Seq<char>, Seq<char>>>,
}

/// The record that a live key's index entry points at.
pub open spec fn put_record(k: Seq<char>, v: Seq<char>) -> Seq<u8> {
    spec_serialize(CommandView::Put { key: k, value: v })
}

impl View for KvStore {
    type V = Map<Seq<char>, Seq<char>>;

    closed spec fn view(&self) -> Map<Seq<char>, Seq<char>> {
        self.kv@
    }
}

impl KvStore {
    /// The index has one entry per live key, each pointing at a `Put`
    /// record of that key with its current value.
    pub closed spec fn index_ok(&self) -> bool {
        &&& self.log.wf()
        &&& forall|i: int, j: int|
            0 <= i < j < self.index@.len() ==> #[trigger] self.index@[i].key@
                != #[trigger] self.index@[j].key@
        &&& forall|k: Seq<char>| #[trigger]
            self.kv@.contains_key(k) <==> indexed(self.index@, k)
        &&& forall|i: int|
            0 <= i < self.index@.len() ==> {
                let e = #[trigger] self.index@[i];
                &&& self.log.bytes_at(e.loc) == Some(put_record(e.key@, self.kv@[e.key@]))
                &&& fits(CommandView::Put { key: e.key@, value: self.kv@[e.key@] })
            }
        &&& live_len(self.index@) <= self.log.total_len()
    }

    /// Replaying the log gives the contents.
    pub closed spec fn durable(&self) -> bool {
        strict_log(self.log.segs()) matches Some(cs) && apply_all(Map::empty(), cs) == self.kv@
    }

    /// The store is consistent: the index matches the log, and replaying
    /// the log gives the contents.
    pub closed spec fn wf(&self) -> bool {
        self.index_ok() && self.durable()
    }

    /// The bytes of every segment of the log, oldest first.
    pub closed spec fn log_view(&self) -> Seq<Seq<u8>> {
        self.log.segs()
    }

    /// Replaying the store's log, as recovery does on reopening, gives back
    /// exactly what the store holds.
    pub proof fn lemma_log_replays(&self)
        requires
            self.wf(),
        ensures
            recover(self.log_view()) == Some(self@),
    {
        lemma_strict_log(self.log.segs());
    }

    /// The number of bytes in the log.
    pub closed spec fn log_len(&self) -> int {
        self.log.total_len()
    }

    /// The bytes of the log's segment with id `id`, if it has one.
    pub closed spec fn segment_view(&self, id: u64) -> Option<Seq<u8>> {
        self.log.segment_data(id)
    }

    /// The id of the active segment.
    pub closed spec fn active_view(&self) -> u64 {
        self.log.active_id
    }

    /// The id of the oldest segment.
    pub closed spec fn first_view(&self) -> u64 {
        (self.log.active_id - self.log.sealed@.len()) as u64
    }

    /// The number of bytes in the log, or `u64::MAX` where that is more.
    pub fn log_size(&self) -> (r: u64)
        requires
            self.wf(),
        ensures
            r == if self.log_len() <= u64::MAX { self.log_len() } else { u64::MAX as int },
    {
        self.log.len()
    }

    /// The id of the segment that records are appended to.
    pub fn active_segment_id(&self) -> (r: u64)
        ensures
            r == self.active_view(),
    {
        self.log.active_id
    }

    /// The id of the oldest segment that the log still has.
    pub fn first_segment_id(&self) -> (r: u64)
        requires
            self.wf(),
        ensures
            r == self.first_view(),
    {
        self.log.active_id - self.log.sealed.len() as u64
    }

    /// The bytes of the segment with id `id`, if the log has it.
    pub fn segment(&self, id: u64) -> (r: Option<&Vec<u8>>)
        requires
            self.wf(),
        ensures
            match self.segment_view(id) {
                Some(d) => r matches Some(v) && v@ == d,
                None => r is None,
            },
    {
        self.log.segment(id)
    }

    /// An empty store whose active segment has id `first_id`.
    pub fn new(first_id: u64, max_segment_len: usize, compaction_threshold: u64) -> (r: KvStore)
        ensures
            r.wf(),
            r@ == Map::<Seq<char>, Seq<char>>::empty(),
    {
        let log = SegmentLog::new(first_id, max_segment_len);
        proof {
            assert(log.segs().len() == 1);
            assert(log.segs()[0] == Seq::<u8>::empty());
            assert(log.segs() =~= Seq::<Seq<u8>>::empty().push(Seq::empty()));
            lemma_strict_log_push(Seq::empty(), Seq::empty());
            assert(parse_segment(Seq::<u8>::empty(), false) == Some(Seq::<CommandView>::empty()));
            assert(Seq::<CommandView>::empty() + Seq::<CommandView>::empty() =~= Seq::<CommandView>::empty());
        }
        KvStore {
            log,
            index: Vec::new(),
            stale: 0,
            compaction_threshold,
            kv: Ghost(Map::empty()),
        }
    }

    /// Opens the store whose log is `segments`, oldest first: replays every
    /// record to rebuild the index. A record cut short at the end of the last
    /// segment is dropped from it; one anywhere else, a bad tag or bad text
    /// is an error, as are ids that do not follow one another. The last
    /// segment stays the active one.
    pub fn open(segments: Vec<Segment>, max_segment_len: usize, compaction_threshold: u64) -> (r:
        Result<KvStore>)
        ensures
            r is Ok <==> consecutive(segments@) && recover(segment_bytes(segments@)) is Some,
            r matches Ok(s) ==> s.wf() && recover(segment_bytes(segments@)) == Some(s@),
            !consecutive(segments@) ==> (r matches Err(KvsError::StringError(_))),
            consecutive(segments@) && r is Err ==> (r matches Err(KvsError::UnexpectedCommandType))
                || (r matches Err(KvsError::Utf8(_))),
    {
        let ghost datas = segment_bytes(segments@);
        let n = segments.len();
        if n == 0 {
            proof {
                assert(apply_all(Map::empty(), Seq::empty()) == Map::<Seq<char>, Seq<char>>::empty());
            }
            return Ok(KvStore::new(0, max_segment_len, compaction_threshold));
        }
        let first = segments[0].id;
        let mut j: usize = 1;
        while j < n
            invariant
                1 <= j <= n,
                n == segments@.len(),
                first == segments@[0].id,
                forall|i: int| 0 <= i < j ==> #[trigger] segments@[i].id == first + i,
            decreases n - j,
        {
            if segments[j].id < first || segments[j].id - first != j as u64 {
                return Err(KvsError::StringError(String::from_str("segment ids are not consecutive")));
            }
            j = j + 1;
        }
        let ghost all = segments@;
        let mut sealed = segments;
        let last = match sealed.pop() {
            Some(l) => l,
            None => return Ok(KvStore::new(0, max_segment_len, compaction_threshold)),
        };
        let mut store = KvStore {
            log: SegmentLog { sealed, active_id: last.id, active: last.data, max_segment_len },
            index: Vec::new(),
            stale: 0,
            compaction_threshold,
            kv: Ghost(Map::empty()),
        };
        let ghost active_id = store.log.active_id;
        let ghost sealed_view = store.log.sealed@;
        let ghost mut done: Seq<CommandView> = Seq::empty();
        proof {
            assert(datas.subrange(0, n as int) =~= datas);
            match parse_log(datas) {
                Some(r0) => {
                    assert(done + r0 =~= r0);
                },
                None => {},
            }
        }
        let mut s: usize = 0;
        proof {
            lemma_sealed_len_take(sealed_view, 0);
            assert(datas.take(0) =~= Seq::<Seq<u8>>::empty());
        }
        while s < store.log.sealed.len()
            invariant
                store.index_ok(),
                s <= n - 1,
                n == all.len(),
                datas == segment_bytes(all),
                all == segments@,
                consecutive(all),
                store.log.sealed@ == sealed_view,
                sealed_view.len() == n - 1,
                store.log.active_id == active_id,
                active_id == all[n - 1].id,
                store.log.active@ == all[n - 1].data@,
                forall|i: int| 0 <= i < n - 1 ==> sealed_view[i] == all[i],
                store.compaction_threshold == compaction_threshold,
                store@ == apply_all(Map::empty(), done),
                parse_log(datas) == match parse_log(datas.subrange(s as int, n as int)) {
                    Some(r) => Some(done + r),
                    None => None,
                },
                forall|j: int|
                    0 <= j < store.index@.len() ==> (#[trigger] store.index@[j]).loc.segment
                        < active_id,
                live_len(store.index@) <= sealed_len(sealed_view.take(s as int)),
                strict_log(datas.take(s as int)) == Some(done),
            decreases n - 1 - s,
        {
            let scanned = scan_segment(
                store.log.sealed[s].data.as_slice(),
                store.log.sealed[s].id,
                false,
            );
            let recs = match scanned {
                Err(e) => {
                    proof {
                        assert(datas.subrange(s as int, n as int)[0] == datas[s as int]);
                        assert(datas[s as int] == all[s as int].data@);
                        assert(store.log.sealed@[s as int].data@ == datas[s as int]);
                        let sub = datas.subrange(s as int, n as int);
                        assert(sub.len() > 1);
                        assert(parse_segment(sub[0], false) is None);
                        assert(parse_log(sub) is None);
                        assert(parse_log(datas) is None);
                        assert(recover(datas) is None);
                    }
                    return Err(e);
                },
                Ok((recs, _)) => recs,
            };
            let ghost before = store;
            proof {
                let sub = datas.subrange(s as int, n as int);
                assert(sub[0] == datas[s as int]);
                assert(datas[s as int] == all[s as int].data@);
                assert(store.log.sealed@[s as int].data@ == datas[s as int]);
                assert(sub.drop_first() =~= datas.subrange(s + 1, n as int));
                assert forall|j: int| 0 <= j < recs@.len() implies {
                    let (c, loc) = #[trigger] recs@[j];
                    &&& store.log.bytes_at(loc) == Some(spec_serialize(c@))
                    &&& fits(c@)
                } by {
                    let (c, loc) = recs@[j];
                    assert(store.log.sealed@[s as int].id == active_id - (n - 1) + s);
                }
                lemma_sealed_len_take(sealed_view, s as int);
                lemma_sealed_len_take(sealed_view, s + 1);
                assert(datas[s as int].subrange(0, datas[s as int].len() as int) =~= datas[s as int]);
                assert(datas.take(s + 1) =~= datas.take(s as int).push(datas[s as int]));
                lemma_strict_log_push(datas.take(s as int), datas[s as int]);
            }
            store.apply_records(&recs);
            proof {
                lemma_apply_all_concat(Map::empty(), done, commands_of(recs@));
                match parse_log(datas.subrange(s + 1, n as int)) {
                    Some(r) => {
                        assert(done + (commands_of(recs@) + r) =~= done + commands_of(recs@) + r);
                    },
                    None => {},
                }
                assert forall|j: int| 0 <= j < store.index@.len() implies (
                #[trigger] store.index@[j]).loc.segment < active_id by {
                    if located(before.index@, store.index@[j].loc) {
                        let i = choose|i: int|
                            0 <= i < before.index@.len() && #[trigger] before.index@[i].loc
                                == store.index@[j].loc;
                        assert(before.index@[i].loc.segment < active_id);
                    } else {
                        let i = choose|i: int|
                            0 <= i < recs@.len() && #[trigger] recs@[i].1 == store.index@[j].loc;
                        assert(recs@[i].1.segment == sealed_view[s as int].id);
                    }
                }
                done = done + commands_of(recs@);
            }
            s = s + 1;
        }
        let scanned = scan_segment(store.log.active.as_slice(), store.log.active_id, true);
        proof {
            let sub = datas.subrange(s as int, n as int);
            assert(s == n - 1);
            assert(sub[0] == datas[s as int]);
            assert(datas[s as int] == all[s as int].data@);
            assert(sub.drop_first() =~= Seq::<Seq<u8>>::empty());
            assert(parse_log(sub.drop_first()) == Some(Seq::<CommandView>::empty()));
        }
        let (recs, end) = match scanned {
            Err(e) => return Err(e),
            Ok(found) => found,
        };
        let ghost untruncated = store.log;
        store.log.active.truncate(end);
        proof {
            lemma_sealed_len_take(sealed_view, s as int);
            assert(sealed_view.take(s as int) =~= sealed_view);
            assert forall|j: int| 0 <= j < store.index@.len() implies {
                let e = #[trigger] store.index@[j];
                store.log.bytes_at(e.loc) == untruncated.bytes_at(e.loc)
            } by {
                assert(store.index@[j].loc.segment < active_id);
            }
            assert forall|j: int| 0 <= j < recs@.len() implies {
                let (c, loc) = #[trigger] recs@[j];
                &&& store.log.bytes_at(loc) == Some(spec_serialize(c@))
                &&& fits(c@)
            } by {
                let (c, loc) = recs@[j];
                assert(store.log.active@.subrange(loc.offset as int, loc.offset + loc.len)
                    =~= untruncated.active@.subrange(loc.offset as int, loc.offset + loc.len));
            }
        }
        store.apply_records(&recs);
        proof {
            lemma_apply_all_concat(Map::empty(), done, commands_of(recs@));
            assert(commands_of(recs@) + Seq::<CommandView>::empty() =~= commands_of(recs@));
            let pre = datas.take(s as int);
            let segs = store.log.segs();
            assert(segs.len() == pre.len() + 1);
            assert forall|i: int| 0 <= i < segs.len() implies segs[i] == pre.push(store.log.active@)[i] by {
                if i < pre.len() {
                    assert(sealed_view[i] == all[i]);
                }
            }
            assert(segs =~= pre.push(store.log.active@));
            lemma_strict_log_push(pre, store.log.active@);
        }
        Ok(store)
    }

    /// The position of `key` in the index.
    fn find(&self, key: &String) -> (r: Option<usize>)
        ensures
            r matches Some(i) ==> i < self.index@.len() && self.index@[i as int].key@ == key@,
            r is None ==> !indexed(self.index@, key@),
    {
        let mut i: usize = 0;
        while i < self.index.len()
            invariant
                i <= self.index@.len(),
                forall|j: int| 0 <= j < i ==> self.index@[j].key@ != key@,
            decreases self.index@.len() - i,
        {
            if self.index[i].key == *key {
                return Some(i);
            }
            i = i + 1;
        }
        None
    }

    /// Gets the value of `key`, or `None` where the store does not hold it.
    pub fn get(&mut self, key: String) -> (r: Result<Option<String>>)
        requires
            old(self).wf(),
        ensures
            *final(self) == *old(self),
            match old(self)@.get(key@) {
                Some(v) => r matches Ok(Some(s)) && s@ == v,
                None => r matches Ok(None),
            },
    {
        let i = match self.find(&key) {
            None => return Ok(None),
            Some(i) => i,
        };
        let ghost k = self.index@[i as int].key@;
        let ghost c = CommandView::Put { key: k, value: self.kv@[k] };
        let bytes = match self.log.read(self.index[i].loc) {
            Some(b) => b,
            None => return Err(KvsError::UnexpectedCommandType),
        };
        proof {
            lemma_decode_serialize(c, Seq::empty());
            assert(bytes@ + Seq::<u8>::empty() =~= bytes@);
        }
        match deserialize(bytes.as_slice()) {
            Ok(Some((Command::Put { key: _, value }, _))) => Ok(Some(value)),
            _ => Err(KvsError::UnexpectedCommandType),
        }
    }

    /// Appends the record of `cmd` to the log, first sealing the active
    /// segment if it is full.
    fn write(&mut self, cmd: &Command) -> (loc: Location)
        requires
            old(self).index_ok(),
        ensures
            final(self).index_ok(),
            final(self)@ == old(self)@,
            old(self).log.kept_in(&final(self).log),
            final(self).log.bytes_at(loc) == Some(spec_serialize(cmd@)),
            final(self).log.total_len() == old(self).log.total_len() + loc.len,
            fits(cmd@),
            strict_log(old(self).log.segs()) is Some ==> strict_log(final(self).log.segs()) == Some(
                strict_log(old(self).log.segs()).unwrap().push(cmd@),
            ),
            final(self).index == old(self).index,
            final(self).kv == old(self).kv,
            final(self).stale == old(self).stale,
            final(self).compaction_threshold == old(self).compaction_threshold,
    {
        let bytes = serialize(cmd);
        self.log.roll_if_needed();
        let ghost rolled = self.log;
        proof {
            if strict_log(old(self).log.segs()) is Some && rolled != old(self).log {
                let target = old(self).log.segs().push(Seq::empty());
                assert(rolled.segs().len() == target.len());
                assert forall|i: int| 0 <= i < target.len() implies rolled.segs()[i] == target[i] by {
                    if i < old(self).log.sealed@.len() {
                        assert(rolled.sealed@[i] == rolled.sealed@.drop_last()[i]);
                    }
                }
                assert(rolled.segs() =~= target);
                lemma_strict_log_push(old(self).log.segs(), Seq::empty());
                assert(parse_segment(Seq::<u8>::empty(), false) == Some(Seq::<CommandView>::empty()));
                assert(strict_log(old(self).log.segs()).unwrap() + Seq::<CommandView>::empty()
                    =~= strict_log(old(self).log.segs()).unwrap());
            }
        }
        let loc = self.log.append(bytes.as_slice());
        proof {
            if strict_log(rolled.segs()) is Some {
                let sealed = rolled.sealed@.map_values(|s: Segment| s.data@);
                assert(rolled.segs() == sealed.push(rolled.active@));
                assert(self.log.segs() =~= sealed.push(rolled.active@ + bytes@));
                lemma_strict_log_push(sealed, rolled.active@);
                lemma_strict_log_push(sealed, rolled.active@ + bytes@);
                lemma_parse_append(rolled.active@, cmd@);
                let x = strict_log(sealed).unwrap();
                let a = parse_segment(rolled.active@, false).unwrap();
                assert(x + a.push(cmd@) =~= (x + a).push(cmd@));
            }
        }
        assert forall|l: Location| #[trigger] old(self).log.bytes_at(l) is Some implies
            self.log.bytes_at(l) == old(self).log.bytes_at(l) by {
            assert(rolled.bytes_at(l) == old(self).log.bytes_at(l));
        }
        loc
    }

    /// Points the index entry of `key` at `loc`, a `Put` record of `key`
    /// with value `v`.
    fn index_put(&mut self, key: String, loc: Location, Ghost(v): Ghost<Seq<char>>)
        requires
            old(self).index_ok(),
            old(self).log.bytes_at(loc) == Some(put_record(key@, v)),
            fits(CommandView::Put { key: key@, value: v }),
            live_len(old(self).index@) + loc.len <= old(self).log.total_len(),
        ensures
            live_len(final(self).index@) <= live_len(old(self).index@) + loc.len,
            final(self).index_ok(),
            final(self)@ == old(self)@.insert(key@, v),
            final(self).log == old(self).log,
            final(self).compaction_threshold == old(self).compaction_threshold,
            forall|j: int|
                0 <= j < final(self).index@.len() ==> #[trigger] final(self).index@[j].loc == loc
                    || located(old(self).index@, final(self).index@[j].loc),
    {
        let ghost mid = *self;
        let ghost k = key@;
        match self.find(&key) {
            Some(i) => {
                self.stale = self.stale.saturating_add(self.index[i].loc.len as u64);
                let ghost before = self.index@;
                self.index[i] = IndexEntry { key, loc };
                proof {
                    lemma_live_len_update(before, i as int, self.index@[i as int]);
                }
            },
            None => {
                let ghost before = self.index@;
                self.index.push(IndexEntry { key, loc });
                proof {
                    assert(self.index@.drop_last() =~= before);
                }
            },
        }
        self.kv = Ghost(self.kv@.insert(k, v));
        proof {
            assert forall|j: int| 0 <= j < self.index@.len() implies {
                let e = #[trigger] self.index@[j];
                &&& self.log.bytes_at(e.loc) == Some(put_record(e.key@, self.kv@[e.key@]))
                &&& fits(CommandView::Put { key: e.key@, value: self.kv@[e.key@] })
            } by {
                if self.index@[j].key@ != k {
                    assert(mid.index@[j] == self.index@[j]);
                }
            }
            assert forall|j: int|
                0 <= j < self.index@.len() implies #[trigger] self.index@[j].loc == loc || located(
                mid.index@,
                self.index@[j].loc,
            ) by {
                if self.index@[j].loc != loc {
                    assert(mid.index@[j].loc == self.index@[j].loc);
                }
            }
            assert forall|kk: Seq<char>| #[trigger]
                self.kv@.contains_key(kk) <==> indexed(self.index@, kk) by {
                if mid.kv@.contains_key(kk) && kk != k {
                    let j = choose|j: int| 0 <= j < mid.index@.len() && #[trigger] mid.index@[j].key@ == kk;
                    assert(self.index@[j].key@ == kk);
                }
                if indexed(self.index@, kk) && kk != k {
                    let j = choose|j: int| 0 <= j < self.index@.len() && #[trigger] self.index@[j].key@ == kk;
                    assert(mid.index@[j].key@ == kk);
                }
                if kk == k {
                    assert(self.index@[self.index@.len() - 1].key@ == k || indexed(mid.index@, k));
                    if indexed(mid.index@, k) {
                        let j = choose|j: int| 0 <= j < mid.index@.len() && #[trigger] mid.index@[j].key@ == k;
                        assert(self.index@[j].key@ == k);
                    }
                }
            }
        }
    }

    /// Drops the index entry at position `i`.
    #[verifier::rlimit(30)]
    fn index_remove_at(&mut self, i: usize)
        requires
            old(self).index_ok(),
            i < old(self).index@.len(),
        ensures
            final(self).index_ok(),
            final(self)@ == old(self)@.remove(old(self).index@[i as int].key@),
            final(self).log == old(self).log,
            final(self).compaction_threshold == old(self).compaction_threshold,
            live_len(final(self).index@) <= live_len(old(self).index@),
            forall|j: int|
                0 <= j < final(self).index@.len() ==> located(
                    old(self).index@,
                    #[trigger] final(self).index@[j].loc,
                ),
    {
        let ghost mid = *self;
        let ghost k = self.index@[i as int].key@;
        let gone = self.index.remove(i);
        proof {
            lemma_live_len_remove(mid.index@, i as int);
        }
        self.stale = self.stale.saturating_add(gone.loc.len as u64);
        self.kv = Ghost(self.kv@.remove(k));
        proof {
            assert forall|j: int| 0 <= j < self.index@.len() implies {
                let e = #[trigger] self.index@[j];
                &&& self.log.bytes_at(e.loc) == Some(put_record(e.key@, self.kv@[e.key@]))
                &&& fits(CommandView::Put { key: e.key@, value: self.kv@[e.key@] })
            } by {
                let oj = if j < i { j } else { j + 1 };
                assert(mid.index@[oj] == self.index@[j]);
            }
            assert forall|j: int| 0 <= j < self.index@.len() implies located(
                mid.index@,
                #[trigger] self.index@[j].loc,
            ) by {
                let oj = if j < i { j } else { j + 1 };
                assert(mid.index@[oj] == self.index@[j]);
            }
            assert forall|kk: Seq<char>| #[trigger]
                self.kv@.contains_key(kk) <==> indexed(self.index@, kk) by {
                if mid.kv@.contains_key(kk) && kk != k {
                    let j = choose|j: int| 0 <= j < mid.index@.len() && #[trigger] mid.index@[j].key@ == kk;
                    if j < i {
                        assert(self.index@[j].key@ == kk);
                    } else {
                        assert(self.index@[j - 1].key@ == kk);
                    }
                }
                if indexed(self.index@, kk) {
                    let j = choose|j: int| 0 <= j < self.index@.len() && #[trigger] self.index@[j].key@ == kk;
                    let oj = if j < i { j } else { j + 1 };
                    assert(mid.index@[oj].key@ == kk);
                }
            }
        }
    }

    /// Sets `key` to `value`, overwriting any earlier value.
    pub fn set(&mut self, key: String, value: String) -> (r: Result<()>)
        requires
            old(self).wf(),
        ensures
            final(self).wf(),
            r is Ok,
            final(self)@ == old(self)@.insert(key@, value@),
    {
        let ghost v = value@;
        let cmd = Command::Put { key: key.clone(), value };
        let ghost before = *self;
        let loc = self.write(&cmd);
        self.index_put(key, loc, Ghost(v));
        proof {
            let cs = strict_log(before.log.segs()).unwrap();
            lemma_apply_all_push(Map::empty(), cs, cmd@);
        }
        self.compact_if_needed();
        Ok(())
    }

    /// Removes `key`; fails with `KeyNotFound`, changing nothing, where the
    /// store does not hold it.
    pub fn remove(&mut self, key: String) -> (r: Result<()>)
        requires
            old(self).wf(),
        ensures
            final(self).wf(),
            old(self)@.contains_key(key@) ==> r is Ok && final(self)@ == old(self)@.remove(key@),
            !old(self)@.contains_key(key@) ==> (r matches Err(KvsError::KeyNotFound)),
            !old(self)@.contains_key(key@) ==> *final(self) == *old(self),
    {
        let i = match self.find(&key) {
            None => return Err(KvsError::KeyNotFound),
            Some(i) => i,
        };
        let cmd = Command::Remove { key };
        let ghost before = *self;
        let loc = self.write(&cmd);
        self.index_remove_at(i);
        proof {
            let cs = strict_log(before.log.segs()).unwrap();
            lemma_apply_all_push(Map::empty(), cs, cmd@);
        }
        self.stale = self.stale.saturating_add(loc.len as u64);
        self.compact_if_needed();
        Ok(())
    }

    /// Applies the recorded commands `recs`, in order, to the index.
    fn apply_records(&mut self, recs: &Vec<(Command, Location)>)
        requires
            old(self).index_ok(),
            forall|j: int|
                0 <= j < recs@.len() ==> {
                    let (c, loc) = #[trigger] recs@[j];
                    &&& old(self).log.bytes_at(loc) == Some(spec_serialize(c@))
                    &&& fits(c@)
                },
            live_len(old(self).index@) + recs_len(recs@) <= old(self).log.total_len(),
        ensures
            final(self).index_ok(),
            final(self)@ == apply_all(old(self)@, commands_of(recs@)),
            live_len(final(self).index@) <= live_len(old(self).index@) + recs_len(recs@),
            final(self).log == old(self).log,
            final(self).compaction_threshold == old(self).compaction_threshold,
            forall|j: int|
                0 <= j < final(self).index@.len() ==> located(old(self).index@, #[trigger] final(self).index@[j].loc)
                    || recorded(recs@, final(self).index@[j].loc),
    {
        let mut n: usize = 0;
        assert forall|j: int| 0 <= j < self.index@.len() implies located(
            old(self).index@,
            #[trigger] self.index@[j].loc,
        ) by {
            assert(old(self).index@[j].loc == self.index@[j].loc);
        }
        assert(commands_of(recs@).take(0) =~= Seq::<CommandView>::empty());
        assert(recs@.take(0) =~= Seq::<(Command, Location)>::empty());
        while n < recs.len()
            invariant
                self.index_ok(),
                n <= recs@.len(),
                self@ == apply_all(old(self)@, commands_of(recs@).take(n as int)),
                live_len(self.index@) <= live_len(old(self).index@) + recs_len(recs@.take(n as int)),
                live_len(old(self).index@) + recs_len(recs@) <= old(self).log.total_len(),
                self.log == old(self).log,
                self.compaction_threshold == old(self).compaction_threshold,
                forall|j: int|
                    0 <= j < recs@.len() ==> {
                        let (c, loc) = #[trigger] recs@[j];
                        &&& old(self).log.bytes_at(loc) == Some(spec_serialize(c@))
                        &&& fits(c@)
                    },
                forall|j: int|
                    0 <= j < self.index@.len() ==> located(old(self).index@, #[trigger] self.index@[j].loc) || recorded(
                        recs@,
                        self.index@[j].loc,
                    ),
            decreases recs@.len() - n,
        {
            let ghost before = *self;
            let ghost c = recs@[n as int].0@;
            proof {
                lemma_recs_len_take(recs@, n as int);
                lemma_recs_len_take(recs@, n + 1);
            }
            let loc = recs[n].1;
            assert(recs@[n as int] == (recs@[n as int].0, recs@[n as int].1));
            match &recs[n].0 {
                Command::Put { key, value } => {
                    self.index_put(key.clone(), loc, Ghost(value@));
                },
                Command::Remove { key } => {
                    match self.find(key) {
                        Some(i) => {
                            self.index_remove_at(i);
                        },
                        None => {
                            assert(self@.remove(key@) =~= self@);
                        },
                    }
                },
            }
            proof {
                lemma_apply_all_push(old(self)@, commands_of(recs@).take(n as int), c);
                assert(commands_of(recs@).take(n + 1) =~= commands_of(recs@).take(n as int).push(c));
                assert forall|j: int|
                    0 <= j < self.index@.len() implies located(old(self).index@, #[trigger] self.index@[j].loc) || recorded(
                        recs@,
                        self.index@[j].loc,
                    ) by {
                    if self.index@[j].loc == loc {
                        assert(recs@[n as int].1 == self.index@[j].loc);
                    } else {
                        let i = choose|i: int|
                            0 <= i < before.index@.len() && #[trigger] before.index@[i].loc
                                == self.index@[j].loc;
                        assert(before.index@[i].loc == self.index@[j].loc);
                    }
                }
            }
            n = n + 1;
        }
        assert(commands_of(recs@).take(n as int) =~= commands_of(recs@));
        assert(recs@.take(n as int) =~= recs@);
    }

    /// Compacts the log once the superseded bytes pass the threshold.
    fn compact_if_needed(&mut self)
        requires
            old(self).wf(),
        ensures
            final(self).wf(),
            final(self)@ == old(self)@,
    {
        if self.stale > self.compaction_threshold {
            self.compact();
        }
    }

    /// Rewrites the record of every live key into one new segment, which
    /// becomes the active one, repoints the index at it and drops all
    /// earlier segments.
    pub fn compact(&mut self)
        requires
            old(self).wf(),
        ensures
            final(self).wf(),
            final(self)@ == old(self)@,
            final(self).log_len() <= old(self).log_len(),
            old(self).active_view() < u64::MAX ==> final(self).first_view()
                == final(self).active_view(),
            old(self).active_view() < u64::MAX ==> compacted(
                final(self).segment_view(final(self).active_view()),
                old(self)@,
            ),
    {
        if self.log.active_id == u64::MAX {
            return;
        }
        let new_id = self.log.active_id + 1;
        let mut data: Vec<u8> = Vec::new();
        let mut index: Vec<IndexEntry> = Vec::new();
        let mut i: usize = 0;
        let ghost mut cs: Seq<CommandView> = Seq::empty();
        while i < self.index.len()
            invariant
                self.wf(),
                i <= self.index@.len(),
                index@.len() == i,
                parse_segment(data@, false) == Some(cs),
                cs.len() == i,
                forall|j: int|
                    0 <= j < i ==> #[trigger] cs[j] == (CommandView::Put {
                        key: self.index@[j].key@,
                        value: self.kv@[self.index@[j].key@],
                    }),
                forall|k: Seq<char>| #[trigger]
                    apply_all(Map::empty(), cs).contains_key(k) <==> indexed(self.index@.take(i as int), k),
                forall|k: Seq<char>| #[trigger]
                    apply_all(Map::empty(), cs).contains_key(k) ==> apply_all(Map::empty(), cs)[k] == self.kv@[k],
                data@.len() == live_len(index@),
                live_len(index@) == live_len(self.index@.take(i as int)),
                forall|j: int|
                    0 <= j < i ==> {
                        let e = #[trigger] index@[j];
                        &&& e.key@ == self.index@[j].key@
                        &&& e.loc.segment == new_id
                        &&& e.loc.offset + e.loc.len <= data@.len()
                        &&& data@.subrange(e.loc.offset as int, e.loc.offset + e.loc.len)
                            == put_record(e.key@, self.kv@[e.key@])
                    },
            decreases self.index@.len() - i,
        {
            let entry = &self.index[i];
            let bytes = match self.log.read(entry.loc) {
                Some(b) => b,
                None => Vec::new(),
            };
            let offset = data.len();
            let ghost before = data@;
            let ghost before_index = index@;
            proof {
                lemma_live_len_take(self.index@, i as int);
            }
            crate::codec::push_bytes(&mut data, bytes.as_slice());
            proof {
                assert forall|j: int| 0 <= j < i implies {
                    let e = #[trigger] index@[j];
                    data@.subrange(e.loc.offset as int, e.loc.offset + e.loc.len)
                        == before.subrange(e.loc.offset as int, e.loc.offset + e.loc.len)
                } by {
                    let e = index@[j];
                    assert(data@.subrange(e.loc.offset as int, e.loc.offset + e.loc.len)
                        =~= before.subrange(e.loc.offset as int, e.loc.offset + e.loc.len));
                }
                assert(data@.subrange(offset as int, offset + bytes@.len()) =~= bytes@);
            }
            index.push(
                IndexEntry {
                    key: entry.key.clone(),
                    loc: Location { segment: new_id, offset, len: bytes.len() },
                },
            );
            assert(index@.drop_last() =~= before_index);
            proof {
                let e = self.index@[i as int];
                let c = CommandView::Put { key: e.key@, value: self.kv@[e.key@] };
                lemma_parse_append(before, c);
                lemma_apply_all_push(Map::empty(), cs, c);
                let old_cs = cs;
                cs = cs.push(c);
                let t0 = self.index@.take(i as int);
                let t1 = self.index@.take(i + 1);
                assert forall|k: Seq<char>| indexed(t1, k) <==> indexed(t0, k) || k == e.key@ by {
                    if indexed(t1, k) {
                        let j = choose|j: int| 0 <= j < t1.len() && #[trigger] t1[j].key@ == k;
                        if j < i {
                            assert(t0[j].key@ == k);
                        }
                    }
                    if indexed(t0, k) {
                        let j = choose|j: int| 0 <= j < t0.len() && #[trigger] t0[j].key@ == k;
                        assert(t1[j].key@ == k);
                    }
                    if k == e.key@ {
                        assert(t1[i as int].key@ == k);
                    }
                }
                assert forall|j: int| 0 <= j < i + 1 implies #[trigger] cs[j] == (CommandView::Put {
                    key: self.index@[j].key@,
                    value: self.kv@[self.index@[j].key@],
                }) by {
                    if j < i {
                        assert(cs[j] == old_cs[j]);
                    }
                }
            }
            i = i + 1;
        }
        let ghost kv = self.kv@;
        let ghost old_index = self.index@;
        proof {
            lemma_live_len_take(old_index, i as int);
            assert(old_index.take(i as int) =~= old_index);
            assert(apply_all(Map::empty(), cs) =~= kv);
            lemma_strict_log_push(Seq::empty(), data@);
            assert(Seq::<CommandView>::empty() + cs =~= cs);
        }
        self.log = SegmentLog {
            sealed: Vec::new(),
            active_id: new_id,
            active: data,
            max_segment_len: self.log.max_segment_len,
        };
        self.index = index;
        self.stale = 0;
        proof {
            assert(self.log.segs() =~= Seq::<Seq<u8>>::empty().push(self.log.active@));
            assert forall|a: int, b: int| 0 <= a < b < cs.len() implies command_key(cs[a]) != command_key(cs[b]) by {
                assert(old_index[a].key@ != old_index[b].key@);
            }
        }
        proof {
            assert forall|kk: Seq<char>| #[trigger]
                self.kv@.contains_key(kk) <==> indexed(self.index@, kk) by {
                if indexed(old_index, kk) {
                    let j = choose|j: int| 0 <= j < old_index.len() && #[trigger] old_index[j].key@ == kk;
                    assert(self.index@[j].key@ == kk);
                }
                if indexed(self.index@, kk) {
                    let j = choose|j: int| 0 <= j < self.index@.len() && #[trigger] self.index@[j].key@ == kk;
                    assert(old_index[j].key@ == kk);
                }
            }
            assert forall|a: int, b: int|
                0 <= a < b < self.index@.len() implies #[trigger] self.index@[a].key@
                != #[trigger] self.index@[b].key@ by {
                assert(old_index[a].key@ != old_index[b].key@);
            }
            assert forall|j: int| 0 <= j < self.index@.len() implies {
                let e = #[trigger] self.index@[j];
                &&& self.log.bytes_at(e.loc) == Some(put_record(e.key@, self.kv@[e.key@]))
                &&& fits(CommandView::Put { key: e.key@, value: self.kv@[e.key@] })
            } by {
                assert(old_index[j].key@ == self.index@[j].key@);
            }
        }
    }
}

impl KvsEngine for KvStore {
    closed spec fn contents(&self) -> Map<Seq<char>, Seq<char>> {
        self@
    }

    closed spec fn inv(&self) -> bool {
        self.wf()
    }

    fn get(&mut self, key: String) -> (r: Result<Option<String>>) {
        KvStore::get(self, key)
    }

    fn set(&mut self, key: String, value: String) -> (r: Result<()>) {
        KvStore::set(self, key, value)
    }

    fn remove(&mut self, key: String) -> (r: Result<()>) {
        KvStore::remove(self, key)
    }
}

} // verus!
