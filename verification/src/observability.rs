//! Vector clocks and happens-before race detection over execution traces.
use vstd::prelude::*;

use crate::error::SqliteGraphError;
use crate::hashing::{
    clock_map_clone, clock_map_entries, clock_map_get, clock_map_insert, clock_map_len,
    clock_map_new, clock_map_view, id_set_insert, id_set_new, id_set_view,
};

verus! {

/// A memory access: a read or a write.
#[derive(Debug, Clone, Copy, PartialEq, Eq, Hash, Structural)]
pub enum Operation {
    /// A read.
    Read,
    /// A write.
    Write,
}

impl Operation {
    /// "R" for a read, "W" for a write, as the `Display` form reads.
    pub fn to_string(&self) -> (s: String)
        ensures
            s@ == (match *self {
                Operation::Read => "R"@,
                Operation::Write => "W"@,
            }),
    {
        match self {
            Operation::Read => String::from_str("R"),
            Operation::Write => String::from_str("W"),
        }
    }
}

/// The clock of thread `t` in the map `m`: its entry, or 0 without one.
pub open spec fn clock_of(m: Map<i64, u64>, t: i64) -> nat {
    if m.contains_key(t) {
        m[t] as nat
    } else {
        0
    }
}

/// `a` happens before `b`: no clock of `a` is above that of `b`, and some clock is below.
pub open spec fn clock_before(a: Map<i64, u64>, b: Map<i64, u64>) -> bool {
    &&& forall|t: i64| clock_of(a, t) <= clock_of(b, t)
    &&& exists|t: i64| clock_of(a, t) < clock_of(b, t)
}

/// Neither of `a` and `b` happens before the other.
pub open spec fn clock_concurrent(a: Map<i64, u64>, b: Map<i64, u64>) -> bool {
    !clock_before(a, b) && !clock_before(b, a)
}

/// The larger of two naturals.
pub open spec fn max_nat(a: nat, b: nat) -> nat {
    if a >= b {
        a
    } else {
        b
    }
}

/// The merge of `b` into `a`: every thread of either, at the larger of its two clocks.
pub open spec fn clock_merge(a: Map<i64, u64>, b: Map<i64, u64>) -> Map<i64, u64> {
    Map::new(
        |t: i64| a.contains_key(t) || b.contains_key(t),
        |t: i64| max_nat(clock_of(a, t), clock_of(b, t)) as u64,
    )
}

/// A vector clock: a logical clock for each thread.
#[derive(Debug, PartialEq, Eq)]
pub struct VectorClock {
    clocks: ahash::AHashMap<i64, u64>,
}

impl View for VectorClock {
    type V = Map<i64, u64>;

    closed spec fn view(&self) -> Map<i64, u64> {
        clock_map_view(self.clocks)
    }
}

impl Clone for VectorClock {
    fn clone(&self) -> (c: Self)
        ensures
            c@ == self@,
    {
        VectorClock { clocks: clock_map_clone(&self.clocks) }
    }
}

impl Default for VectorClock {
    fn default() -> (c: Self)
        ensures
            c@ == Map::<i64, u64>::empty(),
    {
        VectorClock::new()
    }
}

impl VectorClock {
    /// A clock with no thread.
    pub fn new() -> (c: Self)
        ensures
            c@ == Map::<i64, u64>::empty(),
    {
        VectorClock { clocks: clock_map_new() }
    }

    /// The clock has no thread.
    pub fn is_empty(&self) -> (b: bool)
        ensures
            b == (self@.dom().len() == 0),
    {
        clock_map_len(&self.clocks) == 0
    }

    /// The clock of a thread (0 for a thread without one).
    pub fn get(&self, thread_id: i64) -> (c: u64)
        ensures
            c == clock_of(self@, thread_id),
    {
        match clock_map_get(&self.clocks, thread_id) {
            Some(c) => c,
            None => 0,
        }
    }

    /// Sets the clock of a thread.
    pub fn set(&mut self, thread_id: i64, clock: u64)
        ensures
            final(self)@ == old(self)@.insert(thread_id, clock),
    {
        clock_map_insert(&mut self.clocks, thread_id, clock);
    }

    /// Advances the clock of a thread by one.
    pub fn increment(&mut self, thread_id: i64)
        requires
            clock_of(old(self)@, thread_id) < u64::MAX,
        ensures
            final(self)@ == old(self)@.insert(thread_id, (clock_of(old(self)@, thread_id) + 1) as u64),
    {
        let c = self.get(thread_id);
        clock_map_insert(&mut self.clocks, thread_id, c + 1);
    }

    /// This clock with the clock of a thread advanced by one.
    pub fn incremented(self, thread_id: i64) -> (c: Self)
        requires
            clock_of(self@, thread_id) < u64::MAX,
        ensures
            c@ == self@.insert(thread_id, (clock_of(self@, thread_id) + 1) as u64),
    {
        let mut c = self;
        c.increment(thread_id);
        c
    }

    /// Raises every clock to at least that of `other`, adding the threads it lacks.
    pub fn merge(&mut self, other: &VectorClock)
        ensures
            final(self)@ == clock_merge(old(self)@, other@),
    {
        let entries = clock_map_entries(&other.clocks);
        let ghost a = self@;
        let ghost b = other@;
        let mut i: usize = 0;
        while i < entries.len()
            invariant
                a == old(self)@,
                b == other@,
                i <= entries@.len(),
                forall|x: int, y: int| 0 <= x < y < entries@.len() ==> entries@[x].0 != entries@[y].0,
                forall|x: int|
                    0 <= x < entries@.len() ==> b.contains_key(#[trigger] entries@[x].0) && b[entries@[x].0]
                        == entries@[x].1,
                forall|t: i64| #[trigger]
                    self@.contains_key(t) <==> a.contains_key(t) || exists|x: int|
                        0 <= x < i && entries@[x].0 == t,
                forall|t: i64| #[trigger]
                    clock_of(self@, t) == if exists|x: int| 0 <= x < i && entries@[x].0 == t {
                        max_nat(clock_of(a, t), clock_of(b, t))
                    } else {
                        clock_of(a, t)
                    },
            decreases entries.len() - i,
        {
            let (t, theirs) = entries[i];
            let mine = self.get(t);
            let m = if mine >= theirs {
                mine
            } else {
                theirs
            };
            let ghost s0 = self@;
            clock_map_insert(&mut self.clocks, t, m);
            proof {
                assert forall|u: i64| #[trigger]
                    self@.contains_key(u) <==> a.contains_key(u) || exists|x: int|
                        0 <= x < i + 1 && entries@[x].0 == u by {
                    if u == t {
                        assert(entries@[i as int].0 == u);
                    } else if exists|x: int| 0 <= x < i + 1 && entries@[x].0 == u {
                        let x = choose|x: int| 0 <= x < i + 1 && entries@[x].0 == u;
                        assert(x < i);
                    }
                    assert(s0.contains_key(u) <==> a.contains_key(u) || exists|x: int|
                        0 <= x < i && entries@[x].0 == u);
                }
                assert forall|u: i64| #[trigger]
                    clock_of(self@, u) == if exists|x: int| 0 <= x < i + 1 && entries@[x].0 == u {
                        max_nat(clock_of(a, u), clock_of(b, u))
                    } else {
                        clock_of(a, u)
                    } by {
                    assert(clock_of(s0, u) == if exists|x: int| 0 <= x < i && entries@[x].0 == u {
                        max_nat(clock_of(a, u), clock_of(b, u))
                    } else {
                        clock_of(a, u)
                    });
                    if u == t {
                        assert(entries@[i as int].0 == u);
                        assert(b.contains_key(u));
                        if exists|x: int| 0 <= x < i && entries@[x].0 == u {
                            let x = choose|x: int| 0 <= x < i && entries@[x].0 == u;
                            assert(entries@[x].0 != entries@[i as int].0);
                        }
                    } else if exists|x: int| 0 <= x < i + 1 && entries@[x].0 == u {
                        let x = choose|x: int| 0 <= x < i + 1 && entries@[x].0 == u;
                        assert(x < i);
                    }
                }
            }
            i = i + 1;
        }
        proof {
            assert forall|t: i64| b.contains_key(t) implies exists|x: int|
                0 <= x < entries@.len() && entries@[x].0 == t by {
                let x = choose|x: int| 0 <= x < entries@.len() && #[trigger] entries@[x].0 == t;
            }
            assert forall|t: i64| #[trigger] self@.contains_key(t) implies self@[t] == clock_merge(a, b)[t] by {
                assert(clock_of(self@, t) == self@[t] as nat);
                if !exists|x: int| 0 <= x < entries@.len() && entries@[x].0 == t {
                    assert(!b.contains_key(t));
                }
            }
            assert(self@ =~= clock_merge(a, b));
        }
    }

    /// This clock happens before `other`.
    pub fn happens_before(&self, other: &VectorClock) -> (r: bool)
        ensures
            r == clock_before(self@, other@),
    {
        let a = clock_map_entries(&self.clocks);
        let mut found_strictly_less = false;
        let ghost sa = self@;
        let ghost sb = other@;
        let mut i: usize = 0;
        while i < a.len()
            invariant
                sa == self@,
                sb == other@,
                i <= a@.len(),
                forall|x: int|
                    0 <= x < a@.len() ==> sa.contains_key(#[trigger] a@[x].0) && sa[a@[x].0] == a@[x].1,
                forall|x: int| 0 <= x < i ==> clock_of(sa, #[trigger] a@[x].0) <= clock_of(sb, a@[x].0),
                found_strictly_less <==> exists|x: int|
                    0 <= x < i && clock_of(sa, #[trigger] a@[x].0) < clock_of(sb, a@[x].0),
            decreases a.len() - i,
        {
            let (t, mine) = a[i];
            let theirs = other.get(t);
            if mine > theirs {
                proof {
                    assert(clock_of(sa, t) > clock_of(sb, t));
                }
                return false;
            }
            if mine < theirs {
                found_strictly_less = true;
            }
            proof {
                if found_strictly_less {
                    if mine < theirs {
                        assert(clock_of(sa, a@[i as int].0) < clock_of(sb, a@[i as int].0));
                    }
                }
            }
            i = i + 1;
        }
        let b = clock_map_entries(&other.clocks);
        let mut j: usize = 0;
        while j < b.len()
            invariant
                sa == self@,
                sb == other@,
                j <= b@.len(),
                forall|x: int|
                    0 <= x < b@.len() ==> sb.contains_key(#[trigger] b@[x].0) && sb[b@[x].0] == b@[x].1,
                forall|t: i64| sa.contains_key(t) ==> clock_of(sa, t) <= clock_of(sb, t),
                found_strictly_less <==> (exists|t: i64|
                    sa.contains_key(t) && #[trigger] clock_of(sa, t) < clock_of(sb, t)) || (exists|x: int|
                    0 <= x < j && !sa.contains_key(#[trigger] b@[x].0) && 0 < b@[x].1),
            decreases b.len() - j,
        {
            let (t, theirs) = b[j];
            let ghost before = found_strictly_less;
            if !self.contains(t) {
                if 0 < theirs {
                    found_strictly_less = true;
                }
            }
            proof {
                if found_strictly_less && !before {
                    assert(!sa.contains_key(b@[j as int].0) && 0 < b@[j as int].1);
                }
            }
            j = j + 1;
        }
        proof {
            let all = clock_before(sa, sb);
            assert forall|t: i64| clock_of(sa, t) <= clock_of(sb, t) by {
                if sa.contains_key(t) {
                } else {
                }
            }
            if found_strictly_less {
                if exists|t: i64| sa.contains_key(t) && #[trigger] clock_of(sa, t) < clock_of(sb, t) {
                    let t = choose|t: i64| sa.contains_key(t) && #[trigger] clock_of(sa, t) < clock_of(sb, t);
                    assert(clock_of(sa, t) < clock_of(sb, t));
                } else {
                    let x = choose|x: int|
                        0 <= x < b@.len() && !sa.contains_key(#[trigger] b@[x].0) && 0 < b@[x].1;
                    assert(clock_of(sa, b@[x].0) < clock_of(sb, b@[x].0));
                }
            } else {
                assert forall|t: i64| !(clock_of(sa, t) < clock_of(sb, t)) by {
                    if sa.contains_key(t) {
                    } else if sb.contains_key(t) {
                        let x = choose|x: int| 0 <= x < b@.len() && #[trigger] b@[x].0 == t;
                        assert(sb.contains_key(b@[x].0));
                    }
                }
            }
        }
        found_strictly_less
    }

    /// The clock has an entry for the thread.
    fn contains(&self, thread_id: i64) -> (b: bool)
        ensures
            b == self@.contains_key(thread_id),
    {
        match clock_map_get(&self.clocks, thread_id) {
            Some(_) => true,
            None => false,
        }
    }

    /// Neither clock happens before the other.
    pub fn is_concurrent(&self, other: &VectorClock) -> (r: bool)
        ensures
            r == clock_concurrent(self@, other@),
    {
        !self.happens_before(other) && !other.happens_before(self)
    }

    /// The threads that have an entry, each once, in the clock's own order.
    pub fn threads(&self) -> (v: Vec<i64>)
        ensures
            v@.no_duplicates(),
            forall|t: i64| v@.contains(t) <==> self@.contains_key(t),
    {
        let entries = clock_map_entries(&self.clocks);
        let mut v: Vec<i64> = Vec::new();
        let mut i: usize = 0;
        while i < entries.len()
            invariant
                i <= entries@.len(),
                v@.len() == i,
                forall|x: int| 0 <= x < i ==> v@[x] == entries@[x].0,
            decreases entries.len() - i,
        {
            v.push(entries[i].0);
            i = i + 1;
        }
        proof {
            assert forall|t: i64| v@.contains(t) <==> self@.contains_key(t) by {
                if v@.contains(t) {
                    let x = choose|x: int| 0 <= x < v@.len() && v@[x] == t;
                    assert(entries@[x].0 == t);
                }
                if self@.contains_key(t) {
                    let x = choose|x: int| 0 <= x < entries@.len() && #[trigger] entries@[x].0 == t;
                    assert(v@[x] == t);
                }
            }
        }
        v
    }

    /// The number of threads that have an entry.
    pub fn len(&self) -> (n: usize)
        ensures
            n == self@.dom().len(),
    {
        clock_map_len(&self.clocks)
    }
}

/// Happening before is irreflexive: no clock happens before itself.
pub proof fn lemma_clock_before_irreflexive(a: Map<i64, u64>)
    ensures
        !clock_before(a, a),
{
}

/// Happening before is asymmetric: of two clocks, at most one happens before the other.
pub proof fn lemma_clock_before_asymmetric(a: Map<i64, u64>, b: Map<i64, u64>)
    ensures
        !(clock_before(a, b) && clock_before(b, a)),
{
    if clock_before(a, b) && clock_before(b, a) {
        let t = choose|t: i64| clock_of(a, t) < clock_of(b, t);
        assert(clock_of(b, t) <= clock_of(a, t));
    }
}

/// Happening before is transitive.
pub proof fn lemma_clock_before_transitive(a: Map<i64, u64>, b: Map<i64, u64>, c: Map<i64, u64>)
    requires
        clock_before(a, b),
        clock_before(b, c),
    ensures
        clock_before(a, c),
{
    let t = choose|t: i64| clock_of(a, t) < clock_of(b, t);
    assert(clock_of(b, t) <= clock_of(c, t));
    assert forall|u: i64| clock_of(a, u) <= clock_of(c, u) by {
        assert(clock_of(a, u) <= clock_of(b, u));
        assert(clock_of(b, u) <= clock_of(c, u));
    }
}

/// Concurrency is symmetric.
pub proof fn lemma_clock_concurrent_symmetric(a: Map<i64, u64>, b: Map<i64, u64>)
    ensures
        clock_concurrent(a, b) == clock_concurrent(b, a),
{
}

/// A merge is the least upper bound of the two clocks: each clock of the merge is the
/// larger of the two, so neither input is above the merge anywhere.
pub proof fn lemma_clock_merge_upper_bound(a: Map<i64, u64>, b: Map<i64, u64>)
    ensures
        forall|t: i64|
            #[trigger] clock_of(clock_merge(a, b), t) == max_nat(clock_of(a, t), clock_of(b, t)),
        forall|t: i64| clock_of(a, t) <= #[trigger] clock_of(clock_merge(a, b), t),
        forall|t: i64| clock_of(b, t) <= #[trigger] clock_of(clock_merge(a, b), t),
{
    assert forall|t: i64| #[trigger]
        clock_of(clock_merge(a, b), t) == max_nat(clock_of(a, t), clock_of(b, t)) by {
        if a.contains_key(t) || b.contains_key(t) {
            assert(clock_merge(a, b).contains_key(t));
            assert(a.contains_key(t) ==> a[t] <= u64::MAX);
            assert(b.contains_key(t) ==> b[t] <= u64::MAX);
        }
    }
}

/// Merging is commutative.
pub proof fn lemma_clock_merge_commutative(a: Map<i64, u64>, b: Map<i64, u64>)
    ensures
        clock_merge(a, b) == clock_merge(b, a),
{
    assert(clock_merge(a, b) =~= clock_merge(b, a));
}

/// Advancing the clock of a thread yields a clock that the old one happens before.
pub proof fn lemma_increment_happens_after(a: Map<i64, u64>, t: i64)
    requires
        clock_of(a, t) < u64::MAX,
    ensures
        clock_before(a, a.insert(t, (clock_of(a, t) + 1) as u64)),
{
    let b = a.insert(t, (clock_of(a, t) + 1) as u64);
    assert(clock_of(a, t) < clock_of(b, t));
    assert forall|u: i64| clock_of(a, u) <= clock_of(b, u) by {
        if u != t {
            assert(a.contains_key(u) == b.contains_key(u));
        }
    }
}

/// An event of an execution trace: a thread's access to a memory location, with the
/// vector clock of the thread at that point.
#[derive(Debug, Clone, PartialEq, Eq)]
pub struct TraceEvent {
    /// The id of the event.
    pub event_id: i64,
    /// The thread that made the access.
    pub thread_id: i64,
    /// The kind of access.
    pub operation: Operation,
    /// The location accessed.
    pub memory_location: i64,
    /// The clock of the thread at the access.
    pub vector_clock: VectorClock,
}

/// Two events agree in every field, their clocks by view.
pub open spec fn same_event(a: TraceEvent, b: TraceEvent) -> bool {
    &&& a.event_id == b.event_id
    &&& a.thread_id == b.thread_id
    &&& a.operation == b.operation
    &&& a.memory_location == b.memory_location
    &&& a.vector_clock@ == b.vector_clock@
}

/// A copy of an event.
fn copy_event(e: &TraceEvent) -> (c: TraceEvent)
    ensures
        same_event(c, *e),
{
    TraceEvent {
        event_id: e.event_id,
        thread_id: e.thread_id,
        operation: e.operation,
        memory_location: e.memory_location,
        vector_clock: e.vector_clock.clone(),
    }
}

impl TraceEvent {
    /// An event with the given fields.
    pub fn new(
        event_id: i64,
        thread_id: i64,
        operation: Operation,
        memory_location: i64,
        vector_clock: VectorClock,
    ) -> (e: Self)
        ensures
            e == (TraceEvent { event_id, thread_id, operation, memory_location, vector_clock }),
    {
        TraceEvent { event_id, thread_id, operation, memory_location, vector_clock }
    }

    /// An event whose clock has the thread at 1 and nothing else.
    pub fn with_thread(event_id: i64, thread_id: i64, operation: Operation, memory_location: i64) -> (e: Self)
        ensures
            e.event_id == event_id,
            e.thread_id == thread_id,
            e.operation == operation,
            e.memory_location == memory_location,
            e.vector_clock@ == Map::<i64, u64>::empty().insert(thread_id, 1),
    {
        TraceEvent {
            event_id,
            thread_id,
            operation,
            memory_location,
            vector_clock: VectorClock::new().incremented(thread_id),
        }
    }
}

/// The outcome of a happens-before analysis.
#[derive(Debug, Clone)]
pub struct HappensBeforeResult {
    /// The pairs of conflicting events that no ordering separates.
    pub concurrent_pairs: Vec<(TraceEvent, TraceEvent)>,
    /// The number of events analysed.
    pub total_events: usize,
    /// The number of pairs in `concurrent_pairs`.
    pub conflicts_detected: usize,
}

impl HappensBeforeResult {
    /// A result for these pairs.
    fn new(concurrent_pairs: Vec<(TraceEvent, TraceEvent)>, total_events: usize) -> (r: Self)
        ensures
            r.concurrent_pairs == concurrent_pairs,
            r.total_events == total_events,
            r.conflicts_detected == concurrent_pairs@.len(),
    {
        let conflicts_detected = concurrent_pairs.len();
        HappensBeforeResult { concurrent_pairs, total_events, conflicts_detected }
    }

    /// At least one race was found.
    pub fn has_races(&self) -> (b: bool)
        ensures
            b == (self.concurrent_pairs@.len() > 0),
    {
        self.concurrent_pairs.len() > 0
    }

    /// The locations of the races found.
    pub fn raced_locations(&self) -> (s: ahash::AHashSet<i64>)
        ensures
            forall|l: i64|
                id_set_view(s).contains(l) <==> exists|k: int|
                    0 <= k < self.concurrent_pairs@.len() && #[trigger] self.concurrent_pairs@[k].0.memory_location
                        == l,
    {
        let mut s = id_set_new();
        let mut i: usize = 0;
        while i < self.concurrent_pairs.len()
            invariant
                i <= self.concurrent_pairs@.len(),
                forall|l: i64|
                    #[trigger] id_set_view(s).contains(l) <==> exists|k: int|
                        0 <= k < i && self.concurrent_pairs@[k].0.memory_location == l,
            decreases self.concurrent_pairs.len() - i,
        {
            id_set_insert(&mut s, self.concurrent_pairs[i].0.memory_location);
            proof {
                assert forall|l: i64|
                    #[trigger] id_set_view(s).contains(l) <==> exists|k: int|
                        0 <= k < i + 1 && self.concurrent_pairs@[k].0.memory_location == l by {
                    if l == self.concurrent_pairs@[i as int].0.memory_location {
                        assert(self.concurrent_pairs@[i as int].0.memory_location == l);
                    }
                    if exists|k: int| 0 <= k < i + 1 && self.concurrent_pairs@[k].0.memory_location == l {
                        let k = choose|k: int|
                            0 <= k < i + 1 && self.concurrent_pairs@[k].0.memory_location == l;
                        if k < i {
                        }
                    }
                }
            }
            i = i + 1;
        }
        s
    }
}

/// Events `i < j` race: they touch the same location, at least one writes, and neither
/// happens before the other.
pub open spec fn is_race(events: Seq<TraceEvent>, i: int, j: int) -> bool {
    &&& 0 <= i < j < events.len()
    &&& events[i].memory_location == events[j].memory_location
    &&& (events[i].operation == Operation::Write || events[j].operation == Operation::Write)
    &&& clock_concurrent(events[i].vector_clock@, events[j].vector_clock@)
}

/// `pairs` lists the races of `events` once each, position `k` holding the events of the
/// index pair `idx[k]`.
pub open spec fn lists_races(
    events: Seq<TraceEvent>,
    idx: Seq<(int, int)>,
    pairs: Seq<(TraceEvent, TraceEvent)>,
) -> bool {
    &&& idx.len() == pairs.len()
    &&& idx.no_duplicates()
    &&& forall|k: int|
        0 <= k < idx.len() ==> is_race(events, (#[trigger] idx[k]).0, idx[k].1) && same_event(
            pairs[k].0,
            events[idx[k].0],
        ) && same_event(pairs[k].1, events[idx[k].1])
    &&& forall|i: int, j: int| #[trigger] is_race(events, i, j) ==> idx.contains((i, j))
}

/// Finds the pairs of events that race: same location, at least one write, and clocks
/// that leave them unordered. The pairs come grouped by location, and in trace order
/// within a location.
pub fn happens_before_analysis(events: &[TraceEvent]) -> (r: Result<HappensBeforeResult, SqliteGraphError>)
    ensures
        match r {
            Ok(res) => {
                &&& res.total_events == events@.len()
                &&& res.conflicts_detected == res.concurrent_pairs@.len()
                &&& exists|idx: Seq<(int, int)>| lists_races(events@, idx, res.concurrent_pairs@)
            },
            Err(_) => false,
        },
{
    let n = events.len();
    let mut seen = id_set_new();
    let mut pairs: Vec<(TraceEvent, TraceEvent)> = Vec::new();
    let ghost mut idx: Seq<(int, int)> = Seq::empty();
    let mut s: usize = 0;
    while s < n
        invariant
            n == events@.len(),
            s <= n,
            forall|l: i64| #[trigger]
                id_set_view(seen).contains(l) <==> exists|x: int|
                    0 <= x < s && events@[x].memory_location == l,
            idx.len() == pairs@.len(),
            idx.no_duplicates(),
            forall|k: int|
                0 <= k < idx.len() ==> is_race(events@, (#[trigger] idx[k]).0, idx[k].1)
                    && id_set_view(seen).contains(events@[idx[k].0].memory_location) && same_event(
                    pairs@[k].0,
                    events@[idx[k].0],
                ) && same_event(pairs@[k].1, events@[idx[k].1]),
            forall|i: int, j: int|
                #[trigger] is_race(events@, i, j) && id_set_view(seen).contains(
                    events@[i].memory_location,
                ) ==> idx.contains((i, j)),
        decreases n - s,
    {
        let loc = events[s].memory_location;
        let ghost seen0 = id_set_view(seen);
        let fresh = id_set_insert(&mut seen, loc);
        if fresh {
            // All events at `loc`, in trace order; none comes before `s`.
            let mut group: Vec<usize> = Vec::new();
            let mut t: usize = s;
            while t < n
                invariant
                    n == events@.len(),
                    s <= t <= n,
                    loc == events@[s as int].memory_location,
                    forall|a: int| 0 <= a < group@.len() ==> s <= #[trigger] group@[a] < t,
                    forall|a: int, b: int| 0 <= a < b < group@.len() ==> group@[a] < group@[b],
                    forall|a: int|
                        0 <= a < group@.len() ==> events@[#[trigger] group@[a] as int].memory_location == loc,
                    forall|x: int|
                        s <= x < t && events@[x].memory_location == loc ==> exists|a: int|
                            0 <= a < group@.len() && #[trigger] group@[a] == x,
                decreases n - t,
            {
                let ghost g0 = group@;
                if events[t].memory_location == loc {
                    group.push(t);
                }
                proof {
                    assert forall|x: int|
                        s <= x < t + 1 && events@[x].memory_location == loc implies exists|a: int|
                            0 <= a < group@.len() && #[trigger] group@[a] == x by {
                        if x == t {
                            assert(group@[group@.len() - 1] == x);
                        } else {
                            let a = choose|a: int| 0 <= a < g0.len() && #[trigger] g0[a] == x;
                            assert(group@[a] == x);
                        }
                    }
                }
                t = t + 1;
            }
            proof {
                // No event before `s` is at `loc`, since `loc` was not seen.
                assert forall|x: int| 0 <= x < s implies events@[x].memory_location != loc by {
                    if events@[x].memory_location == loc {
                        assert(seen0.contains(loc));
                    }
                }
            }
            let m = group.len();
            let mut a: usize = 0;
            while a < m
                invariant
                    n == events@.len(),
                    m == group@.len(),
                    a <= m,
                    loc == events@[s as int].memory_location,
                    forall|p: int| 0 <= p < m ==> (#[trigger] group@[p]) < n,
                    forall|p: int, q: int| 0 <= p < q < m ==> group@[p] < group@[q],
                    forall|p: int| 0 <= p < m ==> events@[#[trigger] group@[p] as int].memory_location == loc,
                    forall|x: int|
                        0 <= x < n && events@[x].memory_location == loc ==> exists|p: int|
                            0 <= p < m && #[trigger] group@[p] == x,
                    forall|l: i64| #[trigger]
                        id_set_view(seen).contains(l) <==> exists|x: int|
                            0 <= x < s + 1 && events@[x].memory_location == l,
                    !seen0.contains(loc),
                    forall|l: i64| #[trigger] seen0.contains(l) ==> id_set_view(seen).contains(l),
                    forall|l: i64| #[trigger] id_set_view(seen).contains(l) ==> seen0.contains(l) || l == loc,
                    idx.len() == pairs@.len(),
                    idx.no_duplicates(),
                    forall|k: int|
                        0 <= k < idx.len() ==> is_race(events@, (#[trigger] idx[k]).0, idx[k].1)
                            && id_set_view(seen).contains(events@[idx[k].0].memory_location)
                            && same_event(pairs@[k].0, events@[idx[k].0]) && same_event(
                            pairs@[k].1,
                            events@[idx[k].1],
                        ),
                    forall|k: int|
                        0 <= k < idx.len() && events@[(#[trigger] idx[k]).0].memory_location == loc
                            ==> exists|p: int| 0 <= p < a && group@[p] == idx[k].0,
                    forall|i: int, j: int|
                        #[trigger] is_race(events@, i, j) && seen0.contains(events@[i].memory_location)
                            ==> idx.contains((i, j)),
                    forall|p: int, q: int|
                        0 <= p < a && p < q < m && is_race(events@, group@[p] as int, group@[q] as int)
                            ==> idx.contains((group@[p] as int, group@[q] as int)),
                decreases m - a,
            {
                let mut b: usize = a + 1;
                while b < m
                    invariant
                        n == events@.len(),
                        m == group@.len(),
                        a < m,
                        a + 1 <= b <= m,
                        loc == events@[s as int].memory_location,
                        forall|p: int| 0 <= p < m ==> (#[trigger] group@[p]) < n,
                        forall|p: int, q: int| 0 <= p < q < m ==> group@[p] < group@[q],
                        forall|p: int|
                            0 <= p < m ==> events@[#[trigger] group@[p] as int].memory_location == loc,
                        forall|l: i64| #[trigger]
                            id_set_view(seen).contains(l) <==> exists|x: int|
                                0 <= x < s + 1 && events@[x].memory_location == l,
                        id_set_view(seen).contains(loc),
                        idx.len() == pairs@.len(),
                        idx.no_duplicates(),
                        forall|k: int|
                            0 <= k < idx.len() ==> is_race(events@, (#[trigger] idx[k]).0, idx[k].1)
                                && id_set_view(seen).contains(events@[idx[k].0].memory_location)
                                && same_event(pairs@[k].0, events@[idx[k].0]) && same_event(
                                pairs@[k].1,
                                events@[idx[k].1],
                            ),
                        forall|k: int|
                            0 <= k < idx.len() && events@[(#[trigger] idx[k]).0].memory_location == loc
                                ==> exists|p: int|
                                0 <= p < a && group@[p] == idx[k].0 || (p == a && group@[p]
                                    == idx[k].0 && exists|q: int|
                                    a < q < b && group@[q] == idx[k].1),
                        forall|i: int, j: int|
                            #[trigger] is_race(events@, i, j) && seen0.contains(
                                events@[i].memory_location,
                            ) ==> idx.contains((i, j)),
                        forall|p: int, q: int|
                            0 <= p < a && p < q < m && is_race(
                                events@,
                                group@[p] as int,
                                group@[q] as int,
                            ) ==> idx.contains((group@[p] as int, group@[q] as int)),
                        forall|q: int|
                            a < q < b && is_race(events@, group@[a as int] as int, group@[q] as int)
                                ==> idx.contains((group@[a as int] as int, group@[q] as int)),
                    decreases m - b,
                {
                    let ea = &events[group[a]];
                    let eb = &events[group[b]];
                    let ghost pair = (group@[a as int] as int, group@[b as int] as int);
                    let ghost idx0 = idx;
                    if ea.vector_clock.is_concurrent(&eb.vector_clock) && (ea.operation
                        == Operation::Write || eb.operation == Operation::Write) {
                        proof {
                            assert(is_race(events@, pair.0, pair.1));
                            // The new index pair is not yet listed.
                            if idx.contains(pair) {
                                let k = choose|k: int| 0 <= k < idx.len() && idx[k] == pair;
                                assert(events@[idx[k].0].memory_location == loc);
                                let p = choose|p: int|
                                    0 <= p < a && group@[p] == idx[k].0 || (p == a && group@[p]
                                        == idx[k].0 && exists|q: int|
                                        a < q < b && group@[q] == idx[k].1);
                                if p < a {
                                    assert(group@[p] < group@[a as int]);
                                } else {
                                    let q = choose|q: int| a < q < b && group@[q] == idx[k].1;
                                    assert(group@[q] < group@[b as int]);
                                }
                            }
                        }
                        pairs.push((copy_event(ea), copy_event(eb)));
                        proof {
                            idx = idx.push(pair);
                            assert forall|x: int, y: int| 0 <= x < y < idx.len() implies idx[x]
                                != idx[y] by {
                                if y == idx.len() - 1 {
                                    assert(idx0.contains(idx0[x]));
                                }
                            }
                            assert(idx[idx.len() - 1] == pair);
                        }
                    } else {
                        proof {
                            assert(!is_race(events@, pair.0, pair.1));
                        }
                    }
                    proof {
                        assert forall|x: (int, int)| idx0.contains(x) implies idx.contains(x) by {
                            let k = choose|k: int| 0 <= k < idx0.len() && idx0[k] == x;
                            assert(idx[k] == x);
                        }
                        assert forall|k: int|
                            0 <= k < idx.len() && events@[(#[trigger] idx[k]).0].memory_location == loc
                                implies exists|p: int|
                                0 <= p < a && group@[p] == idx[k].0 || (p == a && group@[p]
                                    == idx[k].0 && exists|q: int|
                                    a < q < b + 1 && group@[q] == idx[k].1) by {
                            if k < idx0.len() {
                                assert(idx0[k] == idx[k]);
                                let p = choose|p: int|
                                    0 <= p < a && group@[p] == idx0[k].0 || (p == a && group@[p]
                                        == idx0[k].0 && exists|q: int|
                                        a < q < b && group@[q] == idx0[k].1);
                                if p == a {
                                    let q = choose|q: int| a < q < b && group@[q] == idx0[k].1;
                                    assert(a < q < b + 1 && group@[q] == idx[k].1);
                                }
                            } else {
                                assert(idx[k] == pair);
                                assert(a < b && b < b + 1 && group@[b as int] == idx[k].1);
                            }
                        }
                    }
                    b = b + 1;
                }
                a = a + 1;
            }
            proof {
                assert forall|i: int, j: int|
                    #[trigger] is_race(events@, i, j) && id_set_view(seen).contains(
                        events@[i].memory_location,
                    ) implies idx.contains((i, j)) by {
                    if !seen0.contains(events@[i].memory_location) {
                        assert(events@[i].memory_location == loc);
                        let p = choose|p: int| 0 <= p < m && #[trigger] group@[p] == i;
                        let q = choose|q: int| 0 <= q < m && #[trigger] group@[q] == j;
                        if q <= p {
                            if q < p {
                                assert(group@[q] < group@[p]);
                            }
                        }
                        assert(is_race(events@, group@[p] as int, group@[q] as int));
                    }
                }
            }
        } else {
            proof {
                assert(id_set_view(seen) == seen0);
            }
        }
        proof {
            assert forall|l: i64| #[trigger]
                id_set_view(seen).contains(l) <==> exists|x: int|
                    0 <= x < s + 1 && events@[x].memory_location == l by {
                if l == loc {
                    assert(events@[s as int].memory_location == l);
                }
                if exists|x: int| 0 <= x < s + 1 && events@[x].memory_location == l {
                    let x = choose|x: int| 0 <= x < s + 1 && events@[x].memory_location == l;
                    if x < s {
                        assert(seen0.contains(l));
                    }
                }
            }
        }
        s = s + 1;
    }
    proof {
        assert forall|i: int, j: int| #[trigger] is_race(events@, i, j) implies idx.contains((i, j)) by {
            assert(id_set_view(seen).contains(events@[i].memory_location));
        }
        assert(lists_races(events@, idx, pairs@));
    }
    Ok(HappensBeforeResult::new(pairs, n))
}

} // verus!
