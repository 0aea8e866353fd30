//! The registry of the frontend origins that were last given a delegation:
//! each with the time of its latest delegation, none older than thirty days,
//! and no more of them than a capacity allows.

use vstd::prelude::*;
use crate::types::{FrontendHostname, Timestamp};

verus! {

/// One day, in nanoseconds.
pub const DAY_NS: u64 = 86_400_000_000_000;

/// How long an origin stays in the registry after its latest delegation.
pub const ORIGIN_TTL_NS: u64 = 30 * DAY_NS;

/// The origins of a registry with their timestamps, in the order in which
/// they were first recorded.
pub open spec fn log_of(entries: Seq<(String, u64)>) -> Seq<(Seq<char>, u64)> {
    Seq::new(entries.len(), |i: int| (entries[i].0@, entries[i].1))
}

/// No origin stands twice in `log`.
pub open spec fn distinct_origins(log: Seq<(Seq<char>, u64)>) -> bool {
    forall|i: int, j: int| 0 <= i < j < log.len() ==> log[i].0 != log[j].0
}

/// `origin` stands in `log`.
pub open spec fn is_tracked(log: Seq<(Seq<char>, u64)>, origin: Seq<char>) -> bool {
    exists|i: int| 0 <= i < log.len() && log[i].0 == origin
}

/// `log` with every entry of `origin` set to the time `now`.
pub open spec fn refreshed(log: Seq<(Seq<char>, u64)>, origin: Seq<char>, now: u64) -> Seq<
    (Seq<char>, u64),
> {
    Seq::new(
        log.len(),
        |i: int|
            if log[i].0 == origin {
                (origin, now)
            } else {
                log[i]
            },
    )
}

/// `log` after `origin` was seen at `now`: its entry is set to `now`, or a
/// new entry is added behind the others.
pub open spec fn touched(log: Seq<(Seq<char>, u64)>, origin: Seq<char>, now: u64) -> Seq<
    (Seq<char>, u64),
> {
    if is_tracked(log, origin) {
        refreshed(log, origin, now)
    } else {
        log.push((origin, now))
    }
}

/// The entries that are no older than thirty days at `now`. An entry of
/// exactly thirty days is among them.
pub open spec fn is_recent(now: u64) -> spec_fn((Seq<char>, u64)) -> bool {
    |entry: (Seq<char>, u64)| now - entry.1 <= ORIGIN_TTL_NS
}

/// The entry at `at` has the smallest timestamp of `log`, and is the first
/// that has it.
pub open spec fn is_first_oldest(log: Seq<(Seq<char>, u64)>, at: int) -> bool {
    &&& 0 <= at < log.len()
    &&& forall|j: int| 0 <= j < log.len() ==> log[at].1 <= #[trigger] log[j].1
    &&& forall|j: int| 0 <= j < at ==> log[at].1 < #[trigger] log[j].1
}

/// The position of the first entry with the smallest timestamp.
pub open spec fn first_oldest(log: Seq<(Seq<char>, u64)>) -> int {
    choose|at: int| is_first_oldest(log, at)
}

/// The registry after `origin` was given a delegation at `now`: the origin
/// is touched, entries older than thirty days are dropped, and if more than
/// `capacity` entries are left, the first of the oldest is dropped too.
pub open spec fn recorded(
    log: Seq<(Seq<char>, u64)>,
    origin: Seq<char>,
    now: u64,
    capacity: u64,
) -> Seq<(Seq<char>, u64)> {
    let recent = touched(log, origin, now).filter(is_recent(now));
    if recent.len() > capacity {
        recent.remove(first_oldest(recent))
    } else {
        recent
    }
}

/// Only one position can be that of the first oldest entry.
pub proof fn lemma_first_oldest_unique(log: Seq<(Seq<char>, u64)>, a: int, b: int)
    requires
        is_first_oldest(log, a),
        is_first_oldest(log, b),
    ensures
        a == b,
{
    if a < b {
        assert(log[b].1 < log[a].1);
        assert(log[a].1 <= log[b].1);
    } else if b < a {
        assert(log[a].1 < log[b].1);
        assert(log[b].1 <= log[a].1);
    }
}

/// A registry that is not empty has a first oldest entry.
pub proof fn lemma_first_oldest_exists(log: Seq<(Seq<char>, u64)>)
    requires
        log.len() > 0,
    ensures
        is_first_oldest(log, first_oldest(log)),
    decreases log.len(),
{
    if log.len() == 1 {
        assert(is_first_oldest(log, 0));
    } else {
        let front = log.drop_last();
        lemma_first_oldest_exists(front);
        let at = first_oldest(front);
        let last = log.len() - 1;
        if log[last].1 < front[at].1 {
            assert forall|j: int| 0 <= j < log.len() implies log[last].1 <= #[trigger] log[j].1 by {
                if j < last {
                    assert(front[at].1 <= front[j].1);
                }
            }
            assert forall|j: int| 0 <= j < last implies log[last].1 < #[trigger] log[j].1 by {
                assert(front[at].1 <= front[j].1);
            }
            assert(is_first_oldest(log, last));
        } else {
            assert forall|j: int| 0 <= j < log.len() implies log[at].1 <= #[trigger] log[j].1 by {
                if j < last {
                    assert(front[at].1 <= front[j].1);
                }
            }
            assert forall|j: int| 0 <= j < at implies log[at].1 < #[trigger] log[j].1 by {
                assert(front[at].1 < front[j].1);
            }
            assert(is_first_oldest(log, at));
        }
    }
}

/// After an origin was recorded at `now`, no entry of the registry is older
/// than thirty days at `now`.
pub proof fn lemma_recorded_is_recent(
    log: Seq<(Seq<char>, u64)>,
    origin: Seq<char>,
    now: u64,
    capacity: u64,
)
    ensures
        forall|i: int|
            0 <= i < recorded(log, origin, now, capacity).len() ==> now - (#[trigger] recorded(
                log,
                origin,
                now,
                capacity,
            )[i]).1 <= ORIGIN_TTL_NS,
{
    let recent = touched(log, origin, now).filter(is_recent(now));
    let after = recorded(log, origin, now, capacity);
    assert forall|i: int| 0 <= i < recent.len() implies now - (#[trigger] recent[i]).1
        <= ORIGIN_TTL_NS by {
        touched(log, origin, now).lemma_filter_pred(is_recent(now), i);
    }
    if recent.len() > capacity {
        lemma_first_oldest_exists(recent);
        let at = first_oldest(recent);
        assert forall|i: int| 0 <= i < after.len() implies now - (#[trigger] after[i]).1
            <= ORIGIN_TTL_NS by {
            if i < at {
                assert(after[i] == recent[i]);
            } else {
                assert(after[i] == recent[i + 1]);
            }
        }
    }
}

/// A registry within its capacity stays within it when an origin is
/// recorded.
pub proof fn lemma_recorded_within_capacity(
    log: Seq<(Seq<char>, u64)>,
    origin: Seq<char>,
    now: u64,
    capacity: u64,
)
    requires
        log.len() <= capacity,
    ensures
        recorded(log, origin, now, capacity).len() <= capacity,
{
    let recent = touched(log, origin, now).filter(is_recent(now));
    touched(log, origin, now).lemma_filter_len(is_recent(now));
    if recent.len() > capacity {
        lemma_first_oldest_exists(recent);
    }
}

/// The registry of recently used frontend origins.
pub struct LatestDelegationOrigins {
    entries: Vec<(String, u64)>,
}

impl View for LatestDelegationOrigins {
    type V = Seq<(Seq<char>, u64)>;

    closed spec fn view(&self) -> Seq<(Seq<char>, u64)> {
        log_of(self.entries@)
    }
}

impl LatestDelegationOrigins {
    /// The registry holds no origin twice.
    pub open spec fn wf(&self) -> bool {
        distinct_origins(self@)
    }

    /// A registry without entries.
    pub fn new() -> (origins: Self)
        ensures
            origins@ == Seq::<(Seq<char>, u64)>::empty(),
            origins.wf(),
    {
        let origins = LatestDelegationOrigins { entries: Vec::new() };
        assert(origins@ =~= Seq::<(Seq<char>, u64)>::empty());
        origins
    }

    /// The number of origins in the registry.
    pub fn len(&self) -> (n: usize)
        ensures
            n == self@.len(),
    {
        self.entries.len()
    }

    /// The time of the latest delegation for `origin`, if it is in the
    /// registry.
    pub fn timestamp_of(&self, origin: &String) -> (timestamp: Option<Timestamp>)
        requires
            self.wf(),
        ensures
            timestamp is Some <==> is_tracked(self@, origin@),
            timestamp matches Some(t) ==> self@.contains((origin@, t)),
    {
        let mut i: usize = 0;
        while i < self.entries.len()
            invariant
                i <= self.entries@.len(),
                forall|k: int| 0 <= k < i ==> self@[k].0 != origin@,
                self@ == log_of(self.entries@),
            decreases self.entries@.len() - i,
        {
            if self.entries[i].0 == *origin {
                assert(self@[i as int] == (origin@, self.entries@[i as int].1));
                return Some(self.entries[i].1);
            }
            i = i + 1;
        }
        None
    }

    /// The origins with their timestamps, in the order in which they were
    /// first recorded.
    pub fn entries(&self) -> (entries: Vec<(String, u64)>)
        ensures
            log_of(entries@) == self@,
    {
        let mut entries: Vec<(String, u64)> = Vec::new();
        let mut i: usize = 0;
        while i < self.entries.len()
            invariant
                i <= self.entries@.len(),
                log_of(entries@) == self@.subrange(0, i as int),
                self@ == log_of(self.entries@),
            decreases self.entries@.len() - i,
        {
            let ghost before = log_of(entries@);
            let origin = self.entries[i].0.clone();
            entries.push((origin, self.entries[i].1));
            assert(log_of(entries@) =~= before.push(self@[i as int]));
            i = i + 1;
            assert(log_of(entries@) =~= self@.subrange(0, i as int));
        }
        assert(self@.subrange(0, i as int) =~= self@);
        entries
    }
}

/// Records that `frontend` was given a delegation at `now_ns`, in a registry
/// of at most `capacity` origins.
pub fn update_latest_delegation_origins(
    origins: &mut LatestDelegationOrigins,
    capacity: u64,
    frontend: FrontendHostname,
    now_ns: Timestamp,
)
    requires
        old(origins).wf(),
    ensures
        final(origins).wf(),
        final(origins)@ == recorded(old(origins)@, frontend@, now_ns, capacity),
        old(origins)@.len() <= capacity ==> final(origins)@.len() <= capacity,
        forall|i: int|
            0 <= i < final(origins)@.len() ==> now_ns - (#[trigger] final(origins)@[i]).1
                <= ORIGIN_TTL_NS,
{
    proof {
        lemma_recorded_is_recent(origins@, frontend@, now_ns, capacity);
        if origins@.len() <= capacity {
            lemma_recorded_within_capacity(origins@, frontend@, now_ns, capacity);
        }
    }
    let ghost log = origins@;
    let ghost mapped = refreshed(log, frontend@, now_ns);
    let mut kept: Vec<(String, u64)> = Vec::new();
    let mut found: bool = false;
    let mut i: usize = 0;
    proof {
        reveal(Seq::filter);
        assert(mapped.subrange(0, 0) =~= Seq::<(Seq<char>, u64)>::empty());
        assert(log_of(kept@) =~= mapped.subrange(0, 0).filter(is_recent(now_ns)));
    }
    while i < origins.entries.len()
        invariant
            i <= origins.entries@.len(),
            log == log_of(origins.entries@),
            mapped == refreshed(log, frontend@, now_ns),
            distinct_origins(log),
            log_of(kept@) == mapped.subrange(0, i as int).filter(is_recent(now_ns)),
            found <==> exists|j: int| 0 <= j < i && log[j].0 == frontend@,
            distinct_origins(log_of(kept@)),
            forall|a: int|
                0 <= a < kept@.len() ==> exists|j: int|
                    0 <= j < i && log[j].0 == #[trigger] kept@[a].0@,
        decreases origins.entries@.len() - i,
    {
        let ghost before = log_of(kept@);
        let tracked_here = origins.entries[i].0 == frontend;
        let timestamp: u64 = if tracked_here {
            now_ns
        } else {
            origins.entries[i].1
        };
        proof {
            assert(log[i as int].0 == origins.entries@[i as int].0@);
            assert(mapped[i as int] == (log[i as int].0, timestamp));
            assert(mapped.subrange(0, i + 1) =~= mapped.subrange(0, i as int).push(
                mapped[i as int],
            ));
            mapped.subrange(0, i as int).lemma_filter_push(mapped[i as int], is_recent(now_ns));
        }
        if tracked_here {
            found = true;
        }
        if timestamp > now_ns || now_ns - timestamp <= ORIGIN_TTL_NS {
            kept.push((origins.entries[i].0.clone(), timestamp));
            proof {
                assert(log_of(kept@) =~= before.push(mapped[i as int]));
                assert forall|a: int, b: int| 0 <= a < b < kept@.len() implies log_of(kept@)[a].0
                    != log_of(kept@)[b].0 by {
                    if b == kept@.len() - 1 {
                        let j = choose|j: int| 0 <= j < i && log[j].0 == kept@[a].0@;
                        assert(log[j].0 != log[i as int].0);
                    } else {
                        assert(before[a].0 != before[b].0);
                    }
                }
                assert forall|a: int| 0 <= a < kept@.len() implies exists|j: int|
                    0 <= j < i + 1 && log[j].0 == #[trigger] kept@[a].0@ by {
                    if a == kept@.len() - 1 {
                        assert(log[i as int].0 == kept@[a].0@);
                    } else {
                        let j = choose|j: int| 0 <= j < i && log[j].0 == kept@[a].0@;
                        assert(0 <= j < i + 1 && log[j].0 == kept@[a].0@);
                    }
                }
            }
        } else {
            proof {
                assert forall|a: int| 0 <= a < kept@.len() implies exists|j: int|
                    0 <= j < i + 1 && log[j].0 == #[trigger] kept@[a].0@ by {
                    let j = choose|j: int| 0 <= j < i && log[j].0 == kept@[a].0@;
                    assert(0 <= j < i + 1 && log[j].0 == kept@[a].0@);
                }
            }
        }
        i = i + 1;
    }
    proof {
        assert(mapped.subrange(0, i as int) =~= mapped);
        assert(found == is_tracked(log, frontend@));
    }
    if !found {
        let ghost before = log_of(kept@);
        proof {
            assert(mapped =~= log);
            log.lemma_filter_push((frontend@, now_ns), is_recent(now_ns));
            assert forall|a: int| 0 <= a < kept@.len() implies kept@[a].0@ != frontend@ by {
                let j = choose|j: int| 0 <= j < i && log[j].0 == kept@[a].0@;
            }
        }
        kept.push((frontend, now_ns));
        proof {
            assert(log_of(kept@) =~= before.push((frontend@, now_ns)));
        }
    }
    assert(log_of(kept@) == touched(log, frontend@, now_ns).filter(is_recent(now_ns)));
    if kept.len() as u64 > capacity {
        let ghost recent = log_of(kept@);
        let mut oldest: usize = 0;
        let mut k: usize = 1;
        while k < kept.len()
            invariant
                1 <= k <= kept@.len(),
                recent == log_of(kept@),
                is_first_oldest(recent.subrange(0, k as int), oldest as int),
            decreases kept@.len() - k,
        {
            let ghost front = recent.subrange(0, k as int);
            let ghost longer = recent.subrange(0, k + 1);
            if kept[k].1 < kept[oldest].1 {
                proof {
                    assert forall|j: int| 0 <= j < longer.len() implies longer[k as int].1
                        <= #[trigger] longer[j].1 by {
                        if j < k {
                            assert(front[oldest as int].1 <= front[j].1);
                        }
                    }
                    assert forall|j: int| 0 <= j < k implies longer[k as int].1
                        < #[trigger] longer[j].1 by {
                        assert(front[oldest as int].1 <= front[j].1);
                    }
                }
                oldest = k;
            } else {
                proof {
                    assert forall|j: int| 0 <= j < longer.len() implies longer[oldest as int].1
                        <= #[trigger] longer[j].1 by {
                        if j < k {
                            assert(front[oldest as int].1 <= front[j].1);
                        }
                    }
                    assert forall|j: int| 0 <= j < oldest implies longer[oldest as int].1
                        < #[trigger] longer[j].1 by {
                        assert(front[oldest as int].1 < front[j].1);
                    }
                }
            }
            k = k + 1;
        }
        proof {
            assert(recent.subrange(0, k as int) =~= recent);
            lemma_first_oldest_exists(recent);
            lemma_first_oldest_unique(recent, oldest as int, first_oldest(recent));
        }
        kept.remove(oldest);
        proof {
            assert(log_of(kept@) =~= recent.remove(oldest as int));
            assert forall|a: int, b: int| 0 <= a < b < kept@.len() implies log_of(kept@)[a].0
                != log_of(kept@)[b].0 by {
                let pa = if a < oldest { a } else { a + 1 };
                let pb = if b < oldest { b } else { b + 1 };
                assert(recent[pa].0 != recent[pb].0);
            }
        }
    }
    origins.entries = kept;
}

} // verus!
