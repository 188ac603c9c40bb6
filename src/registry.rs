use vstd::prelude::*;

verus! {

/// Whether a compaction is in flight for `id` in a registry whose model is
/// `flags`: an absent entry means that none is.
pub open spec fn in_flight(flags: Set<Seq<char>>, id: Seq<char>) -> bool {
    flags.contains(id)
}

/// The admission step on a model: the new model and whether a compaction was
/// admitted for `id`.
pub open spec fn admit_spec(flags: Set<Seq<char>>, id: Seq<char>) -> (Set<Seq<char>>, bool) {
    if in_flight(flags, id) {
        (flags, false)
    } else {
        (flags.insert(id), true)
    }
}

/// The release step on a model: the entry of `id` is removed.
pub open spec fn release_spec(flags: Set<Seq<char>>, id: Seq<char>) -> Set<Seq<char>> {
    flags.remove(id)
}

/// Process-wide record of the sessions whose compaction is in flight.
/// A session has an entry exactly while a compaction task owns its slot;
/// the entry is removed, never kept as "not in flight", when the task ends.
/// Callers share one registry behind a lock, so that the test and the set of
/// `try_admit` form one critical section.
pub struct CleanupRegistry {
    ids: Vec<String>,
}

impl View for CleanupRegistry {
    type V = Set<Seq<char>>;

    closed spec fn view(&self) -> Set<Seq<char>> {
        Set::new(|k: Seq<char>| holds(self.ids@, k))
    }
}

impl CleanupRegistry {
    /// An empty registry: no compaction in flight.
    pub fn new() -> (r: CleanupRegistry)
        ensures
            r@ == Set::<Seq<char>>::empty(),
    {
        let r = CleanupRegistry { ids: Vec::new() };
        assert(r@ =~= Set::<Seq<char>>::empty());
        r
    }

    /// Whether a compaction is in flight for `id`.
    pub fn is_in_flight(&self, id: &str) -> (r: bool)
        ensures
            r == in_flight(self@, id@),
    {
        let key = id.to_string();
        let mut i: usize = 0;
        while i < self.ids.len()
            invariant
                key@ == id@,
                i <= self.ids.len(),
                forall|j: int| 0 <= j < i ==> self.ids[j]@ != id@,
            decreases self.ids.len() - i,
        {
            if self.ids[i] == key {
                assert(self@.contains(id@));
                return true;
            }
            i = i + 1;
        }
        false
    }

    /// The admission gate: a compaction for `id` is admitted, and its entry
    /// set, exactly when none is in flight for it.
    pub fn try_admit(&mut self, id: &str) -> (r: bool)
        ensures
            r == !in_flight(old(self)@, id@),
            (final(self)@, r) == admit_spec(old(self)@, id@),
    {
        if self.is_in_flight(id) {
            false
        } else {
            let ghost before = self.ids@;
            self.ids.push(id.to_string());
            proof {
                lemma_holds_push(before, self.ids[before.len() as int]);
                assert(self.ids@ == before.push(self.ids[before.len() as int]));
                assert(self@ =~= old(self)@.insert(id@));
            }
            true
        }
    }

    /// Ends the run of `id`: its entry is removed, so that the next admission
    /// succeeds.
    pub fn release(&mut self, id: &str)
        ensures
            final(self)@ == release_spec(old(self)@, id@),
    {
        let key = id.to_string();
        let mut kept: Vec<String> = Vec::new();
        let mut i: usize = 0;
        while i < self.ids.len()
            invariant
                key@ == id@,
                i <= self.ids.len(),
                forall|k: Seq<char>|
                    #[trigger] holds(kept@, k) == (holds(self.ids@.take(i as int), k) && k != id@),
            decreases self.ids.len() - i,
        {
            let ghost prev = kept@;
            proof {
                assert(self.ids@.take(i + 1) =~= self.ids@.take(i as int).push(self.ids[i as int]));
                lemma_holds_push(self.ids@.take(i as int), self.ids[i as int]);
            }
            if self.ids[i] != key {
                kept.push(self.ids[i].clone());
                proof {
                    lemma_holds_push(prev, self.ids[i as int]);
                }
            }
            i = i + 1;
        }
        proof {
            assert(self.ids@.take(i as int) =~= self.ids@);
        }
        self.ids = kept;
        assert(self@ =~= old(self)@.remove(id@));
    }
}

/// Whether one of the strings of `v` reads `k`.
spec fn holds(v: Seq<String>, k: Seq<char>) -> bool {
    exists|i: int| 0 <= i < v.len() && #[trigger] v[i]@ == k
}

proof fn lemma_holds_push(v: Seq<String>, s: String)
    ensures
        forall|k: Seq<char>| #[trigger] holds(v.push(s), k) == (holds(v, k) || k == s@),
{
    assert forall|k: Seq<char>| #[trigger] holds(v.push(s), k) == (holds(v, k) || k == s@) by {
        if holds(v.push(s), k) {
            let i = choose|i: int| 0 <= i < v.push(s).len() && #[trigger] v.push(s)[i]@ == k;
            if i < v.len() {
                assert(v[i]@ == k);
            }
        }
        if holds(v, k) {
            let i = choose|i: int| 0 <= i < v.len() && #[trigger] v[i]@ == k;
            assert(v.push(s)[i]@ == k);
        }
        if k == s@ {
            assert(v.push(s)[v.len() as int]@ == k);
        }
    }
}

/// The registry after a trace of events, starting empty. An event
/// `(true, id)` is an append on `id` that crossed the threshold and asked for
/// admission; `(false, id)` is a compaction task of `id` that ended.
pub open spec fn replay(events: Seq<(bool, Seq<char>)>) -> Set<Seq<char>>
    decreases events.len(),
{
    if events.len() == 0 {
        Set::empty()
    } else {
        let prev = replay(events.drop_last());
        let e = events.last();
        if e.0 {
            admit_spec(prev, e.1).0
        } else {
            release_spec(prev, e.1)
        }
    }
}

/// The number of compaction tasks of `id` that were started and have not
/// ended after a trace: one is started each time an admission succeeds.
pub open spec fn running(events: Seq<(bool, Seq<char>)>, id: Seq<char>) -> int
    decreases events.len(),
{
    if events.len() == 0 {
        0
    } else {
        let prev = events.drop_last();
        let e = events.last();
        if e.1 != id {
            running(prev, id)
        } else if e.0 {
            if admit_spec(replay(prev), id).1 {
                running(prev, id) + 1
            } else {
                running(prev, id)
            }
        } else {
            running(prev, id) - 1
        }
    }
}

/// A trace in which only a task that was started ends.
pub open spec fn well_formed(events: Seq<(bool, Seq<char>)>) -> bool {
    forall|i: int|
        0 <= i < events.len() && !(#[trigger] events[i]).0 ==> running(events.take(i), events[i].1) >= 1
}

/// At most one compaction runs per session: over any trace of concurrent
/// appends and task completions, the tasks of a session that are running
/// number one while its entry is set and none otherwise.
pub proof fn lemma_at_most_one_compaction(events: Seq<(bool, Seq<char>)>, id: Seq<char>)
    requires
        well_formed(events),
    ensures
        0 <= running(events, id) <= 1,
        running(events, id) == 1 <==> in_flight(replay(events), id),
    decreases events.len(),
{
    if events.len() > 0 {
        let prev = events.drop_last();
        let e = events.last();
        assert forall|i: int| 0 <= i < prev.len() && !(#[trigger] prev[i]).0 implies running(
            prev.take(i),
            prev[i].1,
        ) >= 1 by {
            assert(prev.take(i) =~= events.take(i));
            assert(events[i] == prev[i]);
        }
        lemma_at_most_one_compaction(prev, id);
        if !e.0 {
            let n = events.len() - 1;
            assert(events.take(n) =~= prev);
            assert(!events[n].0);
            lemma_at_most_one_compaction(prev, e.1);
        }
    }
}

} // verus!
