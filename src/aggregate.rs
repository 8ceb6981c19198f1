use vstd::prelude::*;

use crate::rank::{
    arranges, distinct_names, in_report_order, rank_totals, ranks_before, CategoryTotal,
};
use crate::record::Event;
use crate::text::{lemma_lex_irreflexive, same_text};

verus! {

/// An event as the aggregation sees it: name, start, end.
pub open spec fn duration(e: (Seq<char>, u64, u64)) -> int {
    e.2 - e.1
}

/// The sum of the durations of the events named `name`, in input order.
pub open spec fn name_total(evs: Seq<(Seq<char>, u64, u64)>, name: Seq<char>) -> int
    decreases evs.len(),
{
    if evs.len() == 0 {
        0
    } else {
        name_total(evs.drop_last(), name) + if evs.last().0 == name { duration(evs.last()) } else { 0 }
    }
}

/// The names that occur among the events.
pub open spec fn event_names(evs: Seq<(Seq<char>, u64, u64)>) -> Set<Seq<char>>
    decreases evs.len(),
{
    if evs.len() == 0 {
        Set::empty()
    } else {
        event_names(evs.drop_last()).insert(evs.last().0)
    }
}

/// Each name that occurs, with the sum of its events' durations.
pub open spec fn totals_of(evs: Seq<(Seq<char>, u64, u64)>) -> Map<Seq<char>, int> {
    Map::new(|n: Seq<char>| event_names(evs).contains(n), |n: Seq<char>| name_total(evs, n))
}

/// The end of the last event, or zero when there is none.
pub open spec fn last_end(evs: Seq<(Seq<char>, u64, u64)>) -> u64 {
    if evs.len() == 0 {
        0
    } else {
        evs.last().2
    }
}

/// Event `i` cannot be added after those before it: it ends before it
/// starts, or its name's total would pass the 64-bit range.
pub open spec fn fails_at(evs: Seq<(Seq<char>, u64, u64)>, i: int) -> bool {
    evs[i].2 < evs[i].1 || name_total(evs.take(i + 1), evs[i].0) > u64::MAX
}

/// Every event can be added in turn.
pub open spec fn folds(evs: Seq<(Seq<char>, u64, u64)>) -> bool {
    forall|i: int| 0 <= i < evs.len() ==> !#[trigger] fails_at(evs, i)
}

pub open spec fn event_views(events: Seq<Event>) -> Seq<(Seq<char>, u64, u64)> {
    events.map_values(|e: Event| e@)
}

/// The names in a report, in its order.
pub open spec fn report_names(r: Seq<CategoryTotal>) -> Seq<Seq<char>> {
    r.map_values(|c: CategoryTotal| c.name@)
}

/// One more event adds its duration to its own name's total only.
proof fn lemma_name_total_push(evs: Seq<(Seq<char>, u64, u64)>, e: (Seq<char>, u64, u64), name: Seq<char>)
    ensures
        name_total(evs.push(e), name) == name_total(evs, name) + if e.0 == name { duration(e) } else { 0 },
        event_names(evs.push(e)) == event_names(evs).insert(e.0),
{
    assert(evs.push(e).drop_last() =~= evs);
}

proof fn lemma_name_total_absent(evs: Seq<(Seq<char>, u64, u64)>, name: Seq<char>)
    requires
        !event_names(evs).contains(name),
    ensures
        name_total(evs, name) == 0,
    decreases evs.len(),
{
    if evs.len() > 0 {
        lemma_name_total_absent(evs.drop_last(), name);
    }
}

/// Why an event could not be added.
#[derive(Debug, Clone, Copy, PartialEq, Eq)]
pub enum DurationError {
    /// The event ends before it starts.
    EndBeforeStart,
    /// The name's total would not fit in 64 bits.
    TotalOverflow,
}

/// The first event of a sequence that could not be added, and why.
#[derive(Debug, Clone, Copy, PartialEq, Eq)]
pub struct EventError {
    pub index: usize,
    pub error: DurationError,
}

/// Per-name duration totals of a sequence of events, and the end of the
/// last event as the overall run time.
pub struct Events {
    entries: Vec<CategoryTotal>,
    total_time_micros: u64,
    history: Ghost<Seq<(Seq<char>, u64, u64)>>,
    slot: Ghost<Map<Seq<char>, int>>,
}

fn find_name(entries: &Vec<CategoryTotal>, name: &str) -> (r: usize)
    ensures
        r <= entries@.len(),
        r < entries@.len() ==> entries@[r as int].name@ == name@,
        r == entries@.len() ==> forall|j: int| 0 <= j < entries@.len() ==> #[trigger] entries@[j].name@ != name@,
{
    let mut i: usize = 0;
    while i < entries.len()
        invariant
            i <= entries@.len(),
            forall|j: int| 0 <= j < i ==> #[trigger] entries@[j].name@ != name@,
        decreases entries@.len() - i,
    {
        if same_text(entries[i].name.as_str(), name) {
            return i;
        }
        i = i + 1;
    }
    i
}

impl Events {
    /// The events folded in so far, in order.
    pub closed spec fn history(&self) -> Seq<(Seq<char>, u64, u64)> {
        self.history@
    }

    /// Each name seen so far with its cumulative duration.
    pub open spec fn totals(&self) -> Map<Seq<char>, int> {
        totals_of(self.history())
    }

    pub closed spec fn total_time(&self) -> u64 {
        self.total_time_micros
    }

    pub closed spec fn wf(&self) -> bool {
        let h = self.history@;
        let e = self.entries@;
        &&& (forall|i: int| 0 <= i < e.len() ==> event_names(h).contains(#[trigger] e[i].name@)
            && e[i].micros == name_total(h, e[i].name@))
        &&& (forall|n: Seq<char>| #[trigger] event_names(h).contains(n) ==> 0 <= self.slot@[n] < e.len()
            && e[self.slot@[n]].name@ == n)
        &&& distinct_names(e)
        &&& self.total_time_micros == last_end(h)
    }

    /// No events yet: no totals, and a run time of zero.
    pub fn new() -> (r: Events)
        ensures
            r.wf(),
            r.history() == Seq::<(Seq<char>, u64, u64)>::empty(),
            r.total_time() == 0,
    {
        Events {
            entries: Vec::new(),
            total_time_micros: 0,
            history: Ghost(Seq::empty()),
            slot: Ghost(Map::empty()),
        }
    }

    /// The end of the last event added, or zero before any.
    pub fn total_time_micros(&self) -> (r: u64)
        requires
            self.wf(),
        ensures
            r == self.total_time(),
            r == last_end(self.history()),
    {
        self.total_time_micros
    }

    /// Adds one event: its duration goes to its name's total, and its end
    /// becomes the run time. Nothing changes when it ends before it starts or
    /// when its name's total would pass the 64-bit range.
    pub fn add(&mut self, e: &Event) -> (r: Result<(), DurationError>)
        requires
            old(self).wf(),
        ensures
            final(self).wf(),
            match r {
                Ok(()) => {
                    &&& e.start_micro <= e.end_micro
                    &&& name_total(old(self).history().push(e@), e.name@) <= u64::MAX
                    &&& final(self).history() == old(self).history().push(e@)
                },
                Err(DurationError::EndBeforeStart) => e.end_micro < e.start_micro && *final(self) == *old(self),
                Err(DurationError::TotalOverflow) => {
                    &&& e.start_micro <= e.end_micro
                    &&& name_total(old(self).history().push(e@), e.name@) > u64::MAX
                    &&& *final(self) == *old(self)
                },
            },
    {
        if e.end_micro < e.start_micro {
            return Err(DurationError::EndBeforeStart);
        }
        let d = e.end_micro - e.start_micro;
        let ghost h = self.history@;
        let ghost h2 = h.push(e@);
        proof {
            assert forall|n: Seq<char>| name_total(h2, n) == name_total(h, n) + if e@.0 == n { duration(e@) } else { 0 } by {
                lemma_name_total_push(h, e@, n);
            }
            lemma_name_total_push(h, e@, e.name@);
        }
        let n = self.entries.len();
        let i = find_name(&self.entries, e.name.as_str());
        if i < n {
            match self.entries[i].micros.checked_add(d) {
                None => {
                    return Err(DurationError::TotalOverflow);
                },
                Some(t) => {
                    self.entries[i].micros = t;
                },
            }
        } else {
            proof {
                if event_names(h).contains(e.name@) {
                    assert(self.entries@[self.slot@[e.name@]].name@ == e.name@);
                }
                lemma_name_total_absent(h, e.name@);
            }
            self.entries.push(CategoryTotal { name: e.name.clone(), micros: d });
            self.slot = Ghost(self.slot@.insert(e.name@, n as int));
        }
        self.total_time_micros = e.end_micro;
        self.history = Ghost(h2);
        proof {
            let en = self.entries@;
            assert forall|k: int| 0 <= k < en.len() implies event_names(h2).contains(#[trigger] en[k].name@)
                && en[k].micros == name_total(h2, en[k].name@) by {
                if k < n && k != i {
                    assert(en[k] == old(self).entries@[k]);
                }
            }
            assert forall|m: Seq<char>| #[trigger] event_names(h2).contains(m) implies 0 <= self.slot@[m] < en.len()
                && en[self.slot@[m]].name@ == m by {
                if m != e.name@ {
                    assert(event_names(h).contains(m));
                }
            }
            assert forall|a: int, b: int| 0 <= a < b < en.len() implies #[trigger] en[a].name@ != #[trigger] en[b].name@ by {
                if a < n && b < n {
                    assert(en[a].name@ == old(self).entries@[a].name@);
                    assert(en[b].name@ == old(self).entries@[b].name@);
                }
            }
        }
        Ok(())
    }

    /// Folds a sequence of events in order. Fails at the first event that
    /// ends before it starts or whose name's total would pass the 64-bit
    /// range.
    pub fn from_iter(events: Vec<Event>) -> (r: Result<Events, EventError>)
        ensures
            match r {
                Ok(s) => {
                    &&& s.wf()
                    &&& folds(event_views(events@))
                    &&& s.history() == event_views(events@)
                    &&& s.totals() == totals_of(event_views(events@))
                    &&& s.total_time() == last_end(event_views(events@))
                },
                Err(err) => {
                    let evs = event_views(events@);
                    &&& err.index < evs.len()
                    &&& folds(evs.take(err.index as int))
                    &&& fails_at(evs, err.index as int)
                    &&& (err.error is EndBeforeStart <==> evs[err.index as int].2 < evs[err.index as int].1)
                },
            },
    {
        let ghost evs = event_views(events@);
        let mut s = Events::new();
        let mut i: usize = 0;
        assert(evs.take(0) =~= Seq::<(Seq<char>, u64, u64)>::empty());
        while i < events.len()
            invariant
                evs == event_views(events@),
                i <= events@.len(),
                s.wf(),
                s.history() == evs.take(i as int),
                folds(evs.take(i as int)),
            decreases events@.len() - i,
        {
            let ghost h = s.history();
            assert(evs.take(i + 1) =~= h.push(events@[i as int]@));
            assert(evs[i as int] == events@[i as int]@);
            match s.add(&events[i]) {
                Ok(()) => {
                    proof {
                        let t = evs.take(i + 1);
                        assert forall|j: int| 0 <= j < t.len() implies !#[trigger] fails_at(t, j) by {
                            if j < i {
                                assert(t.take(j + 1) =~= h.take(j + 1));
                                assert(!fails_at(h, j));
                            } else {
                                assert(t.take(j + 1) =~= t);
                            }
                        }
                    }
                },
                Err(error) => {
                    return Err(EventError { index: i, error });
                },
            }
            i = i + 1;
        }
        assert(evs.take(i as int) =~= evs);
        Ok(s)
    }

    /// The total of `name`, when some event had that name.
    pub fn total_of(&self, name: &str) -> (r: Option<u64>)
        requires
            self.wf(),
        ensures
            match r {
                Some(t) => self.totals().contains_key(name@) && t == self.totals()[name@],
                None => !self.totals().contains_key(name@),
            },
    {
        let i = find_name(&self.entries, name);
        if i < self.entries.len() {
            Some(self.entries[i].micros)
        } else {
            proof {
                if event_names(self.history@).contains(name@) {
                    assert(self.entries@[self.slot@[name@]].name@ == name@);
                }
            }
            None
        }
    }

    /// Every name with its total, largest total first and, on equal
    /// totals, names in ascending order.
    pub fn get_system_times(&self) -> (r: Vec<CategoryTotal>)
        requires
            self.wf(),
        ensures
            forall|i: int| 0 <= i < r@.len() ==> self.totals().contains_key(#[trigger] r@[i].name@)
                && r@[i].micros == self.totals()[r@[i].name@],
            forall|n: Seq<char>| #[trigger] self.totals().contains_key(n) ==> report_names(r@).contains(n),
            distinct_names(r@),
            in_report_order(r@),
            forall|i: int| 0 <= i < r@.len() - 1 ==> #[trigger] r@[i].micros >= r@[i + 1].micros,
    {
        let r = rank_totals(&self.entries);
        proof {
            let e = self.entries@;
            let (idx, pos) = choose|idx: Seq<int>, pos: Seq<int>| arranges(r@, e, idx, pos);
            assert forall|i: int| 0 <= i < r@.len() implies self.totals().contains_key(#[trigger] r@[i].name@)
                && r@[i].micros == self.totals()[r@[i].name@] by {
                assert(0 <= idx[i] < e.len());
                assert(event_names(self.history@).contains(e[idx[i]].name@));
            }
            assert forall|n: Seq<char>| #[trigger] self.totals().contains_key(n) implies report_names(r@).contains(n) by {
                let m = self.slot@[n];
                assert(0 <= pos[m] < r@.len());
                assert(report_names(r@)[pos[m]] == n);
            }
            assert forall|a: int, b: int| 0 <= a < b < r@.len() implies #[trigger] r@[a].name@ != #[trigger] r@[b].name@ by {
                assert(ranks_before(r@[a], r@[b]));
                lemma_lex_irreflexive(r@[a].name@);
            }
        }
        r
    }
}

} // verus!
