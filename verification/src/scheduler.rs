//! Bounded concurrency over the hosts, as a state machine.
//!
//! A [`Scheduler`] decides when the run of the next host may start; its
//! driver starts the runs and reports each one as it ends. Never more than
//! the cap run at once, every host gets its run and its record, once, and the
//! records are kept in the order in which the runs ended.

use crate::aggregate::{host_outcome, record_of};
use crate::host::{opt_text, RemoteHost, RemoteHostView};
use crate::outcome::{
    records_view, OutcomeView, Response, Responses, ResponsesView, RunError, RunErrorView,
    RunResult,
};
use crate::runner::handover_view;
use vstd::prelude::*;
use vstd::set_lib::{lemma_int_range, lemma_len_subset, lemma_subset_equality, set_int_range};

verus! {

/// How many hosts are worked on at the same time, at most.
pub const CONCURRENCY_CAP: usize = 10;

/// What the driver is to do next.
#[derive(Debug, Clone, Copy, PartialEq, Eq)]
pub enum Decision {
    /// Start the run of the host at this place in the list of hosts.
    Start(usize),
    /// Wait for one of the runs under way to end.
    Wait,
    /// Nothing is left to do: collect the records.
    Done,
}

/// Model of a list of hosts.
pub open spec fn hosts_view(hosts: Seq<RemoteHost>) -> Seq<RemoteHostView> {
    hosts.map_values(|host: RemoteHost| host@)
}

/// Model of a [`Scheduler`].
pub struct SchedulerView {
    /// How many runs may be under way at once.
    pub cap: nat,
    /// The hosts, in the order they were asked for.
    pub hosts: Seq<RemoteHostView>,
    /// How many runs have been started; they are those of the first hosts.
    pub started: nat,
    /// The places, in the list of hosts, of the hosts whose runs have ended,
    /// in the order they ended.
    pub ended: Seq<int>,
    /// The records of the runs that have ended, in the order they ended.
    pub collected: Seq<ResponsesView>,
    /// Why the whole invocation was given up, if it was.
    pub fault: Option<Seq<char>>,
}

impl SchedulerView {
    /// The state before any run has started.
    pub open spec fn start(hosts: Seq<RemoteHostView>, cap: nat) -> SchedulerView {
        SchedulerView {
            cap,
            hosts,
            started: 0,
            ended: Seq::empty(),
            collected: Seq::empty(),
            fault: None,
        }
    }

    /// How many runs are under way.
    pub open spec fn active(self) -> int {
        self.started - self.ended.len()
    }

    /// What holds of every state the scheduler can reach: no more runs are
    /// under way than the cap allows; only runs that were started have ended,
    /// none of them twice; and each record is that of the host whose run
    /// ended.
    pub open spec fn inv(self) -> bool {
        &&& self.cap >= 1
        &&& self.started <= self.hosts.len()
        &&& 0 <= self.active() <= self.cap
        &&& self.ended.no_duplicates()
        &&& forall|k: int| 0 <= k < self.ended.len() ==> 0 <= #[trigger] self.ended[k] < self.started
        &&& self.collected.len() == self.ended.len()
        &&& forall|k: int|
            0 <= k < self.ended.len() ==> (#[trigger] self.collected[k]).remote_host
                == self.hosts[self.ended[k]]
    }

    /// What the driver is to do in this state.
    pub open spec fn decision(self) -> Decision {
        if self.fault is Some {
            Decision::Done
        } else if self.started < self.hosts.len() && self.active() < self.cap {
            Decision::Start(self.started as usize)
        } else if self.active() > 0 {
            Decision::Wait
        } else {
            Decision::Done
        }
    }

    /// The state after the run that was due has been started. Where none is
    /// due, nothing changes.
    pub open spec fn after_start(self) -> SchedulerView {
        if self.decision() is Start {
            SchedulerView { started: self.started + 1, ..self }
        } else {
            self
        }
    }

    /// Whether the run of the host at `index` is under way and its end is
    /// still waited for.
    pub open spec fn awaits(self, index: int) -> bool {
        self.fault is None && 0 <= index < self.started && !self.ended.contains(index)
    }

    /// The state after the run of the host at `index` has ended and handed
    /// over `handed`. Where that run is not waited for, nothing changes.
    pub open spec fn after_completion(
        self,
        index: int,
        handed: Result<Seq<OutcomeView>, RunErrorView>,
    ) -> SchedulerView {
        if self.awaits(index) {
            SchedulerView {
                ended: self.ended.push(index),
                collected: self.collected.push(record_of(self.hosts[index], handed)),
                ..self
            }
        } else {
            self
        }
    }

    /// The state after a run has broken down instead of ending. The first
    /// breakdown is the one that is kept.
    pub open spec fn after_fault(self, detail: Seq<char>) -> SchedulerView {
        if self.fault is None {
            SchedulerView { fault: Some(detail), ..self }
        } else {
            self
        }
    }

    /// The run of the host at `index` has ended and the host's record is
    /// among those collected.
    pub open spec fn has_record_of(self, index: int) -> bool {
        exists|k: int|
            0 <= k < self.collected.len() && self.ended[k] == index && (
            #[trigger] self.collected[k]).remote_host == self.hosts[index]
    }

    /// What the invocation yields: the breakdown if there was one, the
    /// records otherwise.
    pub open spec fn result(self) -> Result<Seq<ResponsesView>, RunErrorView> {
        match self.fault {
            Some(detail) => Err(RunErrorView::GeneralError(detail)),
            None => Ok(self.collected),
        }
    }
}

/// Runs that have ended, none twice, all among the first `started` hosts and
/// none at `index`, are fewer than `started`.
proof fn lemma_room_for_one(ended: Seq<int>, started: int, index: int)
    requires
        ended.no_duplicates(),
        forall|k: int| 0 <= k < ended.len() ==> 0 <= #[trigger] ended[k] < started,
        0 <= index < started,
        !ended.contains(index),
    ensures
        ended.len() < started,
{
    let others = set_int_range(0, started).remove(index);
    lemma_int_range(0, started);
    ended.unique_seq_to_set();
    assert(ended.to_set().subset_of(others)) by {
        assert forall|i: int| ended.to_set().contains(i) implies others.contains(i) by {
            let k = choose|k: int| 0 <= k < ended.len() && ended[k] == i;
            assert(0 <= ended[k] < started);
        }
    }
    lemma_len_subset(ended.to_set(), others);
}

/// Whatever happens, no more runs are under way than the cap allows.
pub proof fn lemma_cap_is_kept(
    state: SchedulerView,
    index: int,
    handed: Result<Seq<OutcomeView>, RunErrorView>,
    detail: Seq<char>,
)
    requires
        state.inv(),
    ensures
        state.active() <= state.cap,
        state.after_start().inv(),
        state.after_completion(index, handed).inv(),
        state.after_fault(detail).inv(),
{
    let next = state.after_start();
    assert forall|k: int| 0 <= k < next.ended.len() implies 0 <= #[trigger] next.ended[k]
        < next.started by {
        assert(0 <= state.ended[k] < state.started);
    }
    if state.awaits(index) {
        lemma_room_for_one(state.ended, state.started as int, index);
        let next = state.after_completion(index, handed);
        assert forall|k: int| 0 <= k < next.ended.len() implies 0 <= #[trigger] next.ended[k]
            < next.started by {
            if k < state.ended.len() {
                assert(0 <= state.ended[k] < state.started);
            }
        }
        assert forall|k: int| 0 <= k < next.ended.len() implies (
        #[trigger] next.collected[k]).remote_host == next.hosts[next.ended[k]] by {
            if k < state.ended.len() {
                assert(state.collected[k].remote_host == state.hosts[state.ended[k]]);
            }
        }
    }
}

/// No host is dropped: while nothing has broken down, the scheduler is done
/// only when the run of every host has ended, and then there is one record
/// for each host and each host has its record. Until then there is always a
/// run to start or a run under way to wait for.
pub proof fn lemma_every_host_collected(state: SchedulerView)
    requires
        state.inv(),
        state.fault is None,
    ensures
        state.decision() is Done <==> state.collected.len() == state.hosts.len(),
        state.decision() is Wait ==> state.active() > 0,
        state.decision() is Done ==> {
            &&& state.result() == Ok::<Seq<ResponsesView>, RunErrorView>(state.collected)
            &&& forall|i: int| 0 <= i < state.hosts.len() ==> #[trigger] state.has_record_of(i)
        },
{
    if state.decision() is Done {
        let total = state.hosts.len() as int;
        let all = set_int_range(0, total);
        lemma_int_range(0, total);
        state.ended.unique_seq_to_set();
        assert(state.ended.to_set().subset_of(all)) by {
            assert forall|i: int| state.ended.to_set().contains(i) implies all.contains(i) by {
                let k = choose|k: int| 0 <= k < state.ended.len() && state.ended[k] == i;
                assert(0 <= state.ended[k] < state.started);
            }
        }
        lemma_len_subset(state.ended.to_set(), all);
        lemma_subset_equality(state.ended.to_set(), all);
        assert forall|i: int| 0 <= i < state.hosts.len() implies #[trigger] state.has_record_of(
            i,
        ) by {
            assert(all.contains(i));
            assert(state.ended.to_set().contains(i));
            let k = choose|k: int| 0 <= k < state.ended.len() && state.ended[k] == i;
            assert(state.collected[k].remote_host == state.hosts[state.ended[k]]);
        }
    }
}

/// Model of what an invocation yields.
pub open spec fn yield_view(yielded: RunResult<Vec<Responses>>) -> Result<
    Seq<ResponsesView>,
    RunErrorView,
> {
    match yielded {
        Ok(records) => Ok(records_view(records@)),
        Err(error) => Err(error@),
    }
}

/// Model of the places of the hosts whose runs have ended.
pub open spec fn places_view(places: Seq<usize>) -> Seq<int> {
    places.map_values(|place: usize| place as int)
}

/// The pacing of the hosts' runs.
pub struct Scheduler {
    cap: usize,
    hosts: Vec<RemoteHost>,
    started: usize,
    /// For each host, whether its run has ended.
    over: Vec<bool>,
    ended: Vec<usize>,
    collected: Vec<Responses>,
    fault: Option<String>,
}

impl View for Scheduler {
    type V = SchedulerView;

    closed spec fn view(&self) -> SchedulerView {
        SchedulerView {
            cap: self.cap as nat,
            hosts: hosts_view(self.hosts@),
            started: self.started as nat,
            ended: places_view(self.ended@),
            collected: records_view(self.collected@),
            fault: opt_text(self.fault),
        }
    }
}

impl Scheduler {
    #[verifier::type_invariant]
    spec fn reachable(&self) -> bool {
        &&& self@.inv()
        &&& self.over.len() == self.hosts.len()
        &&& forall|i: int|
            0 <= i < self.over.len() ==> (#[trigger] self.over[i] <==> places_view(
                self.ended@,
            ).contains(i))
    }

    /// The scheduler before any run has started.
    fn fresh(hosts: Vec<RemoteHost>, cap: usize) -> (scheduler: Scheduler)
        requires
            cap >= 1,
        ensures
            scheduler@ == SchedulerView::start(hosts_view(hosts@), cap as nat),
            scheduler@.inv(),
    {
        let mut over: Vec<bool> = Vec::new();
        while over.len() < hosts.len()
            invariant
                over.len() <= hosts.len(),
                forall|i: int| 0 <= i < over.len() ==> !#[trigger] over[i],
            decreases hosts.len() - over.len(),
        {
            over.push(false);
        }
        let ended: Vec<usize> = Vec::new();
        let collected: Vec<Responses> = Vec::new();
        proof {
            assert(places_view(ended@) =~= Seq::empty());
            assert(records_view(collected@) =~= Seq::empty());
        }
        Scheduler { cap, hosts, started: 0, over, ended, collected, fault: None }
    }

    /// A scheduler for `hosts` under the usual cap.
    pub fn new(hosts: Vec<RemoteHost>) -> (scheduler: Scheduler)
        ensures
            scheduler@ == SchedulerView::start(hosts_view(hosts@), CONCURRENCY_CAP as nat),
            scheduler@.inv(),
    {
        Scheduler::fresh(hosts, CONCURRENCY_CAP)
    }

    /// A scheduler for `hosts` that lets `cap` runs be under way at once. A
    /// cap of zero would let none start, so there is no scheduler for it.
    pub fn with_cap(hosts: Vec<RemoteHost>, cap: usize) -> (scheduler: Option<Scheduler>)
        ensures
            cap == 0 <==> scheduler is None,
            scheduler matches Some(s) ==> s@ == SchedulerView::start(hosts_view(hosts@), cap as nat)
                && s@.inv(),
    {
        if cap == 0 {
            None
        } else {
            Some(Scheduler::fresh(hosts, cap))
        }
    }

    /// How many runs are under way.
    pub fn active(&self) -> (active: usize)
        ensures
            active == self@.active(),
            active <= self@.cap,
            self@.inv(),
    {
        proof {
            use_type_invariant(self);
        }
        self.started - self.ended.len()
    }

    /// How many records have been collected.
    pub fn collected(&self) -> (count: usize)
        ensures
            count == self@.collected.len(),
    {
        self.collected.len()
    }

    /// What the driver is to do now.
    pub fn decide(&self) -> (decision: Decision)
        ensures
            decision == self@.decision(),
            self@.inv(),
    {
        proof {
            use_type_invariant(self);
        }
        let active = self.started - self.ended.len();
        if self.fault.is_some() {
            Decision::Done
        } else if self.started < self.hosts.len() && active < self.cap {
            Decision::Start(self.started)
        } else if active > 0 {
            Decision::Wait
        } else {
            Decision::Done
        }
    }

    /// Marks the run that is due as started and names the host it is for,
    /// with its place in the list of hosts. Where no run is due, nothing
    /// changes and no host is named.
    pub fn start(self) -> (next: (Scheduler, Option<(usize, RemoteHost)>))
        ensures
            next.0@ == self@.after_start(),
            next.0@.inv(),
            next.0@.active() <= next.0@.cap,
            match next.1 {
                Some((index, host)) => self@.decision() == Decision::Start(index) && host@
                    == self@.hosts[index as int],
                None => !(self@.decision() is Start),
            },
    {
        proof {
            use_type_invariant(&self);
            lemma_cap_is_kept(self@, 0, Ok(Seq::empty()), Seq::empty());
        }
        match self.decide() {
            Decision::Start(index) => {
                let Scheduler { cap, hosts, started, over, ended, collected, fault } = self;
                let host = hosts[index].clone();
                (
                    Scheduler { cap, hosts, started: started + 1, over, ended, collected, fault },
                    Some((index, host)),
                )
            },
            _ => (self, None),
        }
    }

    /// Takes what the run of the host at `index` handed over when it ended
    /// and keeps the host's record. Where that run is not waited for,
    /// because it was never started, has ended before, or the invocation
    /// has been given up, nothing changes.
    pub fn complete(self, index: usize, handed: RunResult<Vec<RunResult<Response>>>) -> (next:
        Scheduler)
        ensures
            next@ == self@.after_completion(index as int, handover_view(handed)),
            next@.inv(),
            next@.active() <= next@.cap,
    {
        proof {
            use_type_invariant(&self);
            lemma_cap_is_kept(self@, index as int, handover_view(handed), Seq::empty());
        }
        if self.fault.is_none() && index < self.started && !self.over[index] {
            let ghost before = self@;
            let Scheduler { cap, hosts, started, mut over, mut ended, mut collected, fault } = self;
            let record = host_outcome(hosts[index].clone(), handed);
            let ghost places = places_view(ended@);
            let ghost records = records_view(collected@);
            let ghost flags = over@;
            over.set(index, true);
            ended.push(index);
            collected.push(record);
            proof {
                assert(places_view(ended@) =~= places.push(index as int));
                assert(records_view(collected@) =~= records.push(record@));
                assert forall|i: int| 0 <= i < over.len() implies (#[trigger] over[i]
                    <==> places_view(ended@).contains(i)) by {
                    if i == index {
                        assert(places_view(ended@)[places.len() as int] == i);
                    } else {
                        assert(over[i] == flags[i]);
                        if places.contains(i) {
                            let k = choose|k: int| 0 <= k < places.len() && places[k] == i;
                            assert(places_view(ended@)[k] == i);
                        }
                    }
                }
            }
            Scheduler { cap, hosts, started, over, ended, collected, fault }
        } else {
            self
        }
    }

    /// Takes note that a run broke down instead of ending, which gives up
    /// the whole invocation.
    pub fn fail(self, detail: String) -> (next: Scheduler)
        ensures
            next@ == self@.after_fault(detail@),
            next@.inv(),
    {
        proof {
            use_type_invariant(&self);
        }
        if self.fault.is_none() {
            let Scheduler { cap, hosts, started, over, ended, collected, fault } = self;
            Scheduler { cap, hosts, started, over, ended, collected, fault: Some(detail) }
        } else {
            self
        }
    }

    /// Ends the invocation: the breakdown if there was one, else the records
    /// in the order in which the runs ended.
    pub fn finish(self) -> (yielded: RunResult<Vec<Responses>>)
        ensures
            yield_view(yielded) == self@.result(),
            self@.inv(),
    {
        proof {
            use_type_invariant(&self);
        }
        let Scheduler { cap, hosts, started, over, ended, collected, fault } = self;
        match fault {
            Some(detail) => Err(RunError::GeneralError(detail)),
            None => Ok(collected),
        }
    }
}

} // verus!
