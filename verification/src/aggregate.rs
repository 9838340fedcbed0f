//! Putting what was collected into its final order.
//!
//! Hosts finish in any order. Before anything is shown, each host's entries
//! are put in the order of their commands and the hosts in the order of
//! their names. Both sorts are stable, so the result depends on nothing but
//! what was collected.

use crate::host::{RemoteHost, RemoteHostView};
use crate::order::{
    ascending, asymmetric, chains, is_insert_place, lemma_ascending_is_sorted,
    lemma_insert_at_place, lemma_sort_ascending, lemma_sort_entry_given,
    lemma_sort_fixes_ascending, lemma_sort_idempotent, lemma_sort_permutes, lemma_sort_stable,
    sorted, stable_sort, unordered_among,
};
use crate::outcome::{
    outcome_position, outcome_view, outcomes_view, position_of, positions_rise, records_view,
    OutcomeView, Response, ResponseView, Responses, ResponsesView, RunErrorView, RunResult,
};
use crate::runner::{handover_view, lemma_run_entries_rise, RunnerView};
use crate::text::{lemma_text_lt_total_order, text_before, text_lt};
use vstd::prelude::*;

verus! {

/// An entry comes before another when both belong to a command and the
/// first one's command is the earlier. Entries that belong to no command
/// come neither before nor after anything.
pub open spec fn position_lt(a: OutcomeView, b: OutcomeView) -> bool {
    match (position_of(a), position_of(b)) {
        (Some(p), Some(q)) => p < q,
        _ => false,
    }
}

/// The order of a host's entries.
pub open spec fn by_position() -> spec_fn(OutcomeView, OutcomeView) -> bool {
    |a: OutcomeView, b: OutcomeView| position_lt(a, b)
}

/// The order of the hosts' records: by host name.
pub open spec fn by_host() -> spec_fn(ResponsesView, ResponsesView) -> bool {
    |a: ResponsesView, b: ResponsesView| text_lt(a.remote_host.host, b.remote_host.host)
}

/// A host's entries in the order of their commands.
pub open spec fn ordered(entries: Seq<OutcomeView>) -> Seq<OutcomeView> {
    stable_sort(entries, by_position())
}

/// A host's record with its entries in the order of their commands.
pub open spec fn settled(record: ResponsesView) -> ResponsesView {
    ResponsesView { remote_host: record.remote_host, responses: ordered(record.responses) }
}

/// The final order: every record settled, the records by host name.
pub open spec fn aggregated(records: Seq<ResponsesView>) -> Seq<ResponsesView> {
    stable_sort(records.map_values(|record: ResponsesView| settled(record)), by_host())
}

/// The record kept for a host, from what its run handed over: the entries
/// in the order of their commands, or the connection error alone.
pub open spec fn record_of(
    remote_host: RemoteHostView,
    handed: Result<Seq<OutcomeView>, RunErrorView>,
) -> ResponsesView {
    match handed {
        Ok(entries) => ResponsesView { remote_host, responses: ordered(entries) },
        Err(error) => ResponsesView { remote_host, responses: seq![Err(error)] },
    }
}

/// Both orders are asymmetric, and the order of hosts chains.
pub proof fn lemma_orders_behave()
    ensures
        asymmetric(by_position()),
        asymmetric(by_host()),
        chains(by_host()),
{
    assert forall|a: ResponsesView, b: ResponsesView| #[trigger] by_host()(a, b) implies !by_host()(
        b,
        a,
    ) by {
        lemma_text_lt_total_order(a.remote_host.host, b.remote_host.host, a.remote_host.host);
    }
    assert forall|a: ResponsesView, b: ResponsesView, c: ResponsesView|
        !(#[trigger] by_host()(b, a)) && !(#[trigger] by_host()(c, b)) implies !by_host()(c, a) by {
        lemma_text_lt_total_order(a.remote_host.host, b.remote_host.host, c.remote_host.host);
    }
}

/// Whether `a` comes before `b` in the order of a host's entries.
pub fn outcome_before(a: &RunResult<Response>, b: &RunResult<Response>) -> (before: bool)
    ensures
        before == position_lt(outcome_view(*a), outcome_view(*b)),
{
    match (outcome_position(a), outcome_position(b)) {
        (Some(p), Some(q)) => p < q,
        _ => false,
    }
}

/// Puts a host's entries in the order of their commands. One entry after the
/// other moves forward past the entries of later commands that stand right
/// before it; it passes no entry of the same or of an earlier command, and
/// none that belongs to no command.
pub fn order_outcomes(responses: Vec<RunResult<Response>>) -> (result: Vec<RunResult<Response>>)
    ensures
        outcomes_view(result@) == ordered(outcomes_view(responses@)),
{
    let ghost given = outcomes_view(responses@);
    let mut entries = responses;
    let mut i: usize = 0;
    proof {
        assert(given.take(0) =~= Seq::<OutcomeView>::empty());
        assert(outcomes_view(entries@).take(0) =~= stable_sort(given.take(0), by_position()));
        assert(outcomes_view(entries@).skip(0) =~= given.skip(0));
    }
    while i < entries.len()
        invariant
            i <= entries.len(),
            entries.len() == given.len(),
            outcomes_view(entries@).take(i as int) == stable_sort(
                given.take(i as int),
                by_position(),
            ),
            outcomes_view(entries@).skip(i as int) == given.skip(i as int),
        decreases entries.len() - i,
    {
        let ghost before = outcomes_view(entries@);
        let ghost front = before.take(i as int);
        let ghost x = before[i as int];
        let mut j: usize = i;
        while j > 0 && outcome_before(&entries[i], &entries[j - 1])
            invariant
                j <= i < entries.len(),
                before == outcomes_view(entries@),
                x == before[i as int],
                forall|k: int| j <= k < i ==> position_lt(x, #[trigger] before[k]),
            decreases j,
        {
            j = j - 1;
        }
        proof {
            assert(x == given.skip(i as int)[0]);
            assert(given.take(i + 1).drop_last() =~= given.take(i as int));
            assert(given.take(i + 1).last() == x);
            assert forall|k: int| j <= k < front.len() implies by_position()(
                x,
                #[trigger] front[k],
            ) by {
                assert(front[k] == before[k]);
            }
            if j > 0 {
                assert(front[j - 1] == before[j - 1]);
            }
            assert(is_insert_place(front, x, by_position(), j as int));
            lemma_insert_at_place(front, x, by_position(), j as int);
        }
        if j < i {
            let entry = entries.remove(i);
            entries.insert(j, entry);
        }
        proof {
            let after = outcomes_view(entries@);
            assert(after.take(i + 1) =~= front.insert(j as int, x));
            assert(after.skip(i + 1) =~= before.skip(i as int).skip(1));
            assert(given.skip(i as int).skip(1) =~= given.skip(i + 1));
        }
        i = i + 1;
    }
    proof {
        assert(outcomes_view(entries@).take(i as int) =~= outcomes_view(entries@));
        assert(given.take(i as int) =~= given);
    }
    entries
}

/// The record kept for a host, from what its run handed over.
pub fn host_outcome(remote_host: RemoteHost, handed: RunResult<Vec<RunResult<Response>>>) -> (record:
    Responses)
    ensures
        record@ == record_of(remote_host@, handover_view(handed)),
{
    match handed {
        Ok(responses) => Responses { remote_host, responses: order_outcomes(responses) },
        Err(error) => {
            let mut responses: Vec<RunResult<Response>> = Vec::new();
            responses.push(Err(error));
            proof {
                assert(outcomes_view(responses@) =~= seq![Err(error@)]);
            }
            Responses { remote_host, responses }
        },
    }
}

/// Puts the records in the order of their host names. Records of the same
/// host keep their places relative to each other.
pub fn sort_by_host(records: Vec<Responses>) -> (result: Vec<Responses>)
    ensures
        records_view(result@) == stable_sort(records_view(records@), by_host()),
{
    let ghost given = records_view(records@);
    let mut entries = records;
    let mut i: usize = 0;
    proof {
        assert(given.take(0) =~= Seq::<ResponsesView>::empty());
        assert(records_view(entries@).take(0) =~= stable_sort(given.take(0), by_host()));
        assert(records_view(entries@).skip(0) =~= given.skip(0));
    }
    while i < entries.len()
        invariant
            i <= entries.len(),
            entries.len() == given.len(),
            records_view(entries@).take(i as int) == stable_sort(given.take(i as int), by_host()),
            records_view(entries@).skip(i as int) == given.skip(i as int),
        decreases entries.len() - i,
    {
        let ghost before = records_view(entries@);
        let ghost front = before.take(i as int);
        let ghost x = before[i as int];
        let mut j: usize = i;
        while j > 0 && text_before(
            entries[i].remote_host.host.as_str(),
            entries[j - 1].remote_host.host.as_str(),
        )
            invariant
                j <= i < entries.len(),
                before == records_view(entries@),
                x == before[i as int],
                forall|k: int| j <= k < i ==> by_host()(x, #[trigger] before[k]),
            decreases j,
        {
            j = j - 1;
        }
        proof {
            assert(x == given.skip(i as int)[0]);
            assert(given.take(i + 1).drop_last() =~= given.take(i as int));
            assert(given.take(i + 1).last() == x);
            assert forall|k: int| j <= k < front.len() implies by_host()(x, #[trigger] front[k]) by {
                assert(front[k] == before[k]);
            }
            if j > 0 {
                assert(front[j - 1] == before[j - 1]);
            }
            assert(is_insert_place(front, x, by_host(), j as int));
            lemma_insert_at_place(front, x, by_host(), j as int);
        }
        if j < i {
            let entry = entries.remove(i);
            entries.insert(j, entry);
        }
        proof {
            let after = records_view(entries@);
            assert(after.take(i + 1) =~= front.insert(j as int, x));
            assert(after.skip(i + 1) =~= before.skip(i as int).skip(1));
            assert(given.skip(i as int).skip(1) =~= given.skip(i + 1));
        }
        i = i + 1;
    }
    proof {
        assert(records_view(entries@).take(i as int) =~= records_view(entries@));
        assert(given.take(i as int) =~= given);
    }
    entries
}

/// Puts what was collected into its final order: each host's entries in the
/// order of their commands, the hosts in the order of their names.
pub fn aggregate(records: Vec<Responses>) -> (result: Vec<Responses>)
    ensures
        records_view(result@) == aggregated(records_view(records@)),
{
    let ghost given = records_view(records@);
    let mut rest = records;
    let mut done: Vec<Responses> = Vec::new();
    proof {
        assert(records_view(done@) =~= given.take(0).map_values(
            |record: ResponsesView| settled(record),
        ));
    }
    while rest.len() > 0
        invariant
            done.len() + rest.len() == given.len(),
            records_view(rest@) == given.skip(done.len() as int),
            records_view(done@) == given.take(done.len() as int).map_values(
                |record: ResponsesView| settled(record),
            ),
        decreases rest.len(),
    {
        let ghost before = records_view(rest@);
        let Responses { remote_host, responses } = rest.remove(0);
        let record = Responses { remote_host, responses: order_outcomes(responses) };
        let ghost count = done.len() as int;
        let ghost settled_so_far = records_view(done@);
        done.push(record);
        proof {
            assert(record@ == settled(before[0]));
            assert(before[0] == given[count]);
            assert(records_view(rest@) =~= before.skip(1));
            assert(before.skip(1) =~= given.skip(count + 1));
            assert(records_view(done@) =~= settled_so_far.push(record@));
            assert(given.take(count + 1) =~= given.take(count).push(given[count]));
            assert(records_view(done@) =~= given.take(count + 1).map_values(
                |record: ResponsesView| settled(record),
            ));
        }
    }
    proof {
        assert(given.take(done.len() as int) =~= given);
    }
    sort_by_host(done)
}

/// The final order holds every host that was collected, by host name, and
/// no entry of a host comes before its left neighbour.
pub proof fn lemma_aggregated_in_order(records: Seq<ResponsesView>)
    ensures
        aggregated(records).len() == records.len(),
        aggregated(records).map_values(|record: ResponsesView| record.remote_host).to_multiset()
            == records.map_values(|record: ResponsesView| record.remote_host).to_multiset(),
        sorted(aggregated(records), by_host()),
        forall|i: int|
            0 <= i < aggregated(records).len() ==> ascending(
                (#[trigger] aggregated(records)[i]).responses,
                by_position(),
            ),
{
    let each = records.map_values(|record: ResponsesView| settled(record));
    let out = aggregated(records);
    lemma_orders_behave();
    lemma_sort_permutes(each, by_host());
    lemma_sort_ascending(each, by_host());
    lemma_ascending_is_sorted(out, by_host());
    assert forall|i: int| 0 <= i < out.len() implies ascending(
        (#[trigger] out[i]).responses,
        by_position(),
    ) by {
        lemma_sort_entry_given(each, by_host(), i);
        let j = choose|j: int| 0 <= j < each.len() && each[j] == out[i];
        lemma_sort_ascending(records[j].responses, by_position());
    }
    lemma_hosts_kept(each, out);
    assert(each.map_values(|record: ResponsesView| record.remote_host) =~= records.map_values(
        |record: ResponsesView| record.remote_host,
    ));
}

/// Records that are permutations of each other name the same hosts, each as
/// often.
proof fn lemma_hosts_kept(a: Seq<ResponsesView>, b: Seq<ResponsesView>)
    requires
        a.to_multiset() == b.to_multiset(),
    ensures
        a.map_values(|record: ResponsesView| record.remote_host).to_multiset() == b.map_values(
            |record: ResponsesView| record.remote_host,
        ).to_multiset(),
    decreases a.len(),
{
    let host = |record: ResponsesView| record.remote_host;
    vstd::seq_lib::to_multiset_len(a);
    vstd::seq_lib::to_multiset_len(b);
    if a.len() == 0 {
        assert(a.map_values(host) =~= b.map_values(host));
    } else {
        let last = a.last();
        let front = a.drop_last();
        assert(a.contains(last));
        vstd::seq_lib::to_multiset_contains(a, last);
        vstd::seq_lib::to_multiset_contains(b, last);
        let at = choose|at: int| 0 <= at < b.len() && b[at] == last;
        let others = b.remove(at);
        assert(front.push(last) =~= a);
        vstd::seq_lib::to_multiset_build(front, last);
        vstd::seq_lib::to_multiset_remove(b, at);
        assert(front.to_multiset() =~= a.to_multiset().remove(last));
        lemma_hosts_kept(front, others);
        let (names_a, names_b) = (a.map_values(host), b.map_values(host));
        assert(names_a =~= front.map_values(host).push(host(last)));
        assert(names_b.remove(at) =~= others.map_values(host));
        vstd::seq_lib::to_multiset_build(front.map_values(host), host(last));
        vstd::seq_lib::to_multiset_remove(names_b, at);
        vstd::seq_lib::to_multiset_contains(names_b, host(last));
        assert(names_b.contains(names_b[at]));
        assert(names_b.to_multiset() =~= names_b.remove(at).to_multiset().insert(host(last)));
    }
}

/// Entries whose positions rise strictly are in order already.
pub proof fn lemma_rising_entries_kept(entries: Seq<OutcomeView>)
    requires
        positions_rise(entries),
    ensures
        ordered(entries) == entries,
{
    assert forall|i: int| 0 <= i < entries.len() - 1 implies !by_position()(
        #[trigger] entries[i + 1],
        entries[i],
    ) by {
        let (a, b) = (entries[i], entries[i + 1]);
        assert(match (position_of(a), position_of(b)) {
            (Some(p), Some(q)) => p < q,
            _ => true,
        });
    }
    lemma_sort_fixes_ascending(entries, by_position());
}

/// The record kept for a host whose run has reached `state`: its entries as
/// the run recorded them, their positions rising strictly, or the
/// connection error alone.
pub proof fn lemma_record_of_run(state: RunnerView)
    requires
        state.inv(),
    ensures
        record_of(state.remote_host, state.result()).remote_host == state.remote_host,
        positions_rise(record_of(state.remote_host, state.result()).responses),
        match state.refused {
            Some(detail) => record_of(state.remote_host, state.result()).responses
                == seq![Err::<ResponseView, RunErrorView>(RunErrorView::SshConnectionError(detail))],
            None => record_of(state.remote_host, state.result()).responses == state.entries,
        },
{
    if state.refused is None {
        lemma_run_entries_rise(state);
        lemma_rising_entries_kept(state.entries);
    }
}

/// Where the positions of every collected host's entries rise strictly, as
/// they do in what a run hands over, they still do in the final order: each
/// host's entries are those that were collected for it, unchanged.
pub proof fn lemma_aggregated_keeps_rising(records: Seq<ResponsesView>)
    requires
        forall|j: int| 0 <= j < records.len() ==> positions_rise((#[trigger] records[j]).responses),
    ensures
        forall|i: int|
            0 <= i < aggregated(records).len() ==> {
                &&& records.contains(#[trigger] aggregated(records)[i])
                &&& positions_rise(aggregated(records)[i].responses)
            },
{
    let each = records.map_values(|record: ResponsesView| settled(record));
    let out = aggregated(records);
    assert forall|i: int| 0 <= i < out.len() implies records.contains(#[trigger] out[i])
        && positions_rise(out[i].responses) by {
        lemma_sort_entry_given(each, by_host(), i);
        let j = choose|j: int| 0 <= j < each.len() && each[j] == out[i];
        lemma_rising_entries_kept(records[j].responses);
        assert(settled(records[j]) == records[j]);
    }
}

/// The records of the host called `name`.
pub open spec fn of_host(name: Seq<char>) -> spec_fn(ResponsesView) -> bool {
    |record: ResponsesView| record.remote_host.host == name
}

/// The entries of the command at `position`.
pub open spec fn at_position(position: nat) -> spec_fn(OutcomeView) -> bool {
    |entry: OutcomeView| position_of(entry) == Some(position)
}

/// Ties are broken stably: records of one and the same host stand in the
/// final order as they were collected, and so do, in each record, the
/// entries of one and the same command.
pub proof fn lemma_aggregated_stable(records: Seq<ResponsesView>, name: Seq<char>, position: nat)
    ensures
        aggregated(records).filter(of_host(name)) == records.map_values(
            |record: ResponsesView| settled(record),
        ).filter(of_host(name)),
        forall|j: int|
            0 <= j < records.len() ==> settled(#[trigger] records[j]).responses.filter(
                at_position(position),
            ) == records[j].responses.filter(at_position(position)),
{
    assert forall|a: ResponsesView, b: ResponsesView|
        of_host(name)(a) && of_host(name)(b) implies !#[trigger] by_host()(a, b) by {
        lemma_text_lt_total_order(name, name, name);
    }
    lemma_sort_stable(
        records.map_values(|record: ResponsesView| settled(record)),
        by_host(),
        of_host(name),
    );
    assert(unordered_among(at_position(position), by_position()));
    assert forall|j: int| 0 <= j < records.len() implies settled(
        #[trigger] records[j],
    ).responses.filter(at_position(position)) == records[j].responses.filter(
        at_position(position),
    ) by {
        lemma_sort_stable(records[j].responses, by_position(), at_position(position));
    }
}

/// Putting the final order into final order changes nothing.
pub proof fn lemma_aggregated_idempotent(records: Seq<ResponsesView>)
    ensures
        aggregated(aggregated(records)) == aggregated(records),
{
    let each = records.map_values(|record: ResponsesView| settled(record));
    let out = aggregated(records);
    lemma_orders_behave();
    lemma_sort_permutes(each, by_host());
    assert forall|i: int| 0 <= i < out.len() implies settled(#[trigger] out[i]) == out[i] by {
        lemma_sort_entry_given(each, by_host(), i);
        let j = choose|j: int| 0 <= j < each.len() && each[j] == out[i];
        lemma_sort_idempotent(records[j].responses, by_position());
    }
    assert(out.map_values(|record: ResponsesView| settled(record)) =~= out);
    lemma_sort_idempotent(each, by_host());
}

} // verus!
