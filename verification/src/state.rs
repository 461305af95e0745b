//! The liveness record of one host: a bounded history of probe outcomes and
//! the times of the last sample and of the last successful one.

use crate::clock::unix_now;
use std::collections::VecDeque;
use vstd::prelude::*;

verus! {

/// The outcome that stands for "no measurement this cycle".
pub const FAILURE: i32 = -1;

/// The number of samples a history retains.
pub const HISTORY_CAPACITY: usize = 20;

/// The last `n` elements of `samples`, or all of them where there are fewer.
pub open spec fn newest(samples: Seq<i32>, n: nat) -> Seq<i32> {
    if samples.len() <= n {
        samples
    } else {
        samples.subrange(samples.len() - n, samples.len() as int)
    }
}

/// The history after `outcome` arrives: a full history gives up its oldest
/// sample first, and the new one goes to the end.
pub open spec fn pushed(history: Seq<i32>, outcome: i32) -> Seq<i32> {
    if history.len() == HISTORY_CAPACITY {
        history.drop_first().push(outcome)
    } else {
        history.push(outcome)
    }
}

/// The outcomes of `samples`, without their times.
pub open spec fn outcomes_of(samples: Seq<(i32, i64)>) -> Seq<i32> {
    samples.map_values(|sample: (i32, i64)| sample.0)
}

/// The times of `samples` never go back, and none is before `start`.
pub open spec fn times_ascend(start: i64, samples: Seq<(i32, i64)>) -> bool {
    &&& forall|i: int| 0 <= i < samples.len() ==> start <= (#[trigger] samples[i]).1
    &&& forall|i: int, j: int|
        0 <= i <= j < samples.len() ==> (#[trigger] samples[i]).1 <= (#[trigger] samples[j]).1
}

/// The time `earlier` of a last success is not after `later`: no success
/// yet is before any.
pub open spec fn not_after(earlier: Option<i64>, later: Option<i64>) -> bool {
    match (earlier, later) {
        (None, _) => true,
        (Some(_), None) => false,
        (Some(a), Some(b)) => a <= b,
    }
}

/// What a [`State`] holds, as mathematical values.
pub struct StateView {
    pub name: Seq<char>,
    pub history: Seq<i32>,
    pub last_update: i64,
    pub last_success: Option<i64>,
}

impl StateView {
    /// A record that has seen no sample yet.
    pub open spec fn fresh(name: Seq<char>, now: i64) -> StateView {
        StateView { name, history: Seq::empty(), last_update: now, last_success: None }
    }

    /// The history respects its bound.
    pub open spec fn wf(self) -> bool {
        self.history.len() <= HISTORY_CAPACITY
    }

    /// The record after the samples `samples`, each an outcome and the time at
    /// which it was taken, in the order of their arrival.
    pub open spec fn replayed(self, samples: Seq<(i32, i64)>) -> StateView
        decreases samples.len(),
    {
        if samples.len() == 0 {
            self
        } else {
            self.replayed(samples.drop_last()).recorded(samples.last().0, samples.last().1)
        }
    }

    /// The record after the sample `outcome`, taken at time `now`.
    pub open spec fn recorded(self, outcome: i32, now: i64) -> StateView {
        StateView {
            name: self.name,
            history: pushed(self.history, outcome),
            last_update: now,
            last_success: if outcome != FAILURE {
                Some(now)
            } else {
                self.last_success
            },
        }
    }
}

/// The liveness record of one host. Times are seconds since the Unix epoch.
#[derive(Debug)]
pub struct State {
    pub name: String,
    pub history: VecDeque<i32>,
    pub last_update: i64,
    pub last_success: Option<i64>,
}

impl View for State {
    type V = StateView;

    open spec fn view(&self) -> StateView {
        StateView {
            name: self.name@,
            history: self.history@,
            last_update: self.last_update,
            last_success: self.last_success,
        }
    }
}

impl State {
    /// A record for the host shown as `name`, created at time `now`.
    pub fn new(name: &str, now: i64) -> (state: State)
        ensures
            state@ == StateView::fresh(name@, now),
    {
        State {
            name: name.to_owned(),
            history: VecDeque::new(),
            last_update: now,
            last_success: None,
        }
    }

    /// Records the sample `outcome`, taken at time `now`.
    pub fn record(&mut self, outcome: i32, now: i64)
        ensures
            final(self)@ == old(self)@.recorded(outcome, now),
            final(self)@.last_update == now,
            outcome != FAILURE ==> final(self)@.last_success == Some(now),
            outcome == FAILURE ==> final(self)@.last_success == old(self)@.last_success,
            old(self)@.wf() ==> final(self)@.wf(),
    {
        if self.history.len() == HISTORY_CAPACITY {
            self.history.pop_front();
        }
        self.history.push_back(outcome);
        self.last_update = now;
        if outcome != FAILURE {
            self.last_success = Some(now);
        }
    }
}

/// Recording into a history within its bound leaves the newest samples of
/// all that arrived, the new one last.
pub proof fn lemma_pushed_is_newest(history: Seq<i32>, outcome: i32)
    requires
        history.len() <= HISTORY_CAPACITY,
    ensures
        pushed(history, outcome) == newest(history.push(outcome), HISTORY_CAPACITY as nat),
        pushed(history, outcome).len() <= HISTORY_CAPACITY,
        pushed(history, outcome).last() == outcome,
{
    assert(pushed(history, outcome) =~= newest(history.push(outcome), HISTORY_CAPACITY as nat));
}

/// The newest samples after one more arrival depend only on the newest
/// samples before it.
pub proof fn lemma_newest_push(samples: Seq<i32>, outcome: i32, n: nat)
    requires
        n > 0,
    ensures
        newest(newest(samples, n).push(outcome), n) == newest(samples.push(outcome), n),
{
    assert(newest(newest(samples, n).push(outcome), n) =~= newest(samples.push(outcome), n));
}

/// However many samples arrive, the history never holds more than its
/// capacity, and it holds the newest of them in the order of their arrival:
/// after `n` samples into a fresh record, with `n` over the capacity, those
/// at the places `n - 19` to `n`.
pub proof fn lemma_history_after(start: StateView, samples: Seq<(i32, i64)>)
    requires
        start.wf(),
    ensures
        start.replayed(samples).wf(),
        start.replayed(samples).name == start.name,
        start.replayed(samples).history == newest(
            start.history + outcomes_of(samples),
            HISTORY_CAPACITY as nat,
        ),
    decreases samples.len(),
{
    if samples.len() == 0 {
        assert(start.history + outcomes_of(samples) =~= start.history);
    } else {
        let earlier = samples.drop_last();
        let (outcome, now) = samples.last();
        lemma_history_after(start, earlier);
        let arrived = start.history + outcomes_of(earlier);
        lemma_pushed_is_newest(start.replayed(earlier).history, outcome);
        lemma_newest_push(arrived, outcome, HISTORY_CAPACITY as nat);
        assert(arrived.push(outcome) =~= start.history + outcomes_of(samples));
    }
}

/// A fresh record that has taken `samples` holds the newest of them: all of
/// them up to the capacity, and the last 20 beyond it.
pub proof fn lemma_fresh_history_after(name: Seq<char>, created: i64, samples: Seq<(i32, i64)>)
    ensures
        StateView::fresh(name, created).replayed(samples).history == newest(
            outcomes_of(samples),
            HISTORY_CAPACITY as nat,
        ),
        StateView::fresh(name, created).replayed(samples).history.len() <= HISTORY_CAPACITY,
        samples.len() > HISTORY_CAPACITY ==> StateView::fresh(name, created).replayed(
            samples,
        ).history == outcomes_of(samples).subrange(
            samples.len() - HISTORY_CAPACITY,
            samples.len() as int,
        ),
{
    let start = StateView::fresh(name, created);
    lemma_history_after(start, samples);
    assert(start.history + outcomes_of(samples) =~= outcomes_of(samples));
}

/// The time of the last success is that of the newest sample that is no
/// failure, and is left alone by failures.
pub proof fn lemma_last_success_after(start: StateView, samples: Seq<(i32, i64)>)
    ensures
        (forall|i: int| 0 <= i < samples.len() ==> (#[trigger] samples[i]).0 == FAILURE)
            ==> start.replayed(samples).last_success == start.last_success,
        samples.len() > 0 ==> start.replayed(samples).last_update == samples.last().1,
        samples.len() > 0 && samples.last().0 != FAILURE ==> start.replayed(samples).last_success
            == Some(samples.last().1),
    decreases samples.len(),
{
    if samples.len() > 0 {
        lemma_last_success_after(start, samples.drop_last());
        if forall|i: int| 0 <= i < samples.len() ==> (#[trigger] samples[i]).0 == FAILURE {
            assert forall|i: int| 0 <= i < samples.drop_last().len() implies (
            #[trigger] samples.drop_last()[i]).0 == FAILURE by {
                assert(samples.drop_last()[i] == samples[i]);
            }
        }
    }
}

/// Where the clock never goes back, the time of the last success never goes
/// back either: after more samples it is not before what it was after
/// fewer.
pub proof fn lemma_last_success_ascends(start: StateView, samples: Seq<(i32, i64)>, fewer: int)
    requires
        0 <= fewer <= samples.len(),
        times_ascend(start.last_update, samples),
        start.last_success matches Some(t) ==> t <= start.last_update,
    ensures
        not_after(
            start.replayed(samples.take(fewer)).last_success,
            start.replayed(samples).last_success,
        ),
        start.replayed(samples).last_success matches Some(t) ==> t <= start.replayed(
            samples,
        ).last_update,
        samples.len() > 0 ==> start.replayed(samples).last_update == samples.last().1,
    decreases samples.len(),
{
    if samples.len() == 0 {
        assert(samples.take(fewer) =~= samples);
    } else if fewer == samples.len() {
        assert(samples.take(fewer) =~= samples);
        let earlier = samples.drop_last();
        assert forall|i: int, j: int| 0 <= i <= j < earlier.len() implies (#[trigger] earlier[i]).1
            <= (#[trigger] earlier[j]).1 by {
            assert(earlier[i] == samples[i] && earlier[j] == samples[j]);
        }
        assert forall|i: int| 0 <= i < earlier.len() implies start.last_update <= (
        #[trigger] earlier[i]).1 by {
            assert(earlier[i] == samples[i]);
        }
        lemma_last_success_ascends(start, earlier, earlier.len() as int);
        if earlier.len() > 0 {
            assert(earlier.last() == samples[earlier.len() - 1]);
        }
    } else {
        let earlier = samples.drop_last();
        assert forall|i: int, j: int| 0 <= i <= j < earlier.len() implies (#[trigger] earlier[i]).1
            <= (#[trigger] earlier[j]).1 by {
            assert(earlier[i] == samples[i] && earlier[j] == samples[j]);
        }
        assert forall|i: int| 0 <= i < earlier.len() implies start.last_update <= (
        #[trigger] earlier[i]).1 by {
            assert(earlier[i] == samples[i]);
        }
        lemma_last_success_ascends(start, earlier, fewer);
        assert(earlier.take(fewer) =~= samples.take(fewer));
        if earlier.len() > 0 {
            assert(earlier.last() == samples[earlier.len() - 1]);
        }
    }
}

impl Clone for State {
    fn clone(&self) -> (copy: State)
        ensures
            copy@ == self@,
    {
        let copy = State {
            name: self.name.clone(),
            history: self.history.clone(),
            last_update: self.last_update,
            last_success: self.last_success,
        };
        assert(copy.history@ =~= self.history@);
        copy
    }
}

/// Records the sample `rtt` at the time that the clock shows now.
pub fn update_state(state: &mut State, rtt: i32)
    ensures
        exists|now: i64| final(state)@ == old(state)@.recorded(rtt, now),
        final(state)@.name == old(state)@.name,
        final(state)@.history == pushed(old(state)@.history, rtt),
        rtt != FAILURE ==> final(state)@.last_success == Some(final(state)@.last_update),
        rtt == FAILURE ==> final(state)@.last_success == old(state)@.last_success,
        old(state)@.wf() ==> final(state)@.wf(),
{
    let now = unix_now();
    state.record(rtt, now);
}

} // verus!
