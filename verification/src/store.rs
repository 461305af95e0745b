//! The table of all watched hosts: one liveness record under each host's
//! address, in the order of the host list.

use crate::hosts::{host_views, HostEntry, HostEntryView};
use crate::clock::unix_now;
use crate::state::{State, StateView};
use indexmap::IndexMap;
use vstd::prelude::*;

verus! {

#[verifier::external_type_specification]
#[verifier::external_body]
#[verifier::reject_recursive_types(K)]
#[verifier::reject_recursive_types(V)]
#[verifier::reject_recursive_types(S)]
pub struct ExIndexMap<K, V, S>(IndexMap<K, V, S>);

/// The key and record pairs that `table` holds, in its order.
pub uninterp spec fn table_entries(table: IndexMap<String, State>) -> Seq<(Seq<char>, StateView)>;

/// `entries` holds `key` at index `i` and nowhere else.
pub open spec fn key_only_at(entries: Seq<(Seq<char>, StateView)>, key: Seq<char>, i: int) -> bool {
    &&& 0 <= i < entries.len()
    &&& forall|j: int| 0 <= j < entries.len() ==> ((#[trigger] entries[j]).0 == key <==> j == i)
}

/// `entries` holds `key` nowhere.
pub open spec fn key_absent(entries: Seq<(Seq<char>, StateView)>, key: Seq<char>) -> bool {
    forall|j: int| 0 <= j < entries.len() ==> (#[trigger] entries[j]).0 != key
}

/// `IndexMap::new`: a table that holds nothing.
#[verifier::external_body]
fn table_new() -> (table: IndexMap<String, State>)
    ensures
        table_entries(table) == Seq::<(Seq<char>, StateView)>::empty(),
{
    IndexMap::new()
}

/// `IndexMap::len`: the number of pairs held.
#[verifier::external_body]
fn table_len(table: &IndexMap<String, State>) -> (n: usize)
    ensures
        n == table_entries(*table).len(),
{
    table.len()
}

/// `IndexMap::insert`: where the key is held already, its record is replaced
/// and the pair keeps its place; otherwise the pair goes to the end.
#[verifier::external_body]
fn table_insert(table: &mut IndexMap<String, State>, key: String, state: State)
    ensures
        key_absent(table_entries(*old(table)), key@) ==> table_entries(*final(table))
            == table_entries(*old(table)).push((key@, state@)),
        forall|i: int|
            key_only_at(table_entries(*old(table)), key@, i) ==> table_entries(*final(table))
                == table_entries(*old(table)).update(i, (key@, state@)),
        key_absent(table_entries(*old(table)), key@) || exists|i: int|
            key_only_at(table_entries(*old(table)), key@, i),
{
    let _ = table.insert(key, state);
}

/// `IndexMap::get_index`: the pair at index `i`, where there is one.
#[verifier::external_body]
fn table_get_index(table: &IndexMap<String, State>, i: usize) -> (pair: Option<(&String, &State)>)
    ensures
        match pair {
            Some((key, state)) => i < table_entries(*table).len() && (key@, state@)
                == table_entries(*table)[i as int],
            None => i >= table_entries(*table).len(),
        },
{
    table.get_index(i)
}

/// `IndexMap::get_mut`: the record held under `key`, to be changed in place,
/// where the key is held. A key is held at one index at most, and what is
/// written through the reference is the only change to the table.
#[verifier::external_body]
fn table_get_mut<'a>(table: &'a mut IndexMap<String, State>, key: &str) -> (slot: Option<&'a mut State>)
    ensures
        match slot {
            Some(state) => exists|i: int|
                key_only_at(table_entries(*old(table)), key@, i) && state@ == table_entries(
                    *old(table),
                )[i].1 && table_entries(*final(table)) == table_entries(*old(table)).update(
                    i,
                    (key@, final(state)@),
                ),
            None => key_absent(table_entries(*old(table)), key@) && table_entries(*final(table))
                == table_entries(*old(table)),
        },
{
    table.get_mut(key)
}

/// `entries` holds `key` at index `i` and at no smaller index.
pub open spec fn is_first_index(entries: Seq<(Seq<char>, StateView)>, key: Seq<char>, i: int) -> bool {
    &&& 0 <= i < entries.len()
    &&& entries[i].0 == key
    &&& forall|j: int| 0 <= j < i ==> (#[trigger] entries[j]).0 != key
}

/// The first index at which `entries` holds `key`, if it holds it.
pub open spec fn index_of_key(entries: Seq<(Seq<char>, StateView)>, key: Seq<char>) -> Option<int> {
    if exists|i: int| is_first_index(entries, key, i) {
        Some(choose|i: int| is_first_index(entries, key, i))
    } else {
        None
    }
}

/// No key is held twice.
pub open spec fn distinct_keys(entries: Seq<(Seq<char>, StateView)>) -> bool {
    forall|i: int, j: int|
        0 <= i < j < entries.len() ==> (#[trigger] entries[i]).0 != (#[trigger] entries[j]).0
}

/// No key is held twice, and every history respects its bound.
pub open spec fn wf_entries(entries: Seq<(Seq<char>, StateView)>) -> bool {
    &&& distinct_keys(entries)
    &&& forall|i: int| 0 <= i < entries.len() ==> (#[trigger] entries[i]).1.wf()
}

/// The table after the sample `outcome`, taken at time `now`, is recorded for
/// `key`: the record under that key has taken it, and nothing else changed.
/// Where the key is not held, nothing changed at all.
pub open spec fn with_sample(
    entries: Seq<(Seq<char>, StateView)>,
    key: Seq<char>,
    outcome: i32,
    now: i64,
) -> Seq<(Seq<char>, StateView)> {
    match index_of_key(entries, key) {
        Some(i) => entries.update(i, (key, entries[i].1.recorded(outcome, now))),
        None => entries,
    }
}

/// The table after `state` is put under `key`: in the place that the key
/// has, or at the end where it has none.
pub open spec fn with_host(entries: Seq<(Seq<char>, StateView)>, key: Seq<char>, state: StateView) -> Seq<
    (Seq<char>, StateView),
> {
    match index_of_key(entries, key) {
        Some(i) => entries.update(i, (key, state)),
        None => entries.push((key, state)),
    }
}

/// The table made of `hosts` at time `now`: a fresh record under each
/// address, in the order of the list. Of two hosts with one address the
/// first gives the place and the last the name.
pub open spec fn table_of(hosts: Seq<HostEntryView>, now: i64) -> Seq<(Seq<char>, StateView)>
    decreases hosts.len(),
{
    if hosts.len() == 0 {
        Seq::empty()
    } else {
        with_host(
            table_of(hosts.drop_last(), now),
            hosts.last().ip,
            StateView::fresh(hosts.last().name, now),
        )
    }
}

/// The keys of `entries`, in order.
pub open spec fn keys_of(entries: Seq<(Seq<char>, StateView)>) -> Seq<Seq<char>> {
    entries.map_values(|entry: (Seq<char>, StateView)| entry.0)
}

/// The samples among `events` that are for `key`, in the order of their
/// arrival. An event is a key, an outcome and the time at which it was taken.
pub open spec fn samples_for(events: Seq<(Seq<char>, i32, i64)>, key: Seq<char>) -> Seq<(i32, i64)>
    decreases events.len(),
{
    if events.len() == 0 {
        Seq::empty()
    } else {
        let before = samples_for(events.drop_last(), key);
        if events.last().0 == key {
            before.push((events.last().1, events.last().2))
        } else {
            before
        }
    }
}

/// The table after `events` are recorded one after the other.
pub open spec fn replayed_table(
    entries: Seq<(Seq<char>, StateView)>,
    events: Seq<(Seq<char>, i32, i64)>,
) -> Seq<(Seq<char>, StateView)>
    decreases events.len(),
{
    if events.len() == 0 {
        entries
    } else {
        with_sample(
            replayed_table(entries, events.drop_last()),
            events.last().0,
            events.last().1,
            events.last().2,
        )
    }
}

/// The pairs of `pairs`, by their views.
pub open spec fn pair_views(pairs: Seq<(String, State)>) -> Seq<(Seq<char>, StateView)> {
    pairs.map_values(|pair: (String, State)| (pair.0@, pair.1@))
}

/// A key that is held at one index only is first held there.
pub proof fn lemma_index_of_only(entries: Seq<(Seq<char>, StateView)>, key: Seq<char>, i: int)
    requires
        key_only_at(entries, key, i),
    ensures
        index_of_key(entries, key) == Some(i),
{
    assert(is_first_index(entries, key, i));
    let c = choose|c: int| is_first_index(entries, key, c);
    assert(entries[c].0 == key);
}

/// A key that is held nowhere has no index.
pub proof fn lemma_index_of_absent(entries: Seq<(Seq<char>, StateView)>, key: Seq<char>)
    requires
        key_absent(entries, key),
    ensures
        index_of_key(entries, key) is None,
{
    if exists|i: int| is_first_index(entries, key, i) {
        let c = choose|c: int| is_first_index(entries, key, c);
        assert(entries[c].0 == key);
    }
}

/// Among distinct keys a key that is held at an index is held only there.
pub proof fn lemma_distinct_only_at(entries: Seq<(Seq<char>, StateView)>, i: int)
    requires
        distinct_keys(entries),
        0 <= i < entries.len(),
    ensures
        key_only_at(entries, entries[i].0, i),
        index_of_key(entries, entries[i].0) == Some(i),
{
    assert forall|j: int| 0 <= j < entries.len() implies ((#[trigger] entries[j]).0 == entries[i].0
        <==> j == i) by {
        if j < i {
            assert(entries[j].0 != entries[i].0);
        } else if i < j {
            assert(entries[i].0 != entries[j].0);
        }
    }
    lemma_index_of_only(entries, entries[i].0, i);
}

/// What the index of a key says: the key is held there, or nowhere.
pub proof fn lemma_index_of_key(entries: Seq<(Seq<char>, StateView)>, key: Seq<char>)
    ensures
        match index_of_key(entries, key) {
            Some(i) => is_first_index(entries, key, i),
            None => key_absent(entries, key),
        },
{
    if !(exists|i: int| is_first_index(entries, key, i)) {
        assert forall|j: int| 0 <= j < entries.len() implies (#[trigger] entries[j]).0 != key by {
            lemma_no_first_index(entries, key, j);
        }
    }
}

/// Where no index is the first to hold a key, none holds it.
proof fn lemma_no_first_index(entries: Seq<(Seq<char>, StateView)>, key: Seq<char>, j: int)
    requires
        !(exists|i: int| is_first_index(entries, key, i)),
        0 <= j < entries.len(),
    ensures
        forall|k: int| 0 <= k <= j ==> (#[trigger] entries[k]).0 != key,
    decreases j,
{
    if j > 0 {
        lemma_no_first_index(entries, key, j - 1);
    }
    if entries[j].0 == key {
        assert(is_first_index(entries, key, j));
    }
}

/// A sample changes no key and no place: the table holds the same keys in
/// the same order afterwards, whatever the key of the sample.
pub proof fn lemma_sample_keeps_keys(
    entries: Seq<(Seq<char>, StateView)>,
    key: Seq<char>,
    outcome: i32,
    now: i64,
)
    ensures
        keys_of(with_sample(entries, key, outcome, now)) == keys_of(entries),
        with_sample(entries, key, outcome, now).len() == entries.len(),
        distinct_keys(entries) ==> distinct_keys(with_sample(entries, key, outcome, now)),
        wf_entries(entries) ==> wf_entries(with_sample(entries, key, outcome, now)),
{
    lemma_index_of_key(entries, key);
    let after = with_sample(entries, key, outcome, now);
    assert(keys_of(after) =~= keys_of(entries));
    assert forall|j: int| 0 <= j < entries.len() implies (#[trigger] after[j]).0 == entries[j].0 by {}
    if distinct_keys(entries) {
        assert forall|i: int, j: int| 0 <= i < j < after.len() implies (#[trigger] after[i]).0 != (
        #[trigger] after[j]).0 by {
            assert(after[i].0 == entries[i].0 && after[j].0 == entries[j].0);
        }
    }
    if wf_entries(entries) {
        assert forall|j: int| 0 <= j < after.len() implies (#[trigger] after[j]).1.wf() by {
            assert(entries[j].1.wf());
        }
    }
}

/// A sample for a key that the table does not hold changes nothing, and a
/// sample for a key that it holds changes no record but that key's.
pub proof fn lemma_sample_leaves_others(
    entries: Seq<(Seq<char>, StateView)>,
    key: Seq<char>,
    outcome: i32,
    now: i64,
)
    ensures
        key_absent(entries, key) ==> with_sample(entries, key, outcome, now) == entries,
        forall|j: int|
            0 <= j < entries.len() && (#[trigger] entries[j]).0 != key ==> with_sample(
                entries,
                key,
                outcome,
                now,
            )[j] == entries[j],
{
    lemma_index_of_key(entries, key);
    if key_absent(entries, key) {
        lemma_index_of_absent(entries, key);
    }
}

/// A sample is taken whole or not at all: each pair of the table afterwards
/// is the pair before, or that pair with the sample fully recorded (history
/// and times together).
pub proof fn lemma_sample_is_whole(
    entries: Seq<(Seq<char>, StateView)>,
    key: Seq<char>,
    outcome: i32,
    now: i64,
    j: int,
)
    requires
        0 <= j < entries.len(),
    ensures
        with_sample(entries, key, outcome, now)[j] == entries[j] || with_sample(
            entries,
            key,
            outcome,
            now,
        )[j] == (entries[j].0, entries[j].1.recorded(outcome, now)),
{
    lemma_index_of_key(entries, key);
}

/// Samples for two different keys may arrive in either order: the table is
/// the same afterwards.
pub proof fn lemma_samples_commute(
    entries: Seq<(Seq<char>, StateView)>,
    key1: Seq<char>,
    outcome1: i32,
    now1: i64,
    key2: Seq<char>,
    outcome2: i32,
    now2: i64,
)
    requires
        key1 != key2,
    ensures
        with_sample(with_sample(entries, key1, outcome1, now1), key2, outcome2, now2)
            == with_sample(with_sample(entries, key2, outcome2, now2), key1, outcome1, now1),
{
    let first1 = with_sample(entries, key1, outcome1, now1);
    let first2 = with_sample(entries, key2, outcome2, now2);
    lemma_index_of_key(entries, key1);
    lemma_index_of_key(entries, key2);
    lemma_index_unchanged(entries, key1, outcome1, now1, key2);
    lemma_index_unchanged(entries, key2, outcome2, now2, key1);
    assert(with_sample(first1, key2, outcome2, now2) =~= with_sample(first2, key1, outcome1, now1));
}

/// A sample moves no key: every key has the index afterwards that it had.
pub proof fn lemma_index_unchanged(
    entries: Seq<(Seq<char>, StateView)>,
    key: Seq<char>,
    outcome: i32,
    now: i64,
    other: Seq<char>,
)
    ensures
        index_of_key(with_sample(entries, key, outcome, now), other) == index_of_key(entries, other),
{
    let after = with_sample(entries, key, outcome, now);
    lemma_index_of_key(entries, key);
    lemma_index_of_key(entries, other);
    assert forall|j: int| 0 <= j < entries.len() implies (#[trigger] after[j]).0 == entries[j].0 by {}
    match index_of_key(entries, other) {
        Some(i) => {
            assert(is_first_index(after, other, i)) by {
                assert forall|j: int| 0 <= j < i implies (#[trigger] after[j]).0 != other by {
                    assert(entries[j].0 != other);
                }
            }
            lemma_index_of_first(after, other, i);
        },
        None => {
            assert(key_absent(after, other)) by {
                assert forall|j: int| 0 <= j < after.len() implies (#[trigger] after[j]).0
                    != other by {
                    assert(entries[j].0 != other);
                }
            }
            lemma_index_of_absent(after, other);
        },
    }
}

/// The first index that holds a key is the index of the key.
pub proof fn lemma_index_of_first(entries: Seq<(Seq<char>, StateView)>, key: Seq<char>, i: int)
    requires
        is_first_index(entries, key, i),
    ensures
        index_of_key(entries, key) == Some(i),
{
    let c = choose|c: int| is_first_index(entries, key, c);
    if c < i {
        assert(entries[c].0 != key);
    } else if i < c {
        assert(entries[i].0 != key);
    }
}

/// However the samples for different keys interleave, the record under a
/// key is what its own samples make of it, taken in the order of their
/// arrival: none is lost, none is taken twice, none is taken for another
/// key.
pub proof fn lemma_record_of_key(
    entries: Seq<(Seq<char>, StateView)>,
    events: Seq<(Seq<char>, i32, i64)>,
    i: int,
)
    requires
        distinct_keys(entries),
        0 <= i < entries.len(),
    ensures
        replayed_table(entries, events).len() == entries.len(),
        keys_of(replayed_table(entries, events)) == keys_of(entries),
        distinct_keys(replayed_table(entries, events)),
        replayed_table(entries, events)[i] == (
            entries[i].0,
            entries[i].1.replayed(samples_for(events, entries[i].0)),
        ),
    decreases events.len(),
{
    if events.len() > 0 {
        let earlier = events.drop_last();
        let (key, outcome, now) = events.last();
        let before = replayed_table(entries, earlier);
        lemma_record_of_key(entries, earlier, i);
        lemma_sample_keeps_keys(before, key, outcome, now);
        lemma_sample_leaves_others(before, key, outcome, now);
        assert(before[i].0 == entries[i].0);
        let mine = samples_for(earlier, entries[i].0);
        if key == entries[i].0 {
            lemma_distinct_only_at(before, i);
            assert(samples_for(events, key) == mine.push((outcome, now)));
            assert(mine.push((outcome, now)).drop_last() =~= mine);
            assert(with_sample(before, key, outcome, now)[i] == (
                key,
                before[i].1.recorded(outcome, now),
            ));
        } else {
            assert(samples_for(events, entries[i].0) == mine);
            assert(with_sample(before, key, outcome, now)[i] == before[i]);
        }
    }
}

/// Putting a record under a key keeps a table in order: no key is held
/// twice afterwards, and every history respects its bound where the new one
/// does.
pub proof fn lemma_host_keeps_wf(entries: Seq<(Seq<char>, StateView)>, key: Seq<char>, state: StateView)
    requires
        wf_entries(entries),
        state.wf(),
    ensures
        wf_entries(with_host(entries, key, state)),
{
    lemma_index_of_key(entries, key);
    let after = with_host(entries, key, state);
    assert forall|i: int, j: int| 0 <= i < j < after.len() implies (#[trigger] after[i]).0 != (
    #[trigger] after[j]).0 by {
        if j < entries.len() {
            assert(entries[i].0 != entries[j].0);
            assert(after[i].0 == entries[i].0 && after[j].0 == entries[j].0);
        } else {
            assert(entries[i].0 != key);
        }
    }
    assert forall|i: int| 0 <= i < after.len() implies (#[trigger] after[i]).1.wf() by {
        if i < entries.len() {
            assert(entries[i].1.wf());
        }
    }
}

/// The table made of a host list is in order: no key is held twice, and
/// every record is fresh or respects its bound.
pub proof fn lemma_table_of_wf(hosts: Seq<HostEntryView>, now: i64)
    ensures
        wf_entries(table_of(hosts, now)),
    decreases hosts.len(),
{
    if hosts.len() > 0 {
        lemma_table_of_wf(hosts.drop_last(), now);
        lemma_host_keeps_wf(
            table_of(hosts.drop_last(), now),
            hosts.last().ip,
            StateView::fresh(hosts.last().name, now),
        );
    }
}

/// Where no two hosts of the list have one address, the table holds one
/// fresh record for each host, under its address, in the order of the list.
pub proof fn lemma_table_of_distinct(hosts: Seq<HostEntryView>, now: i64)
    requires
        forall|i: int, j: int|
            0 <= i < j < hosts.len() ==> (#[trigger] hosts[i]).ip != (#[trigger] hosts[j]).ip,
    ensures
        table_of(hosts, now).len() == hosts.len(),
        forall|i: int|
            0 <= i < hosts.len() ==> (#[trigger] table_of(hosts, now)[i]) == (
                hosts[i].ip,
                StateView::fresh(hosts[i].name, now),
            ),
    decreases hosts.len(),
{
    if hosts.len() > 0 {
        let earlier = hosts.drop_last();
        assert forall|i: int, j: int| 0 <= i < j < earlier.len() implies (#[trigger] earlier[i]).ip
            != (#[trigger] earlier[j]).ip by {
            assert(earlier[i] == hosts[i] && earlier[j] == hosts[j]);
        }
        lemma_table_of_distinct(earlier, now);
        let before = table_of(earlier, now);
        assert(key_absent(before, hosts.last().ip)) by {
            assert forall|j: int| 0 <= j < before.len() implies (#[trigger] before[j]).0
                != hosts.last().ip by {
                assert(before[j].0 == earlier[j].ip);
                assert(earlier[j] == hosts[j]);
                assert(hosts[j].ip != hosts[hosts.len() - 1].ip);
            }
        }
        lemma_index_of_absent(before, hosts.last().ip);
        assert forall|i: int| 0 <= i < hosts.len() implies (#[trigger] table_of(hosts, now)[i]) == (
            hosts[i].ip,
            StateView::fresh(hosts[i].name, now),
        ) by {
            if i < earlier.len() {
                assert(table_of(hosts, now)[i] == before[i]);
                assert(earlier[i] == hosts[i]);
            }
        }
    }
}

/// The liveness records of all watched hosts, each under its host's address,
/// in the order of the host list.
pub struct StateStore {
    table: IndexMap<String, State>,
}

impl View for StateStore {
    type V = Seq<(Seq<char>, StateView)>;

    closed spec fn view(&self) -> Seq<(Seq<char>, StateView)> {
        table_entries(self.table)
    }
}

impl StateStore {
    /// The table for `hosts`, made at time `now`.
    pub fn new(hosts: &Vec<HostEntry>, now: i64) -> (store: StateStore)
        ensures
            store@ == table_of(host_views(hosts@), now),
            wf_entries(store@),
    {
        proof {
            lemma_table_of_wf(host_views(hosts@), now);
        }
        let mut table = table_new();
        let mut k: usize = 0;
        while k < hosts.len()
            invariant
                k <= hosts.len(),
                table_entries(table) == table_of(host_views(hosts@).take(k as int), now),
            decreases hosts.len() - k,
        {
            let host = &hosts[k];
            let ghost before = table_entries(table);
            table_insert(&mut table, host.ip.clone(), State::new(host.name.as_str(), now));
            proof {
                let done = host_views(hosts@).take(k + 1);
                assert(done.drop_last() =~= host_views(hosts@).take(k as int));
                assert(done.last() == host@);
                if key_absent(before, host.ip@) {
                    lemma_index_of_absent(before, host.ip@);
                } else {
                    let i = choose|i: int| key_only_at(before, host.ip@, i);
                    lemma_index_of_only(before, host.ip@, i);
                }
            }
            k += 1;
        }
        assert(host_views(hosts@).take(k as int) =~= host_views(hosts@));
        StateStore { table }
    }

    /// The table for `hosts`, made at the time that the clock shows now.
    pub fn start(hosts: &Vec<HostEntry>) -> (store: StateStore)
        ensures
            exists|now: i64| store@ == table_of(host_views(hosts@), now),
            wf_entries(store@),
    {
        let now = unix_now();
        StateStore::new(hosts, now)
    }

    /// The number of hosts in the table.
    pub fn len(&self) -> (n: usize)
        ensures
            n == self@.len(),
    {
        table_len(&self.table)
    }

    /// The address and the record at place `i` of the table.
    pub fn entry(&self, i: usize) -> (pair: Option<(&String, &State)>)
        ensures
            match pair {
                Some((key, state)) => i < self@.len() && (key@, state@) == self@[i as int],
                None => i >= self@.len(),
            },
    {
        table_get_index(&self.table, i)
    }

    /// Records the sample `outcome`, taken at time `now`, for the host under
    /// `key`. A key that the table does not hold is passed over in silence.
    pub fn apply(&mut self, key: &str, outcome: i32, now: i64)
        ensures
            final(self)@ == with_sample(old(self)@, key@, outcome, now),
            keys_of(final(self)@) == keys_of(old(self)@),
            key_absent(old(self)@, key@) ==> final(self)@ == old(self)@,
            wf_entries(old(self)@) ==> wf_entries(final(self)@),
    {
        let ghost before = self@;
        match table_get_mut(&mut self.table, key) {
            Some(state) => {
                state.record(outcome, now);
            },
            None => {},
        }
        proof {
            if key_absent(before, key@) {
                lemma_index_of_absent(before, key@);
            } else {
                let i = choose|i: int| key_only_at(before, key@, i);
                lemma_index_of_only(before, key@, i);
            }
            lemma_sample_keeps_keys(before, key@, outcome, now);
        }
    }

    /// Records the sample `outcome` for the host under `key`, at the time
    /// that the clock shows now. A key that the table does not hold is passed
    /// over in silence.
    pub fn update(&mut self, key: &str, outcome: i32)
        ensures
            exists|now: i64| final(self)@ == with_sample(old(self)@, key@, outcome, now),
            keys_of(final(self)@) == keys_of(old(self)@),
            key_absent(old(self)@, key@) ==> final(self)@ == old(self)@,
            wf_entries(old(self)@) ==> wf_entries(final(self)@),
    {
        let now = unix_now();
        self.apply(key, outcome, now);
    }

    /// A copy of the whole table as it stands: every address with its
    /// record, in the table's order.
    pub fn snapshot(&self) -> (pairs: Vec<(String, State)>)
        ensures
            pair_views(pairs@) == self@,
    {
        let n = self.len();
        let mut pairs: Vec<(String, State)> = Vec::new();
        let mut k: usize = 0;
        while k < n
            invariant
                n == self@.len(),
                k <= n,
                pair_views(pairs@) == self@.take(k as int),
            decreases n - k,
        {
            let ghost before = pair_views(pairs@);
            match self.entry(k) {
                Some((key, state)) => {
                    pairs.push((key.clone(), state.clone()));
                    assert(pair_views(pairs@) =~= before.push(self@[k as int]));
                    assert(before.push(self@[k as int]) =~= self@.take(k + 1));
                },
                None => {},
            }
            k += 1;
        }
        assert(self@.take(n as int) =~= self@);
        pairs
    }
}

} // verus!
