//! The state machine engine: dispatch loop, hierarchical bubbling, and the
//! path-reconciliation transition algorithm.

use vstd::prelude::*;

use crate::hierarchy::ancestor_chain;
use crate::hierarchy::enter_path;
use crate::hierarchy::exit_path;
use crate::hierarchy::first_common;
use crate::hierarchy::first_index_of;
use crate::hierarchy::forest_ranked;
use crate::hierarchy::lemma_chain;
use crate::hierarchy::lemma_first_common_exact;
use crate::hierarchy::lemma_first_common_none;
use crate::hierarchy::lemma_first_index_of;
use crate::hierarchy::lemma_first_index_of_exact;
use crate::traits::Initializer;
use crate::traits::InstanceParent;
use crate::traits::StateLookup;
use crate::Action;
use crate::Delivery;
use crate::EnterOrExit;
use crate::Event;
use crate::Fatal;
use crate::Response;
use crate::Task;

verus! {

/// `dd` is a completed lifecycle run over `states`: exactly one delivery per
/// state, in the given order, each a non-probe delivery of the given
/// lifecycle event, and each answered with `Ignore` or `Parent` (anything
/// else is fatal and ends the run early).
pub open spec fn lifecycle_run<Id, E>(
    dd: Seq<Delivery<Id, E>>,
    states: Seq<Id>,
    kind: EnterOrExit,
) -> bool {
    &&& dd.len() == states.len()
    &&& forall|i: int|
        0 <= i < dd.len() ==> {
            &&& (#[trigger] dd[i]).state == states[i]
            &&& dd[i].probe == false
            &&& (kind is Enter ==> dd[i].event is Enter)
            &&& (kind is Exit ==> dd[i].event is Exit)
            &&& (dd[i].action is Ignore || dd[i].action is Parent)
        }
}

/// `dd` is a bubbling ascent of the user event `e` along `chain`: probe
/// deliveries to `chain[0]`, `chain[1]`, ... in that order, one each, every
/// one but the last answered `Parent`. The last answer is left open; the
/// states above the last probed one receive nothing.
pub open spec fn probe_ascent<Id, E>(dd: Seq<Delivery<Id, E>>, chain: Seq<Id>, e: E) -> bool {
    &&& 1 <= dd.len() <= chain.len()
    &&& forall|m: int|
        0 <= m < dd.len() ==> {
            &&& (#[trigger] dd[m]).state == chain[m]
            &&& dd[m].event == Event::<E>::User(e)
            &&& dd[m].probe == true
        }
    &&& forall|m: int| 0 <= m < dd.len() - 1 ==> (#[trigger] dd[m]).action is Parent
}

/// `rec` is the delivery a fatal lifecycle violation reports: a non-probe
/// delivery of the given lifecycle event whose answer was neither `Ignore`
/// nor `Parent`.
pub open spec fn offending<Id, E>(rec: Delivery<Id, E>, kind: EnterOrExit) -> bool {
    &&& rec.probe == false
    &&& (kind is Enter ==> rec.event is Enter)
    &&& (kind is Exit ==> rec.event is Exit)
    &&& !(rec.action is Ignore)
    &&& !(rec.action is Parent)
}

/// `dd` is an unfinished bubbling prefix: the first `d` probes of `e` along
/// `chain`, every one answered `Parent`.
spec fn parent_probes<Id, E>(dd: Seq<Delivery<Id, E>>, chain: Seq<Id>, e: E, d: int) -> bool {
    &&& dd.len() == d
    &&& forall|m: int|
        0 <= m < d ==> {
            &&& (#[trigger] dd[m]).state == chain[m]
            &&& dd[m].event == Event::<E>::User(e)
            &&& dd[m].probe == true
            &&& dd[m].action is Parent
        }
}

/// A bubbling prefix extends by one more probe answered `Parent`.
proof fn lemma_probes_push<Id, E>(
    dd: Seq<Delivery<Id, E>>,
    chain: Seq<Id>,
    e: E,
    d: int,
    rec: Delivery<Id, E>,
)
    requires
        parent_probes(dd, chain, e, d),
        0 <= d < chain.len(),
        rec.state == chain[d],
        rec.event == Event::<E>::User(e),
        rec.probe == true,
        rec.action is Parent,
    ensures
        parent_probes(dd.push(rec), chain, e, d + 1),
{
    let dd2 = dd.push(rec);
    assert forall|m: int| 0 <= m < d + 1 implies {
        &&& (#[trigger] dd2[m]).state == chain[m]
        &&& dd2[m].event == Event::<E>::User(e)
        &&& dd2[m].probe == true
        &&& dd2[m].action is Parent
    } by {
        if m < d {
            assert(dd2[m] == dd[m]);
        } else {
            assert(dd2[m] == rec);
        }
    }
}

/// A bubbling prefix plus the deciding probe is a bubbling ascent.
proof fn lemma_ascent_from_probes<Id, E>(
    dd: Seq<Delivery<Id, E>>,
    chain: Seq<Id>,
    e: E,
    d: int,
    rec: Delivery<Id, E>,
)
    requires
        parent_probes(dd, chain, e, d),
        0 <= d < chain.len(),
        rec.state == chain[d],
        rec.event == Event::<E>::User(e),
        rec.probe == true,
    ensures
        probe_ascent(dd.push(rec), chain, e),
        dd.push(rec).last() == rec,
        dd.push(rec).len() == d + 1,
{
    let dd2 = dd.push(rec);
    assert forall|m: int| 0 <= m < dd2.len() implies {
        &&& (#[trigger] dd2[m]).state == chain[m]
        &&& dd2[m].event == Event::<E>::User(e)
        &&& dd2[m].probe == true
    } by {
        if m < d {
            assert(dd2[m] == dd[m]);
        } else {
            assert(dd2[m] == rec);
        }
    }
    assert forall|m: int| 0 <= m < dd2.len() - 1 implies (#[trigger] dd2[m]).action is Parent by {
        assert(dd2[m] == dd[m]);
    }
}

/// A lifecycle run extends by one conforming delivery.
proof fn lemma_run_push<Id, E>(
    dd: Seq<Delivery<Id, E>>,
    states: Seq<Id>,
    kind: EnterOrExit,
    rec: Delivery<Id, E>,
)
    requires
        lifecycle_run(dd, states, kind),
        rec.probe == false,
        kind is Enter ==> rec.event is Enter,
        kind is Exit ==> rec.event is Exit,
        rec.action is Ignore || rec.action is Parent,
    ensures
        lifecycle_run(dd.push(rec), states.push(rec.state), kind),
{
    let dd2 = dd.push(rec);
    let st2 = states.push(rec.state);
    assert forall|i: int| 0 <= i < dd2.len() implies {
        &&& (#[trigger] dd2[i]).state == st2[i]
        &&& dd2[i].probe == false
        &&& (kind is Enter ==> dd2[i].event is Enter)
        &&& (kind is Exit ==> dd2[i].event is Exit)
        &&& (dd2[i].action is Ignore || dd2[i].action is Parent)
    } by {
        if i < dd.len() {
            assert(dd2[i] == dd[i] && st2[i] == states[i]);
        } else {
            assert(dd2[i] == rec && st2[i] == rec.state);
        }
    }
}

/// Splits the growth of a sequence across an intermediate stage: the part
/// up to `mid` and the part after it are subranges of the whole growth.
proof fn lemma_delta_split<T>(pre: Seq<T>, mid: Seq<T>, fin: Seq<T>)
    requires
        pre.is_prefix_of(mid),
        mid.is_prefix_of(fin),
    ensures
        pre.is_prefix_of(fin),
        fin.skip(pre.len() as int).len() == fin.len() - pre.len(),
        fin.skip(pre.len() as int).take(mid.len() - pre.len()) == mid.skip(pre.len() as int),
        fin.skip(pre.len() as int).skip(mid.len() - pre.len()) == fin.skip(mid.len() as int),
{
    assert(mid.subrange(0, pre.len() as int) =~= pre);
    assert(fin.subrange(0, mid.len() as int) =~= mid);
    assert(fin.subrange(0, pre.len() as int) =~= pre);
    assert(fin.skip(pre.len() as int).take(mid.len() - pre.len()) =~= mid.skip(
        pre.len() as int,
    ));
    assert(fin.skip(pre.len() as int).skip(mid.len() - pre.len()) =~= fin.skip(
        mid.len() as int,
    ));
}

/// Two suffixes of one sequence share their last element.
proof fn lemma_suffix_last<T>(fin: Seq<T>, a: int, b: int)
    requires
        0 <= a <= b < fin.len(),
    ensures
        fin.skip(a).len() >= 1,
        fin.skip(b).len() >= 1,
        fin.skip(a).last() == fin.skip(b).last(),
{
    assert(fin.skip(a).last() == fin[fin.len() - 1]);
    assert(fin.skip(b).last() == fin[fin.len() - 1]);
}

/// Scans pending exit tasks for the first one naming `x`.
#[verifier::loop_isolation(false)]
fn find_state<Id: Copy + InstanceParent<Id>>(tasks: &Vec<Task<Id>>, x: &Id) -> (r: Option<usize>)
    ensures
        match r {
            Option::Some(i) => i < tasks@.len() && first_index_of(
                tasks@.map_values(|t: Task<Id>| t.state),
                *x,
            ) == Option::Some(i as int),
            Option::None => first_index_of(tasks@.map_values(|t: Task<Id>| t.state), *x) is None,
        },
{
    let ghost states = tasks@.map_values(|t: Task<Id>| t.state);
    let n = tasks.len();
    let mut i: usize = 0;
    while i < n
        invariant
            i <= n,
            forall|j: int| 0 <= j < i ==> states[j] != *x,
        decreases n - i,
    {
        if tasks[i].state.eq_id(x) {
            proof {
                lemma_first_index_of_exact(states, *x, i as int);
            }
            return Option::Some(i);
        }
        i = i + 1;
    }
    proof {
        lemma_first_index_of(states, *x);
    }
    Option::None
}

/// The hierarchical state machine engine.
///
/// Owns the current state identifier, the started flag, the state table, the
/// shared context, and two transient task lists used as scratch space within
/// one `start`/`input` call. The contracts of `start` and `input` are stated
/// over the state table's delivery history, which every dispatch extends by
/// exactly one record.
pub struct StateMachine<UsrStStr, UsrStEnum, UsrShrData> {
    current: UsrStEnum,
    started: bool,
    states: UsrStStr,
    shr_data: UsrShrData,
    exit_tasks: Vec<Task<UsrStEnum>>,
    enter_tasks: Vec<Task<UsrStEnum>>,
}

impl<UsrStStr, UsrStEnum, UsrShrData> StateMachine<UsrStStr, UsrStEnum, UsrShrData> where
    UsrStStr: Initializer,
    UsrStEnum: Copy + InstanceParent<UsrStEnum>,
 {
    /// The current state identifier.
    pub closed spec fn current_spec(&self) -> UsrStEnum {
        self.current
    }

    /// Whether `start` has completed.
    pub closed spec fn started_spec(&self) -> bool {
        self.started
    }

    /// The shared context.
    pub closed spec fn shr_data_spec(&self) -> UsrShrData {
        self.shr_data
    }

    /// The state table, as an abstract value: what the delivery history of
    /// every event type is read from.
    pub closed spec fn table_spec(&self) -> UsrStStr {
        self.states
    }

    /// Every delivery the state table performed so far, oldest first: the
    /// table's own history, which only [`StateLookup::dispatch`] extends.
    pub closed spec fn deliveries<UsrEvtEnum, EvtData>(&self) -> Seq<
        Delivery<UsrStEnum, UsrEvtEnum>,
    > where UsrStStr: StateLookup<UsrStEnum, UsrEvtEnum, UsrShrData, EvtData> {
        self.states.deliveries()
    }

    /// Two machine values with the same table value have the same delivery
    /// history: lets a caller carry the history across `data_mut`, which
    /// leaves the table untouched.
    pub proof fn lemma_table_deliveries<UsrEvtEnum, EvtData>(a: &Self, b: &Self) where
        UsrStStr: StateLookup<UsrStEnum, UsrEvtEnum, UsrShrData, EvtData>
        requires
            a.table_spec() == b.table_spec(),
        ensures
            a.deliveries::<UsrEvtEnum, EvtData>() == b.deliveries::<UsrEvtEnum, EvtData>(),
    {
    }

    /// Both transient task lists are empty: holds at the start and at the end
    /// of every `start`/`input` call.
    pub closed spec fn wf(&self) -> bool {
        self.exit_tasks@.len() == 0 && self.enter_tasks@.len() == 0
    }

    /// Creates the machine over `initial` without running any handler.
    pub fn new(initial: UsrStEnum, shared_data: UsrShrData) -> (sm: Self)
        ensures
            sm.wf(),
            !sm.started_spec(),
            sm.current_spec() == initial,
            sm.shr_data_spec() == shared_data,
    {
        StateMachine {
            current: initial,
            started: false,
            states: UsrStStr::new(),
            shr_data: shared_data,
            exit_tasks: Vec::new(),
            enter_tasks: Vec::new(),
        }
    }

    /// Read access to the shared context.
    pub fn data(&self) -> (r: &UsrShrData)
        ensures
            *r == self.shr_data_spec(),
    {
        &self.shr_data
    }

    /// Write access to the shared context; nothing else of the machine moves.
    pub fn data_mut(&mut self) -> (r: &mut UsrShrData)
        ensures
            *r == old(self).shr_data_spec(),
            final(self).shr_data_spec() == *final(r),
            final(self).current_spec() == old(self).current_spec(),
            final(self).started_spec() == old(self).started_spec(),
            final(self).table_spec() == old(self).table_spec(),
            final(self).wf() == old(self).wf(),
    {
        &mut self.shr_data
    }

    /// Enters the initial state and each of its ancestors, topmost ancestor
    /// first, the initial state last, and marks the machine started.
    ///
    /// Must be called exactly once, before any `input`. On success the
    /// deliveries made are exactly one `Enter` per state of the initial
    /// state's ancestor chain, in root-to-leaf order, and nothing else.
    #[verifier::loop_isolation(false)]
    pub fn start<UsrEvtEnum, EvtData>(&mut self, data: &mut EvtData) -> (r: Result<
        (),
        Fatal<UsrStEnum>,
    >) where UsrStStr: StateLookup<UsrStEnum, UsrEvtEnum, UsrShrData, EvtData>
        requires
            old(self).wf(),
            !old(self).started_spec(),
            forest_ranked::<UsrStEnum>(),
        ensures
            final(self).wf(),
            final(self).current_spec() == old(self).current_spec(),
            final(self).started_spec() == (r is Ok),
            r matches Err(f) ==> f matches Fatal::LifecycleTransition(_, k) && k is Enter,
            old(self).deliveries::<UsrEvtEnum, EvtData>().is_prefix_of(
                final(self).deliveries::<UsrEvtEnum, EvtData>(),
            ),
            r is Ok ==> lifecycle_run(
                final(self).deliveries::<UsrEvtEnum, EvtData>().skip(
                    old(self).deliveries::<UsrEvtEnum, EvtData>().len() as int,
                ),
                ancestor_chain(old(self).current_spec()).reverse(),
                EnterOrExit::Enter,
            ),
            r matches Err(Fatal::LifecycleTransition(s, k)) ==> {
                let rev = ancestor_chain(old(self).current_spec()).reverse();
                let dd = final(self).deliveries::<UsrEvtEnum, EvtData>().skip(
                    old(self).deliveries::<UsrEvtEnum, EvtData>().len() as int,
                );
                exists|i: int|
                    {
                        &&& 0 <= i < rev.len()
                        &&& #[trigger] rev[i] == s
                        &&& dd.len() == i + 1
                        &&& lifecycle_run(dd.take(i), rev.take(i), EnterOrExit::Enter)
                        &&& dd[i].state == s
                        &&& offending(dd[i], EnterOrExit::Enter)
                    }
            },
    {
        let ghost chain = ancestor_chain(old(self).current_spec());
        proof {
            lemma_chain(old(self).current_spec());
        }
        let mut cursor: Option<UsrStEnum> = Option::Some(self.current);
        let ghost mut k: int = 0;
        while cursor.is_some()
            invariant
                0 <= k <= chain.len(),
                k < chain.len() ==> cursor == Option::Some(chain[k]),
                k == chain.len() ==> cursor is None,
                self.enter_tasks@.map_values(|t: Task<UsrStEnum>| t.state) == chain.take(k),
                forall|i: int|
                    0 <= i < self.enter_tasks@.len() ==> (#[trigger] self.enter_tasks@[i]).enter_or_exit is Enter,
                self.exit_tasks@ == old(self).exit_tasks@,
                self.current == old(self).current,
                self.started == old(self).started,
                self.states == old(self).states,
            decreases chain.len() - k,
        {
            let state = cursor.unwrap();
            cursor = state.get_parent();
            self.enter_tasks.push(Task::new(state, EnterOrExit::Enter));
            proof {
                lemma_chain(old(self).current_spec());
                assert(state == chain[k]);
                assert(chain.take(k + 1) =~= chain.take(k).push(state));
                assert(self.enter_tasks@.map_values(|t: Task<UsrStEnum>| t.state) =~= chain.take(
                    k,
                ).push(state));
                k = k + 1;
            }
        }
        proof {
            assert(chain.take(chain.len() as int) =~= chain);
        }
        match self.process_enter_tasks(data) {
            Result::Ok(()) => {
                self.started = true;
                Result::Ok(())
            },
            Result::Err(f) => Result::Err(f),
        }
    }

    /// Delivers `Exit` to every pending exit task, in list order (leaf to
    /// root), then clears the list. A task answering anything but
    /// `Ignore`/`Parent` is fatal.
    #[verifier::loop_isolation(false)]
    fn process_exit_tasks<UsrEvtEnum, EvtData>(&mut self, data: &mut EvtData) -> (r: Result<
        (),
        Fatal<UsrStEnum>,
    >) where UsrStStr: StateLookup<UsrStEnum, UsrEvtEnum, UsrShrData, EvtData>
        requires
            forall|i: int|
                0 <= i < old(self).exit_tasks@.len() ==> (#[trigger] old(
                    self,
                ).exit_tasks@[i]).enter_or_exit is Exit,
        ensures
            final(self).exit_tasks@.len() == 0,
            final(self).enter_tasks@ == old(self).enter_tasks@,
            final(self).current_spec() == old(self).current_spec(),
            final(self).started_spec() == old(self).started_spec(),
            r matches Err(f) ==> f matches Fatal::LifecycleTransition(_, k) && k is Exit,
            old(self).states.deliveries().is_prefix_of(final(self).states.deliveries()),
            r is Ok ==> lifecycle_run(
                final(self).states.deliveries().skip(old(self).states.deliveries().len() as int),
                old(self).exit_tasks@.map_values(|t: Task<UsrStEnum>| t.state),
                EnterOrExit::Exit,
            ),
            r matches Err(Fatal::LifecycleTransition(s, k)) ==> {
                let run_states = old(self).exit_tasks@.map_values(|t: Task<UsrStEnum>| t.state);
                let dd = final(self).states.deliveries().skip(
                    old(self).states.deliveries().len() as int,
                );
                exists|i: int|
                    {
                        &&& 0 <= i < run_states.len()
                        &&& #[trigger] run_states[i] == s
                        &&& dd.len() == i + 1
                        &&& lifecycle_run(dd.take(i), run_states.take(i), EnterOrExit::Exit)
                        &&& dd[i].state == s
                        &&& offending(dd[i], EnterOrExit::Exit)
                    }
            },
            r matches Err(Fatal::LifecycleTransition(s, k)) ==> {
                let dd = final(self).states.deliveries().skip(
                    old(self).states.deliveries().len() as int,
                );
                dd.len() >= 1 && dd.last().state == s && offending(dd.last(), k)
            },
    {
        let ghost pre_deliv = self.states.deliveries();
        let ghost states0 = self.exit_tasks@.map_values(|t: Task<UsrStEnum>| t.state);
        let n = self.exit_tasks.len();
        let mut i: usize = 0;
        while i < n
            invariant
                i <= n,
                self.exit_tasks@ == old(self).exit_tasks@,
                self.enter_tasks@ == old(self).enter_tasks@,
                self.current == old(self).current,
                self.started == old(self).started,
                pre_deliv.is_prefix_of(self.states.deliveries()),
                self.states.deliveries().len() == pre_deliv.len() + i,
                lifecycle_run(
                    self.states.deliveries().skip(pre_deliv.len() as int),
                    states0.take(i as int),
                    EnterOrExit::Exit,
                ),
            decreases n - i,
        {
            let id = self.exit_tasks[i].state;
            let evt: Event<UsrEvtEnum> = self.exit_tasks[i].event();
            let ghost deliv_before = self.states.deliveries();
            let action = self.states.dispatch(&id, &mut self.shr_data, &evt, data, false);
            let ghost arec = (Delivery { state: id, event: evt, probe: false, action: action });
            proof {
                assert(states0.take(i + 1) =~= states0.take(i as int).push(id));
                assert(self.states.deliveries() == deliv_before.push(arec));
                assert(self.states.deliveries().subrange(0, pre_deliv.len() as int)
                    =~= pre_deliv);
            }
            match action {
                Action::Ignore | Action::Parent => {},
                _ => {
                    self.exit_tasks.clear();
                    proof {
                        let dd = self.states.deliveries().skip(pre_deliv.len() as int);
                        assert(dd =~= deliv_before.skip(pre_deliv.len() as int).push(arec));
                        assert(dd.take(i as int) =~= deliv_before.skip(pre_deliv.len() as int));
                        assert(dd[i as int] == arec);
                        assert(dd.last() == arec);
                        assert(states0[i as int] == id);
                        assert(offending(arec, EnterOrExit::Exit));
                    }
                    return Result::Err(Fatal::LifecycleTransition(id, EnterOrExit::Exit));
                },
            }
            proof {
                let dd_old = deliv_before.skip(pre_deliv.len() as int);
                lemma_run_push(dd_old, states0.take(i as int), EnterOrExit::Exit, arec);
                assert(self.states.deliveries().skip(pre_deliv.len() as int) =~= dd_old.push(
                    arec,
                ));
                assert(states0.take(i as int).push(id) =~= states0.take(i + 1));
            }
            i = i + 1;
        }
        self.exit_tasks.clear();
        proof {
            assert(states0.take(n as int) =~= states0);
        }
        Result::Ok(())
    }

    /// Delivers `Enter` to every pending enter task, in reverse list order
    /// (root to leaf), then clears the list. A task answering anything but
    /// `Ignore`/`Parent` is fatal.
    #[verifier::loop_isolation(false)]
    fn process_enter_tasks<UsrEvtEnum, EvtData>(&mut self, data: &mut EvtData) -> (r: Result<
        (),
        Fatal<UsrStEnum>,
    >) where UsrStStr: StateLookup<UsrStEnum, UsrEvtEnum, UsrShrData, EvtData>
        requires
            forall|i: int|
                0 <= i < old(self).enter_tasks@.len() ==> (#[trigger] old(
                    self,
                ).enter_tasks@[i]).enter_or_exit is Enter,
        ensures
            final(self).enter_tasks@.len() == 0,
            final(self).exit_tasks@ == old(self).exit_tasks@,
            final(self).current_spec() == old(self).current_spec(),
            final(self).started_spec() == old(self).started_spec(),
            r matches Err(f) ==> f matches Fatal::LifecycleTransition(_, k) && k is Enter,
            old(self).states.deliveries().is_prefix_of(final(self).states.deliveries()),
            r is Ok ==> lifecycle_run(
                final(self).states.deliveries().skip(old(self).states.deliveries().len() as int),
                old(self).enter_tasks@.map_values(|t: Task<UsrStEnum>| t.state).reverse(),
                EnterOrExit::Enter,
            ),
            r matches Err(Fatal::LifecycleTransition(s, k)) ==> {
                let run_states = old(self).enter_tasks@.map_values(
                    |t: Task<UsrStEnum>| t.state,
                ).reverse();
                let dd = final(self).states.deliveries().skip(
                    old(self).states.deliveries().len() as int,
                );
                exists|i: int|
                    {
                        &&& 0 <= i < run_states.len()
                        &&& #[trigger] run_states[i] == s
                        &&& dd.len() == i + 1
                        &&& lifecycle_run(dd.take(i), run_states.take(i), EnterOrExit::Enter)
                        &&& dd[i].state == s
                        &&& offending(dd[i], EnterOrExit::Enter)
                    }
            },
            r matches Err(Fatal::LifecycleTransition(s, k)) ==> {
                let dd = final(self).states.deliveries().skip(
                    old(self).states.deliveries().len() as int,
                );
                dd.len() >= 1 && dd.last().state == s && offending(dd.last(), k)
            },
    {
        let ghost pre_deliv = self.states.deliveries();
        let ghost states0 = self.enter_tasks@.map_values(|t: Task<UsrStEnum>| t.state);
        let n = self.enter_tasks.len();
        let mut i: usize = n;
        while i > 0
            invariant
                i <= n,
                self.enter_tasks@ == old(self).enter_tasks@,
                self.exit_tasks@ == old(self).exit_tasks@,
                self.current == old(self).current,
                self.started == old(self).started,
                pre_deliv.is_prefix_of(self.states.deliveries()),
                self.states.deliveries().len() == pre_deliv.len() + (n - i),
                lifecycle_run(
                    self.states.deliveries().skip(pre_deliv.len() as int),
                    states0.skip(i as int).reverse(),
                    EnterOrExit::Enter,
                ),
            decreases i,
        {
            i = i - 1;
            let id = self.enter_tasks[i].state;
            let evt: Event<UsrEvtEnum> = self.enter_tasks[i].event();
            let ghost deliv_before = self.states.deliveries();
            let action = self.states.dispatch(&id, &mut self.shr_data, &evt, data, false);
            let ghost arec = (Delivery { state: id, event: evt, probe: false, action: action });
            proof {
                assert(states0.skip(i as int).reverse() =~= states0.skip(i + 1).reverse().push(
                    states0[i as int],
                ));
                assert(self.states.deliveries() == deliv_before.push(arec));
                assert(self.states.deliveries().subrange(0, pre_deliv.len() as int)
                    =~= pre_deliv);
            }
            match action {
                Action::Ignore | Action::Parent => {},
                _ => {
                    self.enter_tasks.clear();
                    proof {
                        assert(states0.skip(i as int).reverse() =~= states0.reverse().take(
                            n - i,
                        ));
                        let rev = states0.reverse();
                        let w = n - i - 1;
                        let dd = self.states.deliveries().skip(pre_deliv.len() as int);
                        assert(dd =~= deliv_before.skip(pre_deliv.len() as int).push(arec));
                        assert(dd.take(w) =~= deliv_before.skip(pre_deliv.len() as int));
                        assert(states0.skip(i + 1).reverse() =~= rev.take(w));
                        assert(dd[w] == arec);
                        assert(dd.last() == arec);
                        assert(rev[w] == id);
                        assert(offending(arec, EnterOrExit::Enter));
                    }
                    return Result::Err(Fatal::LifecycleTransition(id, EnterOrExit::Enter));
                },
            }
            proof {
                let dd_old = deliv_before.skip(pre_deliv.len() as int);
                lemma_run_push(dd_old, states0.skip(i + 1).reverse(), EnterOrExit::Enter, arec);
                assert(self.states.deliveries().skip(pre_deliv.len() as int) =~= dd_old.push(
                    arec,
                ));
            }
        }
        self.enter_tasks.clear();
        proof {
            assert(states0.skip(0) =~= states0);
        }
        Result::Ok(())
    }

    /// Builds the transition's task lists: the pending exit list holds
    /// `from_state` and its ancestors strictly below the nearest common
    /// ancestor with `to_state` (leaf to root), the pending enter list the
    /// destination side below that ancestor (leaf to root, executed in
    /// reverse). No delivery is made.
    #[verifier::loop_isolation(false)]
    fn build_transition_tasks(&mut self, from_state: UsrStEnum, to_state: UsrStEnum)
        requires
            old(self).wf(),
            forest_ranked::<UsrStEnum>(),
        ensures
            final(self).exit_tasks@.map_values(|t: Task<UsrStEnum>| t.state) == exit_path(
                from_state,
                to_state,
            ),
            final(self).enter_tasks@.map_values(|t: Task<UsrStEnum>| t.state).reverse()
                == enter_path(from_state, to_state),
            forall|i: int|
                0 <= i < final(self).exit_tasks@.len()
                    ==> (#[trigger] final(self).exit_tasks@[i]).enter_or_exit is Exit,
            forall|i: int|
                0 <= i < final(self).enter_tasks@.len()
                    ==> (#[trigger] final(self).enter_tasks@[i]).enter_or_exit is Enter,
            final(self).current_spec() == old(self).current_spec(),
            final(self).started_spec() == old(self).started_spec(),
            final(self).states == old(self).states,
            final(self).shr_data == old(self).shr_data,
    {
        let ghost cf = ancestor_chain(from_state);
        let ghost ct = ancestor_chain(to_state);
        proof {
            lemma_chain(from_state);
            lemma_chain(to_state);
        }
        let mut cursor: Option<UsrStEnum> = Option::Some(from_state);
        let ghost mut k: int = 0;
        while cursor.is_some()
            invariant
                0 <= k <= cf.len(),
                k < cf.len() ==> cursor == Option::Some(cf[k]),
                k == cf.len() ==> cursor is None,
                self.exit_tasks@.map_values(|t: Task<UsrStEnum>| t.state) == cf.take(k),
                forall|i: int|
                    0 <= i < self.exit_tasks@.len() ==> (#[trigger] self.exit_tasks@[i]).enter_or_exit is Exit,
                self.enter_tasks@.len() == 0,
                self.current == old(self).current,
                self.started == old(self).started,
                self.states == old(self).states,
                self.shr_data == old(self).shr_data,
            decreases cf.len() - k,
        {
            let state = cursor.unwrap();
            cursor = state.get_parent();
            self.exit_tasks.push(Task::new(state, EnterOrExit::Exit));
            proof {
                lemma_chain(from_state);
                assert(state == cf[k]);
                assert(cf.take(k + 1) =~= cf.take(k).push(state));
                assert(self.exit_tasks@.map_values(|t: Task<UsrStEnum>| t.state) =~= cf.take(
                    k,
                ).push(state));
                k = k + 1;
            }
        }
        proof {
            assert(cf.take(cf.len() as int) =~= cf);
        }
        let mut same_idx: Option<usize> = Option::None;
        let mut walker: Option<UsrStEnum> = Option::Some(to_state);
        let ghost mut j: int = 0;
        while same_idx.is_none() && walker.is_some()
            invariant
                0 <= j <= ct.len(),
                same_idx is None && j < ct.len() ==> walker == Option::Some(ct[j]),
                same_idx is None && j == ct.len() ==> walker is None,
                forall|m: int| 0 <= m < j ==> first_index_of(cf, #[trigger] ct[m]) is None,
                same_idx matches Option::Some(i) ==> j < ct.len() && (i as int) < cf.len()
                    && first_index_of(cf, ct[j]) == Option::Some(i as int),
                self.exit_tasks@.map_values(|t: Task<UsrStEnum>| t.state) == cf,
                forall|i: int|
                    0 <= i < self.exit_tasks@.len() ==> (#[trigger] self.exit_tasks@[i]).enter_or_exit is Exit,
                self.enter_tasks@.map_values(|t: Task<UsrStEnum>| t.state) == ct.take(j),
                forall|i: int|
                    0 <= i < self.enter_tasks@.len() ==> (#[trigger] self.enter_tasks@[i]).enter_or_exit is Enter,
                self.current == old(self).current,
                self.started == old(self).started,
                self.states == old(self).states,
                self.shr_data == old(self).shr_data,
            decreases ct.len() - j + (if same_idx is None {
                1int
            } else {
                0int
            }),
        {
            let state = walker.unwrap();
            match find_state(&self.exit_tasks, &state) {
                Option::Some(i) => {
                    same_idx = Option::Some(i);
                },
                Option::None => {
                    walker = state.get_parent();
                    self.enter_tasks.push(Task::new(state, EnterOrExit::Enter));
                    proof {
                        lemma_chain(to_state);
                        assert(state == ct[j]);
                        assert(ct.take(j + 1) =~= ct.take(j).push(state));
                        assert(self.enter_tasks@.map_values(|t: Task<UsrStEnum>| t.state)
                            =~= ct.take(j).push(state));
                        j = j + 1;
                    }
                },
            }
        }
        let ghost enter_states_rev = match first_common(cf, ct) {
            Option::None => ct,
            Option::Some(jj) => ct.take(jj),
        };
        proof {
            match same_idx {
                Option::Some(_) => {
                    lemma_first_common_exact(cf, ct, j);
                },
                Option::None => {
                    lemma_first_common_none(cf, ct);
                    assert(ct.take(ct.len() as int) =~= ct);
                },
            }
            assert(enter_path(from_state, to_state) == enter_states_rev.reverse());
            assert(self.enter_tasks@.map_values(|t: Task<UsrStEnum>| t.state) == enter_states_rev);
        }
        if let Option::Some(i) = same_idx {
            self.exit_tasks.truncate(i);
            proof {
                assert(self.exit_tasks@.map_values(|t: Task<UsrStEnum>| t.state) =~= cf.take(
                    i as int,
                ));
                assert(exit_path(from_state, to_state) == cf.take(i as int));
            }
        }
        proof {
            assert(self.exit_tasks@.map_values(|t: Task<UsrStEnum>| t.state) == exit_path(
                from_state,
                to_state,
            ));
        }
    }

    /// The path-reconciliation algorithm: exits `from_state` and its
    /// ancestors strictly below the nearest common ancestor with `to_state`
    /// (leaf to root), then enters the states strictly below that ancestor on
    /// the destination side (root side first, `to_state` last). Shared
    /// ancestors are not disturbed; with no common ancestor both full chains
    /// run.
    fn transition<UsrEvtEnum, EvtData>(
        &mut self,
        from_state: UsrStEnum,
        to_state: UsrStEnum,
        data: &mut EvtData,
    ) -> (r: Result<(), Fatal<UsrStEnum>>) where UsrStStr: StateLookup<
        UsrStEnum,
        UsrEvtEnum,
        UsrShrData,
        EvtData,
    >
        requires
            old(self).wf(),
            forest_ranked::<UsrStEnum>(),
        ensures
            final(self).wf(),
            final(self).current_spec() == old(self).current_spec(),
            final(self).started_spec() == old(self).started_spec(),
            r matches Err(f) ==> f matches Fatal::LifecycleTransition(_, _),
            old(self).states.deliveries().is_prefix_of(final(self).states.deliveries()),
            r is Ok ==> {
                let ex = exit_path(from_state, to_state);
                let en = enter_path(from_state, to_state);
                let dd = final(self).states.deliveries().skip(
                    old(self).states.deliveries().len() as int,
                );
                &&& dd.len() == ex.len() + en.len()
                &&& lifecycle_run(dd.take(ex.len() as int), ex, EnterOrExit::Exit)
                &&& lifecycle_run(dd.skip(ex.len() as int), en, EnterOrExit::Enter)
            },
            r matches Err(Fatal::LifecycleTransition(s, k)) ==> {
                let ex = exit_path(from_state, to_state);
                let en = enter_path(from_state, to_state);
                let dd = final(self).states.deliveries().skip(
                    old(self).states.deliveries().len() as int,
                );
                ||| (k is Exit && (exists|i: int|
                    {
                        &&& 0 <= i < ex.len()
                        &&& #[trigger] ex[i] == s
                        &&& dd.len() == i + 1
                        &&& lifecycle_run(dd.take(i), ex.take(i), EnterOrExit::Exit)
                        &&& dd[i].state == s
                        &&& offending(dd[i], EnterOrExit::Exit)
                    }))
                ||| (k is Enter && (exists|i: int|
                    {
                        &&& 0 <= i < en.len()
                        &&& #[trigger] en[i] == s
                        &&& dd.len() == ex.len() + i + 1
                        &&& lifecycle_run(dd.take(ex.len() as int), ex, EnterOrExit::Exit)
                        &&& lifecycle_run(
                            dd.subrange(ex.len() as int, ex.len() + i),
                            en.take(i),
                            EnterOrExit::Enter,
                        )
                        &&& dd[ex.len() + i].state == s
                        &&& offending(dd[ex.len() + i], EnterOrExit::Enter)
                    }))
            },
            r matches Err(Fatal::LifecycleTransition(s, k)) ==> {
                let dd = final(self).states.deliveries().skip(
                    old(self).states.deliveries().len() as int,
                );
                dd.len() >= 1 && dd.last().state == s && offending(dd.last(), k)
            },
    {
        let ghost pre_deliv = self.states.deliveries();
        let ghost ex = exit_path(from_state, to_state);
        let ghost en = enter_path(from_state, to_state);
        self.build_transition_tasks(from_state, to_state);
        match self.process_exit_tasks(data) {
            Result::Ok(()) => {},
            Result::Err(f) => {
                self.enter_tasks.clear();
                return Result::Err(f);
            },
        }
        let ghost mid_deliv = self.states.deliveries();
        match self.process_enter_tasks(data) {
            Result::Ok(()) => {},
            Result::Err(f) => {
                proof {
                    let dd_a = mid_deliv.skip(pre_deliv.len() as int);
                    let dd = self.states.deliveries().skip(pre_deliv.len() as int);
                    let dd_b = self.states.deliveries().skip(mid_deliv.len() as int);
                    assert(pre_deliv.is_prefix_of(self.states.deliveries())) by {
                        assert(self.states.deliveries().subrange(0, pre_deliv.len() as int)
                            =~= pre_deliv);
                    }
                    let i = choose|i: int|
                        {
                            &&& 0 <= i < en.len()
                            &&& #[trigger] en[i] == f->LifecycleTransition_0
                            &&& dd_b.len() == i + 1
                            &&& lifecycle_run(dd_b.take(i), en.take(i), EnterOrExit::Enter)
                            &&& dd_b[i].state == f->LifecycleTransition_0
                            &&& offending(dd_b[i], EnterOrExit::Enter)
                        };
                    assert(dd.len() == ex.len() + i + 1);
                    assert(dd.take(ex.len() as int) =~= dd_a);
                    assert(dd.subrange(ex.len() as int, ex.len() + i) =~= dd_b.take(i));
                    assert(dd[ex.len() + i] == dd_b[i]);
                    assert(dd.last() == dd_b.last());
                }
                return Result::Err(f);
            },
        }
        proof {
            let dd_a = mid_deliv.skip(pre_deliv.len() as int);
            let dd = self.states.deliveries().skip(pre_deliv.len() as int);
            let dd_b = self.states.deliveries().skip(mid_deliv.len() as int);
            assert(pre_deliv.is_prefix_of(self.states.deliveries())) by {
                assert(self.states.deliveries().subrange(0, pre_deliv.len() as int) =~= pre_deliv);
            }
            assert(dd.take(ex.len() as int) =~= dd_a);
            assert(dd.skip(ex.len() as int) =~= dd_b);
        }
        Result::Ok(())
    }

    /// Delivers a user event: probes the current state, bubbles the event to
    /// successive ancestors while they answer `Parent`, and commits the
    /// outcome.
    ///
    /// `Handled` leaves the current state untouched and delivers no
    /// lifecycle event at all — the deliveries made are exactly one probe of
    /// the event to each state from the current one up to the ignoring
    /// ancestor, in ascending order, so states bubbled past on the way are
    /// never exited and nothing above the decider is probed.
    /// `Transitioned { source, target }` reports the ancestor that decided
    /// and the new current state: after the ascent the states bubbled past
    /// are exited first, then the transition's own exit and enter paths run;
    /// on the probe/commit path the committing call is the next user
    /// delivery after those exits, to the same state with the same event.
    /// The fatal cases report the offending state and leave the machine's
    /// position unspecified.
    #[verifier::loop_isolation(false)]
    #[verifier::rlimit(100)]
    pub fn input<UsrEvtEnum, EvtData>(&mut self, evt: UsrEvtEnum, data: &mut EvtData) -> (r:
        Result<Response<UsrStEnum>, Fatal<UsrStEnum>>) where UsrStStr: StateLookup<
        UsrStEnum,
        UsrEvtEnum,
        UsrShrData,
        EvtData,
    >
        requires
            old(self).wf(),
            forest_ranked::<UsrStEnum>(),
        ensures
            final(self).wf(),
            final(self).started_spec() == old(self).started_spec(),
            old(self).deliveries::<UsrEvtEnum, EvtData>().is_prefix_of(
                final(self).deliveries::<UsrEvtEnum, EvtData>(),
            ),
            (r matches Result::Err(f) && f is NotStarted) <==> !old(self).started_spec(),
            r matches Result::Err(f) && f is NotStarted ==> {
                &&& final(self).current_spec() == old(self).current_spec()
                &&& final(self).shr_data_spec() == old(self).shr_data_spec()
                &&& final(self).deliveries::<UsrEvtEnum, EvtData>() == old(
                    self,
                ).deliveries::<UsrEvtEnum, EvtData>()
            },
            r matches Result::Ok(resp) && resp is Handled ==> {
                let chain = ancestor_chain(old(self).current_spec());
                let dd = final(self).deliveries::<UsrEvtEnum, EvtData>().skip(
                    old(self).deliveries::<UsrEvtEnum, EvtData>().len() as int,
                );
                &&& final(self).current_spec() == old(self).current_spec()
                &&& probe_ascent(dd, chain, evt)
                &&& dd.last().action is Ignore
            },
            r matches Result::Ok(Response::Transitioned { source, target }) ==> {
                let chain = ancestor_chain(old(self).current_spec());
                let dd = final(self).deliveries::<UsrEvtEnum, EvtData>().skip(
                    old(self).deliveries::<UsrEvtEnum, EvtData>().len() as int,
                );
                let ex = exit_path(source, target);
                let en = enter_path(source, target);
                &&& final(self).current_spec() == target
                &&& exists|d: int|
                    {
                        &&& 0 <= d < chain.len()
                        &&& (#[trigger] chain[d]) == source
                        &&& probe_ascent(dd.take(d + 1), chain, evt)
                        &&& lifecycle_run(
                            dd.subrange(d + 1, 2 * d + 1),
                            chain.take(d),
                            EnterOrExit::Exit,
                        )
                        &&& ({
                            ||| {
                                &&& dd.len() == 2 * d + 1 + ex.len() + en.len()
                                &&& dd[d].action == Action::<UsrStEnum>::Transition(target)
                                &&& lifecycle_run(
                                    dd.subrange(2 * d + 1, 2 * d + 1 + ex.len()),
                                    ex,
                                    EnterOrExit::Exit,
                                )
                                &&& lifecycle_run(
                                    dd.skip(2 * d + 1 + ex.len()),
                                    en,
                                    EnterOrExit::Enter,
                                )
                            }
                            ||| {
                                &&& dd.len() == 2 * d + 2 + ex.len() + en.len()
                                &&& dd[d].action is DelayedTransition
                                &&& dd[2 * d + 1].state == source
                                &&& dd[2 * d + 1].event == Event::<UsrEvtEnum>::User(evt)
                                &&& dd[2 * d + 1].probe == false
                                &&& dd[2 * d + 1].action == Action::<UsrStEnum>::Transition(
                                    target,
                                )
                                &&& lifecycle_run(
                                    dd.subrange(2 * d + 2, 2 * d + 2 + ex.len()),
                                    ex,
                                    EnterOrExit::Exit,
                                )
                                &&& lifecycle_run(
                                    dd.skip(2 * d + 2 + ex.len()),
                                    en,
                                    EnterOrExit::Enter,
                                )
                            }
                        })
                    }
            },
            r matches Result::Err(Fatal::NoParent(s)) ==> {
                let chain = ancestor_chain(old(self).current_spec());
                let dd = final(self).deliveries::<UsrEvtEnum, EvtData>().skip(
                    old(self).deliveries::<UsrEvtEnum, EvtData>().len() as int,
                );
                &&& s == chain.last()
                &&& s.parent_spec() is None
                &&& final(self).current_spec() == old(self).current_spec()
                &&& probe_ascent(dd, chain, evt)
                &&& dd.len() == chain.len()
                &&& dd.last().action is Parent
            },
            r matches Result::Err(Fatal::DelayedNotCommitted(s)) ==> {
                let chain = ancestor_chain(old(self).current_spec());
                let dd = final(self).deliveries::<UsrEvtEnum, EvtData>().skip(
                    old(self).deliveries::<UsrEvtEnum, EvtData>().len() as int,
                );
                &&& final(self).current_spec() == old(self).current_spec()
                &&& exists|d: int|
                    {
                        &&& 0 <= d < chain.len()
                        &&& (#[trigger] chain[d]) == s
                        &&& dd.len() == 2 * d + 2
                        &&& probe_ascent(dd.take(d + 1), chain, evt)
                        &&& dd[d].action is DelayedTransition
                        &&& lifecycle_run(
                            dd.subrange(d + 1, 2 * d + 1),
                            chain.take(d),
                            EnterOrExit::Exit,
                        )
                        &&& dd.last().state == s
                        &&& dd.last().event == Event::<UsrEvtEnum>::User(evt)
                        &&& dd.last().probe == false
                        &&& !(dd.last().action is Transition)
                    }
            },
            r matches Result::Err(Fatal::LifecycleTransition(s, k)) ==> {
                let dd = final(self).deliveries::<UsrEvtEnum, EvtData>().skip(
                    old(self).deliveries::<UsrEvtEnum, EvtData>().len() as int,
                );
                &&& dd.len() >= 1
                &&& dd.last().state == s
                &&& offending(dd.last(), k)
            },
    {
        if !self.started {
            return Result::Err(Fatal::NotStarted);
        }
        let ghost chain = ancestor_chain(old(self).current_spec());
        let ghost pre_deliv = self.states.deliveries();
        let ghost e0 = evt;
        proof {
            lemma_chain(old(self).current_spec());
        }
        let user_evt = Event::User(evt);
        let mut state = self.current;
        let ghost mut d: int = 0;
        loop
            invariant
                0 <= d < chain.len(),
                state == chain[d],
                self.exit_tasks@.map_values(|t: Task<UsrStEnum>| t.state) == chain.take(d),
                forall|i: int|
                    0 <= i < self.exit_tasks@.len() ==> (#[trigger] self.exit_tasks@[i]).enter_or_exit is Exit,
                self.enter_tasks@.len() == 0,
                self.current == old(self).current,
                self.started == old(self).started,
                user_evt == Event::<UsrEvtEnum>::User(e0),
                pre_deliv.is_prefix_of(self.states.deliveries()),
                parent_probes(
                    self.states.deliveries().skip(pre_deliv.len() as int),
                    chain,
                    e0,
                    d,
                ),
            decreases chain.len() - d,
        {
            let ghost deliv0 = self.states.deliveries();
            let action = self.states.dispatch(&state, &mut self.shr_data, &user_evt, data, true);
            let ghost prec = (Delivery {
                state: state,
                event: user_evt,
                probe: true,
                action: action,
            });
            proof {
                assert(self.states.deliveries() == deliv0.push(prec));
                assert(self.states.deliveries().subrange(0, pre_deliv.len() as int)
                    =~= pre_deliv);
                assert(self.states.deliveries().skip(pre_deliv.len() as int) =~= deliv0.skip(
                    pre_deliv.len() as int,
                ).push(prec));
            }
            match action {
                Action::Ignore => {
                    self.exit_tasks.clear();
                    proof {
                        lemma_ascent_from_probes(
                            deliv0.skip(pre_deliv.len() as int),
                            chain,
                            e0,
                            d,
                            prec,
                        );
                    }
                    return Result::Ok(Response::Handled);
                },
                Action::Parent => {
                    match state.get_parent() {
                        Option::Some(p) => {
                            self.exit_tasks.push(Task::new(state, EnterOrExit::Exit));
                            proof {
                                lemma_chain(old(self).current_spec());
                                assert(chain.take(d + 1) =~= chain.take(d).push(state));
                                assert(self.exit_tasks@.map_values(|t: Task<UsrStEnum>| t.state)
                                    =~= chain.take(d).push(state));
                                lemma_probes_push(
                                    deliv0.skip(pre_deliv.len() as int),
                                    chain,
                                    e0,
                                    d,
                                    prec,
                                );
                                d = d + 1;
                            }
                            state = p;
                        },
                        Option::None => {
                            self.exit_tasks.clear();
                            proof {
                                lemma_chain(old(self).current_spec());
                                lemma_ascent_from_probes(
                                    deliv0.skip(pre_deliv.len() as int),
                                    chain,
                                    e0,
                                    d,
                                    prec,
                                );
                            }
                            return Result::Err(Fatal::NoParent(state));
                        },
                    }
                },
                Action::Transition(x) => {
                    proof {
                        lemma_ascent_from_probes(
                            deliv0.skip(pre_deliv.len() as int),
                            chain,
                            e0,
                            d,
                            prec,
                        );
                    }
                    let ghost a_deliv = self.states.deliveries();
                    proof {
                        assert(pre_deliv.is_prefix_of(a_deliv)) by {
                            assert(a_deliv.subrange(0, pre_deliv.len() as int) =~= pre_deliv);
                        }
                    }
                    match self.process_exit_tasks(data) {
                        Result::Ok(()) => {},
                        Result::Err(f) => {
                            proof {
                                let fin = self.states.deliveries();
                                lemma_delta_split(pre_deliv, a_deliv, fin);
                                lemma_suffix_last(
                                    fin,
                                    pre_deliv.len() as int,
                                    a_deliv.len() as int,
                                );
                            }
                            return Result::Err(f);
                        },
                    }
                    let ghost b_deliv = self.states.deliveries();
                    self.current = x;
                    match self.transition(state, x, data) {
                        Result::Ok(()) => {},
                        Result::Err(f) => {
                            proof {
                                let fin = self.states.deliveries();
                                lemma_delta_split(a_deliv, b_deliv, fin);
                                lemma_delta_split(pre_deliv, a_deliv, fin);
                                lemma_suffix_last(
                                    fin,
                                    pre_deliv.len() as int,
                                    b_deliv.len() as int,
                                );
                            }
                            return Result::Err(f);
                        },
                    }
                    proof {
                        let ex = exit_path(state, x);
                        let fin = self.states.deliveries();
                        lemma_delta_split(a_deliv, b_deliv, fin);
                        lemma_delta_split(pre_deliv, a_deliv, fin);
                        let dd = fin.skip(pre_deliv.len() as int);
                        assert(dd.take(d + 1) == a_deliv.skip(pre_deliv.len() as int));
                        assert(dd.subrange(d + 1, 2 * d + 1) =~= fin.skip(
                            a_deliv.len() as int,
                        ).take(d));
                        assert(dd.subrange(2 * d + 1, 2 * d + 1 + ex.len()) =~= fin.skip(
                            b_deliv.len() as int,
                        ).take(ex.len() as int));
                        assert(dd.skip(2 * d + 1 + ex.len()) =~= fin.skip(
                            b_deliv.len() as int,
                        ).skip(ex.len() as int));
                        assert(a_deliv[pre_deliv.len() + d] == prec);
                        assert(dd[d] == prec);
                    }
                    return Result::Ok(Response::Transitioned { source: state, target: x });
                },
                Action::DelayedTransition => {
                    proof {
                        lemma_ascent_from_probes(
                            deliv0.skip(pre_deliv.len() as int),
                            chain,
                            e0,
                            d,
                            prec,
                        );
                    }
                    let ghost a_deliv = self.states.deliveries();
                    proof {
                        assert(pre_deliv.is_prefix_of(a_deliv)) by {
                            assert(a_deliv.subrange(0, pre_deliv.len() as int) =~= pre_deliv);
                        }
                    }
                    match self.process_exit_tasks(data) {
                        Result::Ok(()) => {},
                        Result::Err(f) => {
                            proof {
                                let fin = self.states.deliveries();
                                lemma_delta_split(pre_deliv, a_deliv, fin);
                                lemma_suffix_last(
                                    fin,
                                    pre_deliv.len() as int,
                                    a_deliv.len() as int,
                                );
                            }
                            return Result::Err(f);
                        },
                    }
                    let ghost b_deliv = self.states.deliveries();
                    let followup = self.states.dispatch(
                        &state,
                        &mut self.shr_data,
                        &user_evt,
                        data,
                        false,
                    );
                    let ghost crec = (Delivery {
                        state: state,
                        event: user_evt,
                        probe: false,
                        action: followup,
                    });
                    proof {
                        assert(self.states.deliveries() == b_deliv.push(crec));
                        assert(b_deliv.is_prefix_of(self.states.deliveries())) by {
                            assert(self.states.deliveries().subrange(0, b_deliv.len() as int)
                                =~= b_deliv);
                        }
                    }
                    match followup {
                        Action::Transition(x) => {
                            let ghost c_deliv = self.states.deliveries();
                            self.current = x;
                            match self.transition(state, x, data) {
                                Result::Ok(()) => {},
                                Result::Err(f) => {
                                    proof {
                                        let fin = self.states.deliveries();
                                        lemma_delta_split(b_deliv, c_deliv, fin);
                                        lemma_delta_split(a_deliv, b_deliv, fin);
                                        lemma_delta_split(pre_deliv, a_deliv, fin);
                                        lemma_suffix_last(
                                            fin,
                                            pre_deliv.len() as int,
                                            c_deliv.len() as int,
                                        );
                                    }
                                    return Result::Err(f);
                                },
                            }
                            proof {
                                let ex = exit_path(state, x);
                                let fin = self.states.deliveries();
                                lemma_delta_split(b_deliv, c_deliv, fin);
                                lemma_delta_split(a_deliv, b_deliv, fin);
                                lemma_delta_split(pre_deliv, a_deliv, fin);
                                let dd = fin.skip(pre_deliv.len() as int);
                                assert(dd.take(d + 1) == a_deliv.skip(pre_deliv.len() as int));
                                assert(dd.subrange(d + 1, 2 * d + 1) =~= fin.skip(
                                    a_deliv.len() as int,
                                ).take(d));
                                assert(c_deliv[b_deliv.len() as int] == crec);
                                assert(fin.skip(b_deliv.len() as int).take(1) == c_deliv.skip(
                                    b_deliv.len() as int,
                                ));
                                assert(fin[b_deliv.len() as int] == crec) by {
                                    assert(fin.skip(b_deliv.len() as int).take(1)[0] == fin[
                                        b_deliv.len() as int]);
                                }
                                assert(dd[2 * d + 1] == crec);
                                assert(dd.subrange(2 * d + 2, 2 * d + 2 + ex.len()) =~= fin.skip(
                                    c_deliv.len() as int,
                                ).take(ex.len() as int));
                                assert(dd.skip(2 * d + 2 + ex.len()) =~= fin.skip(
                                    c_deliv.len() as int,
                                ).skip(ex.len() as int));
                                assert(a_deliv[pre_deliv.len() + d] == prec);
                                assert(dd[d] == prec);
                            }
                            return Result::Ok(
                                Response::Transitioned { source: state, target: x },
                            );
                        },
                        _ => {
                            proof {
                                let fin = self.states.deliveries();
                                lemma_delta_split(a_deliv, b_deliv, fin);
                                lemma_delta_split(pre_deliv, a_deliv, fin);
                                let dd = fin.skip(pre_deliv.len() as int);
                                assert(dd.take(d + 1) == a_deliv.skip(pre_deliv.len() as int));
                                assert(dd.subrange(d + 1, 2 * d + 1) =~= fin.skip(
                                    a_deliv.len() as int,
                                ).take(d));
                                assert(dd.last() == crec) by {
                                    assert(dd.last() == fin[fin.len() - 1]);
                                }
                                assert(a_deliv[pre_deliv.len() + d] == prec);
                                assert(dd[d] == prec);
                            }
                            return Result::Err(Fatal::DelayedNotCommitted(state));
                        },
                    }
                },
            }
        }
    }
}

} // verus!
