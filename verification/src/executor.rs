//! Hands out tasks to worker threads.
//!
//! Some tasks work on a state that only one thread may have at a time, the
//! thread that holds it. The executor keeps the state while nobody holds it,
//! the tasks that wait, and the threads that sleep because there was nothing
//! for them to do. Sleeping and waking is up to the threads: the executor
//! says who is to sleep and who is to be woken.

use vstd::prelude::*;

verus! {

/// Work for a thread.
#[derive(Debug)]
pub enum Work<F, S, L> {
    /// A task that works on the state, and the state.
    Stateful(F, S),
    /// A task that needs no state.
    Stateless(L),
}

/// What a thread that looks for work is to do.
#[derive(Debug)]
pub enum Steal<F, S, L> {
    /// Do this.
    Ready(Work<F, S, L>),
    /// Sleep until woken, then look again. A thread that holds the state
    /// keeps it.
    Park(Option<S>),
}

/// The executor of a state `S`, with tasks `F` and threads `T`.
#[derive(Debug)]
pub struct Executor<S, F, T> {
    state: Option<S>,
    stateful_list: Vec<F>,
    park_list: Vec<T>,
}

/// What an executor has: the state unless some thread holds it, the tasks and
/// the sleeping threads, the latest last.
pub struct ExecutorState<S, F, T> {
    pub state: Option<S>,
    pub tasks: Seq<F>,
    pub parked: Seq<T>,
}

impl<S, F, T> ExecutorState<S, F, T> {
    pub open spec fn submitted(self, task: F) -> Self {
        ExecutorState {
            tasks: self.tasks.push(task),
            parked: if self.parked.len() > 0 {
                self.parked.drop_last()
            } else {
                self.parked
            },
            ..self
        }
    }

    /// The thread to wake when a task is submitted: the one that fell asleep
    /// last.
    pub open spec fn woken(self) -> Option<T> {
        if self.parked.len() > 0 {
            Some(self.parked.last())
        } else {
            None
        }
    }

    pub open spec fn stolen_with_state(self, thread: T) -> Self {
        if self.tasks.len() > 0 {
            ExecutorState { tasks: self.tasks.drop_last(), ..self }
        } else {
            ExecutorState { parked: self.parked.push(thread), ..self }
        }
    }

    pub open spec fn steal_with_state<L>(self, state: S) -> Steal<F, S, L> {
        if self.tasks.len() > 0 {
            Steal::Ready(Work::Stateful(self.tasks.last(), state))
        } else {
            Steal::Park(Some(state))
        }
    }

    pub open spec fn stolen_without_state(self, thread: T) -> Self {
        if self.state is Some && self.tasks.len() > 0 {
            ExecutorState { state: None, tasks: self.tasks.drop_last(), ..self }
        } else {
            ExecutorState { parked: self.parked.push(thread), ..self }
        }
    }

    pub open spec fn steal_without_state<L>(self) -> Steal<F, S, L> {
        match self.state {
            Some(state) if self.tasks.len() > 0 => Steal::Ready(
                Work::Stateful(self.tasks.last(), state),
            ),
            _ => Steal::Park(None),
        }
    }

    pub open spec fn released(self, state: S) -> Self {
        ExecutorState { state: Some(state), ..self }
    }
}

impl<S, F, T> View for Executor<S, F, T> {
    type V = ExecutorState<S, F, T>;

    closed spec fn view(&self) -> ExecutorState<S, F, T> {
        ExecutorState {
            state: self.state,
            tasks: self.stateful_list@,
            parked: self.park_list@,
        }
    }
}

impl<S, F, T> Executor<S, F, T> {
    /// An executor without tasks and threads.
    pub fn new(state: S) -> (executor: Self)
        ensures
            executor@ == (ExecutorState {
                state: Some(state),
                tasks: Seq::<F>::empty(),
                parked: Seq::<T>::empty(),
            }),
    {
        Executor { state: Some(state), stateful_list: Vec::new(), park_list: Vec::new() }
    }

    /// Adds a task and returns the thread to wake, if one sleeps.
    pub fn submit_stateful(&mut self, task: F) -> (woken: Option<T>)
        ensures
            final(self)@ == old(self)@.submitted(task),
            woken == old(self)@.woken(),
    {
        self.stateful_list.push(task);
        self.park_list.pop()
    }

    /// Looks for work for a thread that holds the state: the latest task, or
    /// sleep.
    pub fn steal_with_state<L>(&mut self, state: S, thread: T) -> (steal: Steal<F, S, L>)
        ensures
            final(self)@ == old(self)@.stolen_with_state(thread),
            steal == old(self)@.steal_with_state::<L>(state),
    {
        match self.stateful_list.pop() {
            Some(task) => Steal::Ready(Work::Stateful(task, state)),
            None => {
                self.park_list.push(thread);
                Steal::Park(Some(state))
            },
        }
    }

    /// Looks for work for a thread without the state: the latest task if the
    /// state is free, or sleep.
    pub fn steal_without_state<L>(&mut self, thread: T) -> (steal: Steal<F, S, L>)
        ensures
            final(self)@ == old(self)@.stolen_without_state(thread),
            steal == old(self)@.steal_without_state::<L>(),
    {
        if let Some(state) = self.state.take() {
            if let Some(task) = self.stateful_list.pop() {
                return Steal::Ready(Work::Stateful(task, state));
            }
            self.state = Some(state);
        }
        self.park_list.push(thread);
        Steal::Park(None)
    }

    /// Whether the state is here and not with a thread.
    pub fn has_state(&self) -> (result: bool)
        ensures
            result == self@.state is Some,
    {
        self.state.is_some()
    }

    /// Takes the state back from the thread that held it.
    pub fn release(&mut self, state: S)
        requires
            old(self)@.state is None,
        ensures
            final(self)@ == old(self)@.released(state),
    {
        self.state = Some(state);
    }
}

/// The latest task goes first, and taking it leaves the tasks that were there
/// before it.
pub proof fn law_latest_task_goes_first<S, F, T, L>(
    executor: ExecutorState<S, F, T>,
    task: F,
    state: S,
    thread: T,
)
    ensures
        executor.submitted(task).steal_with_state::<L>(state) == Steal::<F, S, L>::Ready(
            Work::Stateful(task, state),
        ),
        executor.submitted(task).stolen_with_state(thread).tasks == executor.tasks,
        executor.state == Some(state) ==> executor.submitted(task).steal_without_state::<L>()
            == Steal::<F, S, L>::Ready(Work::Stateful(task, state)),
{
    assert(executor.tasks.push(task).drop_last() =~= executor.tasks);
}

/// The state is with one thread at a time: once a thread got it, no thread
/// that looks for it gets it until it is released.
pub proof fn law_state_is_exclusive<S, F, T, L>(
    executor: ExecutorState<S, F, T>,
    first: T,
    second: T,
)
    requires
        executor.steal_without_state::<L>() is Ready,
    ensures
        executor.state is Some,
        executor.stolen_without_state(first).state is None,
        executor.stolen_without_state(first).steal_without_state::<L>() == Steal::<
            F,
            S,
            L,
        >::Park(None),
        executor.stolen_without_state(first).stolen_without_state(second).state is None,
{
}

/// A thread sleeps exactly when it got no work, and a submission wakes the
/// thread that fell asleep last.
pub proof fn law_sleepers_are_woken<S, F, T, L>(
    executor: ExecutorState<S, F, T>,
    state: S,
    thread: T,
    task: F,
)
    ensures
        executor.steal_without_state::<L>() is Park <==> executor.stolen_without_state(
            thread,
        ).parked == executor.parked.push(thread),
        executor.steal_with_state::<L>(state) is Park <==> executor.stolen_with_state(
            thread,
        ).parked == executor.parked.push(thread),
        executor.steal_without_state::<L>() is Park ==> executor.stolen_without_state(
            thread,
        ).woken() == Some(thread) && executor.stolen_without_state(thread).submitted(task).parked
            == executor.parked,
        executor.steal_with_state::<L>(state) is Park ==> executor.stolen_with_state(
            thread,
        ).woken() == Some(thread) && executor.stolen_with_state(thread).submitted(task).parked
            == executor.parked,
{
    assert(executor.parked.push(thread).drop_last() =~= executor.parked);
    assert(executor.parked.push(thread).len() != executor.parked.len());
}

/// A thread without the state gets work exactly when the state is free and a
/// task waits. It then gets the latest task together with the state, and both
/// leave the executor, while nothing else changes. A thread that gets no work
/// falls asleep, and the state and the tasks stay as they are.
pub proof fn law_state_leaves_only_with_a_task<S, F, T, L>(
    executor: ExecutorState<S, F, T>,
    thread: T,
)
    ensures
        ({
            let after = executor.stolen_without_state(thread);
            match executor.steal_without_state::<L>() {
                Steal::Ready(Work::Stateful(task, state)) => {
                    &&& executor.state == Some(state)
                    &&& executor.tasks == after.tasks.push(task)
                    &&& after.state is None
                    &&& after.parked == executor.parked
                },
                Steal::Ready(Work::Stateless(_)) => false,
                Steal::Park(kept) => {
                    &&& executor.state is None || executor.tasks.len() == 0
                    &&& kept is None
                    &&& after.state == executor.state
                    &&& after.tasks == executor.tasks
                    &&& after.parked == executor.parked.push(thread)
                },
            }
        }),
{
    if executor.tasks.len() > 0 {
        assert(executor.tasks.drop_last().push(executor.tasks.last()) =~= executor.tasks);
    }
}

/// A thread with the state gets work exactly when a task waits: the latest
/// task, which leaves the executor, and the state that it had. Otherwise it
/// falls asleep and keeps the state, and the tasks stay as they are. What the
/// executor itself has of the state does not change.
pub proof fn law_holder_keeps_the_state<S, F, T, L>(
    executor: ExecutorState<S, F, T>,
    state: S,
    thread: T,
)
    ensures
        ({
            let after = executor.stolen_with_state(thread);
            &&& after.state == executor.state
            &&& match executor.steal_with_state::<L>(state) {
                Steal::Ready(Work::Stateful(task, kept)) => {
                    &&& kept == state
                    &&& executor.tasks == after.tasks.push(task)
                    &&& after.parked == executor.parked
                },
                Steal::Ready(Work::Stateless(_)) => false,
                Steal::Park(kept) => {
                    &&& executor.tasks.len() == 0
                    &&& kept == Some(state)
                    &&& after.tasks == executor.tasks
                    &&& after.parked == executor.parked.push(thread)
                },
            }
        }),
{
    if executor.tasks.len() > 0 {
        assert(executor.tasks.drop_last().push(executor.tasks.last()) =~= executor.tasks);
    }
}

/// A submitted task becomes the latest one and leaves the state alone. The
/// thread that fell asleep last is woken and sleeps no more; where nobody
/// sleeps, nobody is woken.
pub proof fn law_submission_adds_one_task<S, F, T>(executor: ExecutorState<S, F, T>, task: F)
    ensures
        ({
            let after = executor.submitted(task);
            &&& after.tasks == executor.tasks.push(task)
            &&& after.state == executor.state
            &&& match executor.woken() {
                Some(thread) => executor.parked == after.parked.push(thread),
                None => executor.parked.len() == 0 && after.parked.len() == 0,
            }
        }),
{
    if executor.parked.len() > 0 {
        assert(executor.parked.drop_last().push(executor.parked.last()) =~= executor.parked);
    }
}

/// A state that is given back is there for the next thread that looks for
/// work: it gets this very state as soon as a task waits. Tasks and sleeping
/// threads are not affected.
pub proof fn law_released_state_is_handed_out<S, F, T, L>(
    executor: ExecutorState<S, F, T>,
    state: S,
)
    ensures
        ({
            let after = executor.released(state);
            &&& after.tasks == executor.tasks
            &&& after.parked == executor.parked
            &&& after.state == Some(state)
            &&& executor.tasks.len() > 0 ==> after.steal_without_state::<L>() == Steal::<
                F,
                S,
                L,
            >::Ready(Work::Stateful(executor.tasks[executor.tasks.len() - 1], state))
        }),
{
}

/// A thread that found no task finds the next one that is submitted, with the
/// state that was free before it looked in vain.
pub proof fn law_vain_look_takes_nothing<S, F, T, L>(
    executor: ExecutorState<S, F, T>,
    state: S,
    thread: T,
    task: F,
)
    requires
        executor.state == Some(state),
        executor.tasks.len() == 0,
    ensures
        executor.steal_without_state::<L>() == Steal::<F, S, L>::Park(None),
        executor.stolen_without_state(thread).submitted(task).steal_without_state::<L>() == Steal::<
            F,
            S,
            L,
        >::Ready(Work::Stateful(task, state)),
{
}

/// Something that is asked of an executor.
pub enum Demand<S, F, T> {
    Submit(F),
    /// A thread that holds the state looks for work.
    StealWith(S, T),
    /// A thread without the state looks for work.
    StealWithout(T),
    Release(S),
}

impl<S, F, T> ExecutorState<S, F, T> {
    /// `demands` are met one after another.
    pub open spec fn after(self, demands: Seq<Demand<S, F, T>>) -> Self
        decreases demands.len(),
    {
        if demands.len() == 0 {
            self
        } else {
            let before = self.after(demands.drop_last());
            match demands.last() {
                Demand::Submit(task) => before.submitted(task),
                Demand::StealWith(_, thread) => before.stolen_with_state(thread),
                Demand::StealWithout(thread) => before.stolen_without_state(thread),
                Demand::Release(state) => before.released(state),
            }
        }
    }

    /// The tasks that are handed out meanwhile, in order.
    pub open spec fn handed_out(self, demands: Seq<Demand<S, F, T>>) -> Seq<F>
        decreases demands.len(),
    {
        if demands.len() == 0 {
            seq![]
        } else {
            let before = self.after(demands.drop_last());
            let steal = match demands.last() {
                Demand::StealWith(state, _) => before.steal_with_state::<()>(state),
                Demand::StealWithout(_) => before.steal_without_state::<()>(),
                _ => Steal::Park(None),
            };
            match steal {
                Steal::Ready(Work::Stateful(task, _)) => self.handed_out(
                    demands.drop_last(),
                ).push(task),
                _ => self.handed_out(demands.drop_last()),
            }
        }
    }
}

/// The tasks among `demands`, in order.
pub open spec fn submissions<S, F, T>(demands: Seq<Demand<S, F, T>>) -> Seq<F>
    decreases demands.len(),
{
    if demands.len() == 0 {
        seq![]
    } else {
        match demands.last() {
            Demand::Submit(task) => submissions(demands.drop_last()).push(task),
            _ => submissions(demands.drop_last()),
        }
    }
}

/// No task is lost and none is handed out twice: at any time the tasks that
/// were handed out and those that wait are the tasks that waited at first and
/// those that were submitted.
pub proof fn law_every_task_is_handed_out_once<S, F, T>(
    executor: ExecutorState<S, F, T>,
    demands: Seq<Demand<S, F, T>>,
)
    ensures
        forall|task: F|
            #![trigger executor.tasks.to_multiset().count(task)]
            executor.handed_out(demands).to_multiset().count(task) + executor.after(
                demands,
            ).tasks.to_multiset().count(task) == executor.tasks.to_multiset().count(task)
                + submissions(demands).to_multiset().count(task),
    decreases demands.len(),
{
    broadcast use vstd::seq_lib::group_to_multiset_ensures;

    if demands.len() > 0 {
        let earlier = demands.drop_last();
        let before = executor.after(earlier);
        let now = executor.after(demands);
        let out = executor.handed_out(earlier);
        law_every_task_is_handed_out_once(executor, earlier);
        match demands.last() {
            Demand::Submit(task) => {
                law_submission_adds_one_task(before, task);
                assert(now.tasks.to_multiset() =~= before.tasks.to_multiset().insert(task));
                assert(submissions(demands).to_multiset() =~= submissions(
                    earlier,
                ).to_multiset().insert(task));
            },
            Demand::StealWith(state, thread) => {
                law_holder_keeps_the_state::<S, F, T, ()>(before, state, thread);
                if let Steal::Ready(Work::Stateful(task, _)) = before.steal_with_state::<()>(
                    state,
                ) {
                    assert(before.tasks.to_multiset() =~= now.tasks.to_multiset().insert(task));
                    assert(out.push(task).to_multiset() =~= out.to_multiset().insert(task));
                }
            },
            Demand::StealWithout(thread) => {
                law_state_leaves_only_with_a_task::<S, F, T, ()>(before, thread);
                if let Steal::Ready(Work::Stateful(task, _)) = before.steal_without_state::<()>() {
                    assert(before.tasks.to_multiset() =~= now.tasks.to_multiset().insert(task));
                    assert(out.push(task).to_multiset() =~= out.to_multiset().insert(task));
                }
            },
            Demand::Release(_) => {},
        }
    } else {
        assert(executor.handed_out(demands) =~= submissions(demands));
    }
}

} // verus!
