use vstd::prelude::*;
use crossbeam::channel::{Receiver, Sender};
use std::sync::Arc;
use std::sync::atomic::{AtomicBool, AtomicUsize, Ordering};
use crate::channel::{try_recv, try_send, unbounded_channel, TryRecvOutcome};
use crate::nonblocking::{NbPoll, NonblockingFuture};
use crate::wake_set::{new_woken_set, share, woken_keys, woken_remove, TaskSetWaker, WokenSet};

verus! {

/// A task for the pool: a non-blocking future and, once asked for, the
/// waker that reports its wake-ups to the executor that runs it.
pub struct NonblockingTask<F> {
    future: F,
    waker: Option<Arc<TaskSetWaker>>,
    polls: Ghost<nat>,
    ready: Ghost<bool>,
}

impl<F> NonblockingTask<F> {
    /// The future the task drives.
    pub closed spec fn future(self) -> F {
        self.future
    }

    /// The task's waker, if one was asked for.
    pub closed spec fn waker(self) -> Option<Arc<TaskSetWaker>> {
        self.waker
    }

    /// How often the task has been polled.
    pub closed spec fn polls(self) -> nat {
        self.polls@
    }

    /// Whether the task's latest poll answered `Ready`.
    pub closed spec fn answered_ready(self) -> bool {
        self.ready@
    }

    /// A task for `future`, without a waker.
    pub fn new(future: F) -> (t: Self)
        ensures
            t.future() == future,
            t.waker() is None,
            t.polls() == 0,
            !t.answered_ready(),
    {
        NonblockingTask { future, waker: None, polls: Ghost(0), ready: Ghost(false) }
    }

    /// The task's waker, made on first use; later calls hand out the same
    /// waker.
    pub fn waker_handle(&mut self) -> (w: Arc<TaskSetWaker>)
        ensures
            final(self).future() == old(self).future(),
            final(self).polls() == old(self).polls(),
            final(self).answered_ready() == old(self).answered_ready(),
            final(self).waker() == Some(w),
            old(self).waker() matches Some(prev) ==> w == prev,
    {
        match &self.waker {
            Some(w) => share(w),
            None => {
                let w = Arc::new(TaskSetWaker::new());
                let w2 = share(&w);
                self.waker = Some(w);
                w2
            },
        }
    }
}

impl<G: ?Sized> NonblockingTask<Box<G>> {
    /// A task for an already boxed future (a trait object, say), without a
    /// waker.
    pub fn new_boxed(future: Box<G>) -> (t: Self)
        ensures
            t.future() == future,
            t.waker() is None,
            t.polls() == 0,
            !t.answered_ready(),
    {
        NonblockingTask { future, waker: None, polls: Ghost(0), ready: Ghost(false) }
    }
}

impl<F: NonblockingFuture> NonblockingFuture for NonblockingTask<F> {
    type Output = F::Output;

    /// Polls the future once; the waker stays as it is.
    fn poll_nb(&mut self) -> (r: NbPoll<F::Output>)
        ensures
            final(self).waker() == old(self).waker(),
            final(self).polls() == old(self).polls() + 1,
            final(self).answered_ready() == (r is Ready),
    {
        let r = self.future.poll_nb();
        self.polls = Ghost(self.polls@ + 1);
        self.ready = Ghost(r is Ready);
        r
    }
}

/// The task slots of an executor.
pub type Slots<F> = Seq<Option<NonblockingTask<F>>>;

/// `k` is the slot a new task goes into: the first empty slot, or a new slot
/// at the end when none is empty.
pub open spec fn is_first_free<F>(slots: Slots<F>, k: int) -> bool {
    &&& 0 <= k <= slots.len()
    &&& forall|j: int| 0 <= j < k ==> (#[trigger] slots[j]) is Some
    &&& k < slots.len() ==> slots[k] is None
}

/// The tasks that left their slots because they answered `Ready`, by slot.
pub type Gone<F> = Map<int, NonblockingTask<F>>;

/// Slot `i`, which held `t`, is empty and its task left it answering `Ready`
/// after one more poll than `t` had (when `once`), or one or two more.
pub open spec fn left_ready<F>(t: NonblockingTask<F>, gone: Gone<F>, i: int, once: bool) -> bool {
    &&& gone.contains_key(i)
    &&& gone[i].waker() == t.waker()
    &&& gone[i].answered_ready()
    &&& if once {
        gone[i].polls() == t.polls() + 1
    } else {
        t.polls() < gone[i].polls() <= t.polls() + 2
    }
}

/// `t2`, which sits where `t` sat, is `t` after one more poll (when `once`),
/// or one or two more, the latest answering `Pending`.
pub open spec fn stayed_pending<F>(t: NonblockingTask<F>, t2: NonblockingTask<F>, once: bool) -> bool {
    &&& t2.waker() == t.waker()
    &&& !t2.answered_ready()
    &&& if once {
        t2.polls() == t.polls() + 1
    } else {
        t.polls() < t2.polls() <= t.polls() + 2
    }
}

/// Slot `i` after its task, if any, was polled exactly once: a task that
/// answered `Pending` stays, one that answered `Ready` left it.
pub open spec fn polled_once<F>(
    before: Option<NonblockingTask<F>>,
    after: Option<NonblockingTask<F>>,
    gone: Gone<F>,
    i: int,
) -> bool {
    match before {
        None => after is None,
        Some(t) => match after {
            Some(t2) => stayed_pending(t, t2, true),
            None => left_ready(t, gone, i, true),
        },
    }
}

/// Slot `i` after its task, if any, was polled at most once: untouched, or
/// as in `polled_once`.
pub open spec fn polled_at_most_once<F>(
    before: Option<NonblockingTask<F>>,
    after: Option<NonblockingTask<F>>,
    gone: Gone<F>,
    i: int,
) -> bool {
    match before {
        None => after is None,
        Some(t) => match after {
            Some(t2) => t2 == t || stayed_pending(t, t2, true),
            None => left_ready(t, gone, i, true),
        },
    }
}

/// Slot `i` after its task, if any, was polled once or twice: a task whose
/// latest answer was `Pending` stays in the slot, one that answered `Ready`
/// left it.
pub open spec fn stepped_slot<F>(
    before: Option<NonblockingTask<F>>,
    after: Option<NonblockingTask<F>>,
    gone: Gone<F>,
    i: int,
) -> bool {
    match before {
        None => after is None,
        Some(t) => match after {
            Some(t2) => stayed_pending(t, t2, false),
            None => left_ready(t, gone, i, false),
        },
    }
}

/// The record of `gone` at slot `i` is the same in `g1` and `g2`.
pub open spec fn gone_same_at<F>(g1: Gone<F>, g2: Gone<F>, i: int) -> bool {
    &&& g1.contains_key(i) <==> g2.contains_key(i)
    &&& g1.contains_key(i) ==> g2[i] == g1[i]
}

/// Every slot of `before` but `skip` was stepped, as `stepped_slot` says.
pub open spec fn all_stepped<F>(before: Slots<F>, after: Slots<F>, gone: Gone<F>, skip: int) -> bool {
    forall|i: int|
        0 <= i < before.len() && i != skip ==> stepped_slot(before[i], #[trigger] after[i], gone, i)
}

/// A step that took in no task: as many slots as before, each stepped.
pub open spec fn stepped_without_new<F>(before: Slots<F>, after: Slots<F>, gone: Gone<F>) -> bool {
    &&& after.len() == before.len()
    &&& all_stepped(before, after, gone, -1)
}

/// A step that took task `t` into slot `k`, the first free slot: every
/// other slot stepped, and `t` polled at least once, staying in slot `k`
/// unless it answered `Ready`.
pub open spec fn stepped_with_new<F>(
    before: Slots<F>,
    after: Slots<F>,
    gone: Gone<F>,
    k: int,
    t: NonblockingTask<F>,
) -> bool {
    &&& is_first_free(before, k)
    &&& after.len() == if k == before.len() { before.len() + 1 } else { before.len() }
    &&& all_stepped(before, after, gone, k)
    &&& stepped_slot(Some(t), after[k], gone, k)
}

/// Whether the woken-id list `ids` names slot `i` among its first `n` ids.
pub open spec fn seen(ids: Seq<i32>, n: int, i: int) -> bool {
    exists|m: int| 0 <= m < n && ids[m] as int == i
}

/// The registrations after task `t` was taken into slot `k` of an executor
/// whose woken set is `set`: its waker, if it has one, is registered for
/// slot `k` (as an `i32`) and `set`.
pub open spec fn registered_after<F>(
    log: Seq<(Arc<TaskSetWaker>, i32, WokenSet)>,
    t: NonblockingTask<F>,
    k: int,
    set: WokenSet,
) -> Seq<(Arc<TaskSetWaker>, i32, WokenSet)> {
    match t.waker() {
        Some(w) => log.push((w, k as i32, set)),
        None => log,
    }
}

/// One step of a running executor, from `b` to `a`: the counter advanced;
/// with no task taken in, every slot was stepped; on a tenth step that took
/// task `t` from the channel, `t` went into the first free slot `k`, its
/// waker was registered for `k` and the executor's woken set, and every
/// slot was stepped. Links to the rest of the pool stay as they were.
pub open spec fn stepped<F: NonblockingFuture>(b: ManagedExecutor<F>, a: ManagedExecutor<F>) -> bool {
    &&& a.cnt() == next_tick(b.cnt())
    &&& a.channel_reads() == b.channel_reads() + if takes_in_on(b.cnt()) {
        1nat
    } else {
        0nat
    }
    &&& a.bind_cpu() == b.bind_cpu()
    &&& a.woken_set() == b.woken_set()
    &&& a.stop_flag() == b.stop_flag()
    &&& !takes_in_on(b.cnt()) ==> a.received() == b.received()
    &&& a.received() == b.received() ==> a.registered() == b.registered() && stepped_without_new(
        b.tasks(),
        a.tasks(),
        a.gone(),
    )
    &&& a.received() != b.received() ==> {
        &&& a.received().len() == b.received().len() + 1
        &&& a.received().drop_last() == b.received()
        &&& exists|k: int|
            {
                &&& stepped_with_new(b.tasks(), a.tasks(), a.gone(), k, a.received().last())
                &&& a.registered() == registered_after(
                    b.registered(),
                    a.received().last(),
                    k,
                    b.woken_set(),
                )
            }
    }
}

/// The counter after one poll: one up, wrapping, and back to zero on ten.
pub open spec fn next_tick(cnt: usize) -> usize {
    let n = vstd::wrapping::usize_specs::wrapping_add(cnt, 1);
    if n == 10 {
        0
    } else {
        n
    }
}

/// Whether the poll that starts with counter `cnt` looks for a new task.
pub open spec fn takes_in_on(cnt: usize) -> bool {
    vstd::wrapping::usize_specs::wrapping_add(cnt, 1) == 10
}

/// The counter stays below ten, goes up by one each step and comes back to
/// zero after ten steps; the step that starts at nine, and only that one,
/// looks for a new task, so a new task is taken in at most once every ten
/// steps.
pub proof fn lemma_counter_cycle(cnt: usize)
    requires
        cnt < 10,
    ensures
        next_tick(cnt) < 10,
        next_tick(cnt) == (cnt + 1) % 10,
        takes_in_on(cnt) <==> cnt == 9,
{
}

/// The slot number handed to a task's waker (`usize` truncated to `i32`).
#[verifier::truncate]
pub fn slot_tag(id: usize) -> (r: i32)
    ensures
        r == id as i32,
{
    id as i32
}

/// The slot a woken id names, when it names one of `len` slots.
pub fn woken_slot(id: i32, len: usize) -> (r: Option<usize>)
    ensures
        r matches Some(i) ==> 0 <= id && i == id as int && i < len,
        r is None ==> id < 0 || id >= len,
{
    if id < 0 {
        None
    } else {
        let i = id as usize;
        if i < len {
            Some(i)
        } else {
            None
        }
    }
}

/// One executor of the pool: it runs on its own thread, takes in new tasks
/// from its channel and polls its tasks until it is told to stop.
#[verifier::reject_recursive_types(F)]
pub struct ManagedExecutor<F> {
    bind_cpu: bool,
    tasks: Vec<Option<NonblockingTask<F>>>,
    rx: Receiver<NonblockingTask<F>>,
    running: Arc<AtomicBool>,
    woken: WokenSet,
    cnt: usize,
    gone: Ghost<Gone<F>>,
    received: Ghost<Seq<NonblockingTask<F>>>,
    registered: Ghost<Seq<(Arc<TaskSetWaker>, i32, WokenSet)>>,
    channel_reads: Ghost<nat>,
}

impl<F: NonblockingFuture> ManagedExecutor<F> {
    /// The latest task, by slot, that left its slot answering `Ready`.
    pub closed spec fn gone(self) -> Gone<F> {
        self.gone@
    }

    /// Every task taken from the channel so far, in order.
    pub closed spec fn received(self) -> Seq<NonblockingTask<F>> {
        self.received@
    }

    /// Every waker registration made so far, in order: the waker, the slot
    /// and the woken set it was registered with.
    pub closed spec fn registered(self) -> Seq<(Arc<TaskSetWaker>, i32, WokenSet)> {
        self.registered@
    }

    /// How often the executor has looked into its channel for a new task.
    pub closed spec fn channel_reads(self) -> nat {
        self.channel_reads@
    }

    /// The set into which this executor's tasks report wake-ups.
    pub closed spec fn woken_set(self) -> WokenSet {
        self.woken
    }

    /// The flag that tells this executor to stop.
    pub closed spec fn stop_flag(self) -> Arc<AtomicBool> {
        self.running
    }

    /// The task slots.
    pub closed spec fn tasks(self) -> Slots<F> {
        self.tasks@
    }

    /// The poll counter.
    pub closed spec fn cnt(self) -> usize {
        self.cnt
    }

    /// Whether the executor's thread binds itself to a free core.
    pub closed spec fn bind_cpu(self) -> bool {
        self.bind_cpu
    }

    /// Whether the executor's thread binds itself to a free core.
    pub fn binds_cpu(&self) -> (r: bool)
        ensures
            r == self.bind_cpu(),
    {
        self.bind_cpu
    }

    /// A new task from the channel, if one is waiting; a task taken is
    /// recorded in `received`.
    fn find_task(&mut self) -> (r: Option<NonblockingTask<F>>)
        ensures
            r matches Some(t) ==> final(self).received() == old(self).received().push(t),
            r is None ==> final(self).received() == old(self).received(),
            final(self).channel_reads() == old(self).channel_reads() + 1,
            final(self).tasks() == old(self).tasks(),
            final(self).gone() == old(self).gone(),
            final(self).cnt() == old(self).cnt(),
            final(self).bind_cpu() == old(self).bind_cpu(),
            final(self).woken_set() == old(self).woken_set(),
            final(self).stop_flag() == old(self).stop_flag(),
            final(self).registered() == old(self).registered(),
    {
        self.channel_reads = Ghost(self.channel_reads@ + 1);
        match try_recv(&self.rx) {
            TryRecvOutcome::Received(task) => {
                self.received = Ghost(self.received@.push(task));
                Some(task)
            },
            TryRecvOutcome::Empty => None,
            TryRecvOutcome::Disconnected => None,
        }
    }

    /// The first empty slot, if any.
    pub fn find_hole(&self) -> (r: Option<usize>)
        ensures
            r matches Some(k) ==> is_first_free(self.tasks(), k as int) && k < self.tasks().len(),
            r is None ==> is_first_free(self.tasks(), self.tasks().len() as int),
    {
        let mut i: usize = 0;
        while i < self.tasks.len()
            invariant
                i <= self.tasks@.len(),
                forall|j: int| 0 <= j < i ==> (#[trigger] self.tasks@[j]) is Some,
            decreases self.tasks@.len() - i,
        {
            if self.tasks[i].is_none() {
                return Some(i);
            }
            i = i + 1;
        }
        None
    }

    /// Places `task` in the first empty slot, or in a new slot at the end,
    /// and registers its waker (if it has one) for that slot and this
    /// executor's woken set. Returns the slot.
    pub fn take_in(&mut self, task: NonblockingTask<F>) -> (k: usize)
        ensures
            is_first_free(old(self).tasks(), k as int),
            final(self).tasks() == if k == old(self).tasks().len() {
                old(self).tasks().push(Some(task))
            } else {
                old(self).tasks().update(k as int, Some(task))
            },
            final(self).registered() == registered_after(
                old(self).registered(),
                task,
                k as int,
                old(self).woken_set(),
            ),
            final(self).cnt() == old(self).cnt(),
            final(self).bind_cpu() == old(self).bind_cpu(),
            final(self).woken_set() == old(self).woken_set(),
            final(self).stop_flag() == old(self).stop_flag(),
            final(self).gone() == old(self).gone(),
            final(self).received() == old(self).received(),
            final(self).channel_reads() == old(self).channel_reads(),
    {
        let k = match self.find_hole() {
            Some(hole) => hole,
            None => {
                let len = self.tasks.len();
                self.tasks.push(None);
                len
            },
        };
        match &task.waker {
            Some(w) => {
                let tag = slot_tag(k);
                let set = share(&self.woken);
                self.registered = Ghost(self.registered@.push((*w, tag, set)));
                w.register(tag, set);
            },
            None => {},
        }
        self.tasks.set(k, Some(task));
        k
    }

    /// Polls the task in slot `i`, if any, and returns its answer: a task that
    /// answers `Pending` stays in the slot, one that answers `Ready` leaves it
    /// and is recorded in `gone`. An empty slot gives no answer.
    pub fn poll_slot(&mut self, i: usize) -> (answer: Option<NbPoll<F::Output>>)
        requires
            i < old(self).tasks().len(),
        ensures
            final(self).tasks().len() == old(self).tasks().len(),
            old(self).tasks()[i as int] is None ==> answer is None && final(self).tasks() == old(
                self,
            ).tasks() && final(self).gone() == old(self).gone(),
            old(self).tasks()[i as int] is Some ==> answer is Some,
            answer matches Some(a) ==> (a is Ready <==> final(self).tasks()[i as int] is None),
            polled_once(
                old(self).tasks()[i as int],
                final(self).tasks()[i as int],
                final(self).gone(),
                i as int,
            ),
            final(self).tasks()[i as int] is Some ==> final(self).gone() == old(self).gone(),
            forall|j: int| j != i ==> gone_same_at(old(self).gone(), final(self).gone(), j),
            forall|j: int|
                0 <= j < final(self).tasks().len() && j != i ==> #[trigger] final(self).tasks()[j]
                    == old(self).tasks()[j],
            final(self).cnt() == old(self).cnt(),
            final(self).bind_cpu() == old(self).bind_cpu(),
            final(self).woken_set() == old(self).woken_set(),
            final(self).stop_flag() == old(self).stop_flag(),
            final(self).registered() == old(self).registered(),
            final(self).received() == old(self).received(),
            final(self).channel_reads() == old(self).channel_reads(),
    {
        let mut slot: Option<NonblockingTask<F>> = None;
        self.tasks.set_and_swap(i, &mut slot);
        match slot {
            Some(mut task) => {
                let r = task.poll_nb();
                if r.is_ready() {
                    self.gone = Ghost(self.gone@.insert(i as int, task));
                    Some(r)
                } else {
                    self.tasks.set(i, Some(task));
                    Some(r)
                }
            },
            None => {
                self.tasks.set(i, None);
                proof {
                    assert(self.tasks@ =~= old(self).tasks());
                }
                None
            },
        }
    }

    /// Polls every task whose id was reported woken, and forgets the report.
    /// Ids that name no slot are dropped. The reported ids are distinct, so a
    /// task is polled at most once here; which ids were reported depends on
    /// other threads.
    fn poll_woken(&mut self)
        ensures
            final(self).tasks().len() == old(self).tasks().len(),
            forall|i: int|
                0 <= i < old(self).tasks().len() ==> polled_at_most_once(
                    old(self).tasks()[i],
                    #[trigger] final(self).tasks()[i],
                    final(self).gone(),
                    i,
                ),
            forall|i: int|
                0 <= i < old(self).tasks().len() && old(self).tasks()[i] is None ==> gone_same_at(
                    old(self).gone(),
                    final(self).gone(),
                    i,
                ),
            final(self).cnt() == old(self).cnt(),
            final(self).bind_cpu() == old(self).bind_cpu(),
            final(self).woken_set() == old(self).woken_set(),
            final(self).stop_flag() == old(self).stop_flag(),
            final(self).registered() == old(self).registered(),
            final(self).received() == old(self).received(),
            final(self).channel_reads() == old(self).channel_reads(),
    {
        let ids = woken_keys(&self.woken);
        let mut n: usize = 0;
        while n < ids.len()
            invariant
                n <= ids@.len(),
                ids@.no_duplicates(),
                self.tasks().len() == old(self).tasks().len(),
                forall|i: int|
                    0 <= i < old(self).tasks().len() ==> if seen(ids@, n as int, i) {
                        polled_at_most_once(
                            old(self).tasks()[i],
                            #[trigger] self.tasks()[i],
                            self.gone(),
                            i,
                        )
                    } else {
                        self.tasks()[i] == old(self).tasks()[i] && gone_same_at(
                            old(self).gone(),
                            self.gone(),
                            i,
                        )
                    },
                forall|i: int|
                    0 <= i < old(self).tasks().len() && old(self).tasks()[i] is None
                        ==> gone_same_at(old(self).gone(), self.gone(), i),
                self.cnt() == old(self).cnt(),
                self.bind_cpu() == old(self).bind_cpu(),
                self.woken_set() == old(self).woken_set(),
                self.stop_flag() == old(self).stop_flag(),
                self.registered() == old(self).registered(),
                self.received() == old(self).received(),
                self.channel_reads() == old(self).channel_reads(),
            decreases ids@.len() - n,
        {
            let id = ids[n];
            woken_remove(&self.woken, id);
            let ghost mid = self.tasks();
            let ghost mid_gone = self.gone();
            match woken_slot(id, self.tasks.len()) {
                Some(i) => {
                    assert(!seen(ids@, n as int, i as int)) by {
                        if seen(ids@, n as int, i as int) {
                            let m = choose|m: int| 0 <= m < n && ids@[m] as int == i as int;
                            assert(ids@[m] == ids@[n as int]);
                        }
                    }
                    self.poll_slot(i);
                    assert forall|j: int| 0 <= j < old(self).tasks().len() implies (if seen(
                        ids@,
                        n + 1,
                        j,
                    ) {
                        polled_at_most_once(
                            old(self).tasks()[j],
                            #[trigger] self.tasks()[j],
                            self.gone(),
                            j,
                        )
                    } else {
                        self.tasks()[j] == old(self).tasks()[j] && gone_same_at(
                            old(self).gone(),
                            self.gone(),
                            j,
                        )
                    }) by {
                        if j != i {
                            assert(gone_same_at(mid_gone, self.gone(), j));
                            assert(self.tasks()[j] == mid[j]);
                            if seen(ids@, n + 1, j) {
                                let m = choose|m: int| 0 <= m < n + 1 && ids@[m] as int == j;
                                assert(m != n);
                                assert(seen(ids@, n as int, j));
                            } else {
                                assert(!seen(ids@, n as int, j));
                            }
                        } else {
                            assert(ids@[n as int] as int == j);
                            assert(seen(ids@, n + 1, j));
                            assert(mid[j] == old(self).tasks()[j]);
                            assert(polled_once(mid[j], self.tasks()[j], self.gone(), j));
                        }
                    }
                    assert forall|j: int|
                        0 <= j < old(self).tasks().len() && old(self).tasks()[j] is None implies gone_same_at(
                        old(self).gone(),
                        self.gone(),
                        j,
                    ) by {
                        assert(gone_same_at(old(self).gone(), mid_gone, j));
                        if j != i {
                            assert(gone_same_at(mid_gone, self.gone(), j));
                        }
                    }
                },
                None => {
                    assert forall|j: int| 0 <= j < old(self).tasks().len() implies (if seen(
                        ids@,
                        n + 1,
                        j,
                    ) {
                        polled_at_most_once(
                            old(self).tasks()[j],
                            #[trigger] self.tasks()[j],
                            self.gone(),
                            j,
                        )
                    } else {
                        self.tasks()[j] == old(self).tasks()[j] && gone_same_at(
                            old(self).gone(),
                            self.gone(),
                            j,
                        )
                    }) by {
                        assert(self.tasks() == mid);
                        assert(self.gone() == mid_gone);
                        if seen(ids@, n + 1, j) {
                            let m = choose|m: int| 0 <= m < n + 1 && ids@[m] as int == j;
                            assert(m != n);
                            assert(seen(ids@, n as int, j));
                            assert(polled_at_most_once(old(self).tasks()[j], mid[j], mid_gone, j));
                        } else {
                            if seen(ids@, n as int, j) {
                                let m = choose|m: int| 0 <= m < n && ids@[m] as int == j;
                                assert(seen(ids@, n + 1, j));
                            }
                            assert(mid[j] == old(self).tasks()[j]);
                        }
                    }
                },
            }
            n = n + 1;
        }
        assert forall|i: int| 0 <= i < old(self).tasks().len() implies polled_at_most_once(
            old(self).tasks()[i],
            #[trigger] self.tasks()[i],
            self.gone(),
            i,
        ) by {
            if !seen(ids@, n as int, i) {
                assert(self.tasks()[i] == old(self).tasks()[i]);
            }
        }
    }

    /// Polls every task once, slot by slot.
    fn poll_all(&mut self)
        ensures
            final(self).tasks().len() == old(self).tasks().len(),
            forall|i: int|
                0 <= i < old(self).tasks().len() ==> polled_once(
                    old(self).tasks()[i],
                    #[trigger] final(self).tasks()[i],
                    final(self).gone(),
                    i,
                ),
            forall|i: int|
                0 <= i < old(self).tasks().len() && old(self).tasks()[i] is None ==> gone_same_at(
                    old(self).gone(),
                    final(self).gone(),
                    i,
                ),
            final(self).cnt() == old(self).cnt(),
            final(self).bind_cpu() == old(self).bind_cpu(),
            final(self).woken_set() == old(self).woken_set(),
            final(self).stop_flag() == old(self).stop_flag(),
            final(self).registered() == old(self).registered(),
            final(self).received() == old(self).received(),
            final(self).channel_reads() == old(self).channel_reads(),
    {
        let mut i: usize = 0;
        while i < self.tasks.len()
            invariant
                self.tasks().len() == old(self).tasks().len(),
                i <= self.tasks().len(),
                forall|j: int|
                    0 <= j < i ==> polled_once(
                        old(self).tasks()[j],
                        #[trigger] self.tasks()[j],
                        self.gone(),
                        j,
                    ),
                forall|j: int|
                    i <= j < self.tasks().len() ==> #[trigger] self.tasks()[j] == old(
                        self,
                    ).tasks()[j],
                forall|j: int|
                    0 <= j < old(self).tasks().len() && old(self).tasks()[j] is None ==> gone_same_at(
                        old(self).gone(),
                        self.gone(),
                        j,
                    ),
                forall|j: int| i <= j < self.tasks().len() ==> gone_same_at(old(self).gone(), self.gone(), j),
                self.cnt() == old(self).cnt(),
                self.bind_cpu() == old(self).bind_cpu(),
                self.woken_set() == old(self).woken_set(),
                self.stop_flag() == old(self).stop_flag(),
                self.registered() == old(self).registered(),
                self.received() == old(self).received(),
                self.channel_reads() == old(self).channel_reads(),
            decreases self.tasks@.len() - i,
        {
            let ghost mid = self.tasks();
            let ghost mid_gone = self.gone();
            self.poll_slot(i);
            assert forall|j: int| 0 <= j < i + 1 implies polled_once(
                old(self).tasks()[j],
                #[trigger] self.tasks()[j],
                self.gone(),
                j,
            ) by {
                if j < i {
                    assert(self.tasks()[j] == mid[j]);
                    assert(polled_once(old(self).tasks()[j], mid[j], mid_gone, j));
                    assert(gone_same_at(mid_gone, self.gone(), j));
                }
            }
            assert forall|j: int|
                0 <= j < old(self).tasks().len() && old(self).tasks()[j] is None implies gone_same_at(
                old(self).gone(),
                self.gone(),
                j,
            ) by {
                assert(gone_same_at(old(self).gone(), mid_gone, j));
                if j != i {
                    assert(gone_same_at(mid_gone, self.gone(), j));
                }
            }
            assert forall|j: int| i + 1 <= j < self.tasks().len() implies gone_same_at(
                old(self).gone(),
                self.gone(),
                j,
            ) by {
                assert(gone_same_at(old(self).gone(), mid_gone, j));
                assert(gone_same_at(mid_gone, self.gone(), j));
            }
            i = i + 1;
        }
    }

    /// Whether the executor has not been told to stop.
    fn is_running(&self) -> bool {
        self.running.load(Ordering::Relaxed)
    }

    /// Marks the executor as stopped, so that its controller refuses new
    /// tasks; done when the executor goes away.
    pub fn release(&self) {
        self.running.store(false, Ordering::Release)
    }

    /// Advances the counter; returns whether this poll looks for a new task.
    fn tick(&mut self) -> (looks: bool)
        ensures
            looks == takes_in_on(old(self).cnt()),
            final(self).cnt() == next_tick(old(self).cnt()),
            final(self).tasks() == old(self).tasks(),
            final(self).gone() == old(self).gone(),
            final(self).bind_cpu() == old(self).bind_cpu(),
            final(self).woken_set() == old(self).woken_set(),
            final(self).stop_flag() == old(self).stop_flag(),
            final(self).registered() == old(self).registered(),
            final(self).received() == old(self).received(),
            final(self).channel_reads() == old(self).channel_reads(),
    {
        self.cnt = self.cnt.wrapping_add(1);
        if self.cnt == 10 {
            self.cnt = 0;
            true
        } else {
            false
        }
    }
}

impl<F: NonblockingFuture> ManagedExecutor<F> {
    /// One step of the executor, given what its stop flag read. A stopped
    /// executor answers `Ready` and does nothing. A running one advances the
    /// counter; every tenth step one waiting task is taken into the first
    /// empty slot (or a new one) and its waker registered there; then the
    /// tasks reported woken are polled, then every task. A task that answers
    /// `Pending` keeps its slot; one that answers `Ready` leaves it and is
    /// recorded in `gone`. The answer is then `Pending`.
    pub fn step(&mut self, running: bool) -> (r: NbPoll<()>)
        ensures
            !running ==> r is Ready && *final(self) == *old(self),
            running ==> r is Pending && stepped(*old(self), *final(self)),
    {
        if !running {
            return NbPoll::Ready(());
        }
        let ghost start = self.tasks();
        let looks = self.tick();
        let mut placed: Option<usize> = None;
        let ghost mut newcomer: Option<NonblockingTask<F>> = None;
        if looks {
            match self.find_task() {
                Some(task) => {
                    proof {
                        newcomer = Some(task);
                    }
                    let k = self.take_in(task);
                    placed = Some(k);
                },
                None => {},
            }
        }
        assert(placed is Some <==> newcomer is Some);
        assert(newcomer matches Some(t) ==> self.received() == old(self).received().push(t));
        assert(newcomer is None ==> self.received() == old(self).received());
        assert(placed matches Some(k) ==> newcomer matches Some(t) && self.tasks()[k as int] == Some(t));
        let ghost entered = self.tasks();
        let ghost entered_gone = self.gone();
        self.poll_woken();
        let ghost woken_done = self.tasks();
        let ghost woken_gone = self.gone();
        self.poll_all();
        proof {
            let fin = self.tasks();
            let g = self.gone();
            assert forall|i: int| 0 <= i < entered.len() implies stepped_slot(
                entered[i],
                #[trigger] fin[i],
                g,
                i,
            ) by {
                assert(polled_at_most_once(entered[i], woken_done[i], woken_gone, i));
                assert(polled_once(woken_done[i], fin[i], g, i));
                if woken_done[i] is None {
                    assert(gone_same_at(woken_gone, g, i));
                }
            }
            assert(self.stop_flag() == old(self).stop_flag());
            match placed {
                Some(k) => {
                    assert forall|i: int| 0 <= i < start.len() && i != k implies stepped_slot(
                        start[i],
                        #[trigger] fin[i],
                        g,
                        i,
                    ) by {
                        assert(entered[i] == start[i]);
                        assert(stepped_slot(entered[i], fin[i], g, i));
                    }
                    assert(stepped_slot(entered[k as int], fin[k as int], g, k as int));
                    let t = entered[k as int]->0;
                    assert(t == newcomer->0);
                    assert(stepped_slot(Some(t), fin[k as int], g, k as int));
                    assert(self.received() == old(self).received().push(t));
                    assert(self.received().drop_last() =~= old(self).received());
                    assert(self.received().last() == t);
                    assert(stepped_with_new(start, fin, g, k as int, self.received().last()));
                },
                None => {
                    assert(entered == start);
                    assert forall|i: int| 0 <= i < start.len() && i != -1 implies stepped_slot(
                        start[i],
                        #[trigger] fin[i],
                        g,
                        i,
                    ) by {
                        assert(stepped_slot(entered[i], fin[i], g, i));
                    }
                },
            }
        }
        NbPoll::Pending
    }
}

impl<F: NonblockingFuture> NonblockingFuture for ManagedExecutor<F> {
    type Output = ();

    /// One step of the executor with the value its stop flag reads now.
    fn poll_nb(&mut self) -> (r: NbPoll<()>)
        ensures
            r is Ready ==> *final(self) == *old(self),
            r is Pending ==> stepped(*old(self), *final(self)),
    {
        let running = self.is_running();
        self.step(running)
    }
}

/// The first `i` (below ten) of ten steps from a zero counter count up and
/// look into no channel.
proof fn lemma_first_steps_read_nothing<F: NonblockingFuture>(states: Seq<ManagedExecutor<F>>, i: int)
    requires
        states.len() == 11,
        states[0].cnt() == 0,
        forall|j: int| 0 <= j < 10 ==> stepped(#[trigger] states[j], states[j + 1]),
        0 <= i <= 9,
    ensures
        states[i].cnt() == i,
        states[i].channel_reads() == states[0].channel_reads(),
        states[i].received() == states[0].received(),
    decreases i,
{
    if i > 0 {
        lemma_first_steps_read_nothing(states, i - 1);
        let j = i - 1;
        assert(stepped(states[j], states[j + 1]));
        lemma_counter_cycle(states[j].cnt());
    }
}

/// From a counter of zero, ten steps of a running executor look into the
/// channel exactly once, on the tenth step and whatever its slots hold; no
/// task comes in on the nine steps before; and the counter is back at zero.
pub proof fn lemma_channel_read_once_per_ten_steps<F: NonblockingFuture>(
    states: Seq<ManagedExecutor<F>>,
)
    requires
        states.len() == 11,
        states[0].cnt() == 0,
        forall|j: int| 0 <= j < 10 ==> stepped(#[trigger] states[j], states[j + 1]),
    ensures
        states[10].cnt() == 0,
        states[10].channel_reads() == states[0].channel_reads() + 1,
        forall|i: int|
            0 <= i <= 9 ==> (#[trigger] states[i]).channel_reads() == states[0].channel_reads()
                && states[i].received() == states[0].received(),
        states[10].received().len() <= states[0].received().len() + 1,
{
    assert forall|i: int|
        0 <= i <= 9 implies (#[trigger] states[i]).channel_reads() == states[0].channel_reads()
            && states[i].received() == states[0].received() by {
        lemma_first_steps_read_nothing(states, i);
    }
    lemma_first_steps_read_nothing(states, 9);
    let j = 9int;
    assert(stepped(states[j], states[j + 1]));
    lemma_counter_cycle(states[j].cnt());
}

/// A step that looks into the channel does so whether or not a slot is
/// free: every step whose counter goes from nine to zero reads the channel
/// once, and a task it receives always goes into a slot (the first free one,
/// or a new one at the end), which it keeps unless it answered `Ready`.
pub proof fn lemma_tenth_step_takes_in<F: NonblockingFuture>(b: ManagedExecutor<F>, a: ManagedExecutor<F>)
    requires
        stepped(b, a),
    ensures
        takes_in_on(b.cnt()) ==> a.channel_reads() == b.channel_reads() + 1,
        a.received() != b.received() ==> takes_in_on(b.cnt()) && exists|k: int|
            is_first_free(b.tasks(), k) && a.tasks().len() == (if k == b.tasks().len() {
                b.tasks().len() + 1
            } else {
                b.tasks().len()
            }) && (a.tasks()[k] is None ==> a.gone().contains_key(k) && a.gone()[k].answered_ready())
                && (a.tasks()[k] matches Some(t2) ==> !t2.answered_ready()),
{
    if a.received() != b.received() {
        let k = choose|k: int|
            {
                &&& stepped_with_new(b.tasks(), a.tasks(), a.gone(), k, a.received().last())
                &&& a.registered() == registered_after(
                    b.registered(),
                    a.received().last(),
                    k,
                    b.woken_set(),
                )
            };
        assert(stepped_slot(Some(a.received().last()), a.tasks()[k], a.gone(), k));
    }
}

/// Why a task was handed back instead of queued.
pub enum NonblockingError<F> {
    /// The executor was dropped: its stop flag read running but its channel
    /// is disconnected. An executor that goes away normally marks itself
    /// stopped first, so a later send to it is refused with
    /// `ExecutorNotRunning`; this variant is seen when the channel is gone
    /// before the flag is cleared.
    ExecutorDropped(NonblockingTask<F>),
    /// The executor's stop flag read stopped: it was told to stop, or it went
    /// away and marked itself stopped.
    ExecutorNotRunning(NonblockingTask<F>),
}

impl<F> NonblockingError<F> {
    /// The task that was handed back.
    pub open spec fn task(self) -> NonblockingTask<F> {
        match self {
            NonblockingError::ExecutorDropped(t) => t,
            NonblockingError::ExecutorNotRunning(t) => t,
        }
    }

    /// The task that was handed back.
    pub fn into_inner(self) -> (t: NonblockingTask<F>)
        ensures
            t == self.task(),
    {
        match self {
            NonblockingError::ExecutorDropped(x) => x,
            NonblockingError::ExecutorNotRunning(x) => x,
        }
    }

    /// The variant's name, as the error is printed.
    pub fn kind_name(&self) -> (s: &'static str)
        ensures
            self is ExecutorDropped ==> s@ == "ExecutorDropped"@,
            self is ExecutorNotRunning ==> s@ == "ExecutorNotRunning"@,
    {
        match self {
            NonblockingError::ExecutorDropped(_) => "ExecutorDropped",
            NonblockingError::ExecutorNotRunning(_) => "ExecutorNotRunning",
        }
    }
}

/// The pool's handle on one executor: its stop flag and the sending end of
/// its channel.
#[verifier::reject_recursive_types(F)]
pub struct ManagedExecutorController<F> {
    running: Arc<AtomicBool>,
    tx: Sender<NonblockingTask<F>>,
}

impl<F> ManagedExecutorController<F> {
    /// The flag that tells the executor to stop.
    pub closed spec fn stop_flag(self) -> Arc<AtomicBool> {
        self.running
    }

    /// Tells the executor to stop.
    pub fn shutdown(&self) {
        self.running.store(false, Ordering::Release)
    }

    /// Queues `task` for the executor, unless the executor has been told to
    /// stop or is gone; then the task comes back in the error.
    pub fn send(&self, task: NonblockingTask<F>) -> (r: Result<(), NonblockingError<F>>)
        ensures
            r matches Err(e) ==> e.task() == task,
            r is Ok || r == Err::<(), NonblockingError<F>>(NonblockingError::ExecutorNotRunning(task))
                || r == Err::<(), NonblockingError<F>>(NonblockingError::ExecutorDropped(task)),
    {
        let running = self.running.load(Ordering::Acquire);
        self.send_if_running(running, task)
    }

    /// Queues `task` given what the stop flag read: a stopped executor
    /// refuses with `ExecutorNotRunning`; a running one takes the task, or
    /// hands it back with `ExecutorDropped` when its channel is disconnected.
    pub fn send_if_running(&self, running: bool, task: NonblockingTask<F>) -> (r: Result<
        (),
        NonblockingError<F>,
    >)
        ensures
            !running ==> r == Err::<(), NonblockingError<F>>(
                NonblockingError::ExecutorNotRunning(task),
            ),
            running ==> r is Ok || r == Err::<(), NonblockingError<F>>(
                NonblockingError::ExecutorDropped(task),
            ),
            r matches Err(e) ==> e.task() == task,
    {
        if running {
            match try_send(&self.tx, task) {
                Ok(()) => Ok(()),
                Err(back) => Err(NonblockingError::ExecutorDropped(back)),
            }
        } else {
            Err(NonblockingError::ExecutorNotRunning(task))
        }
    }
}

/// A pool of executors, each on its own thread, that share out tasks in
/// turn.
#[verifier::reject_recursive_types(F)]
pub struct NonblockingTp<F> {
    controllers: Vec<ManagedExecutorController<F>>,
    last: AtomicUsize,
}

impl<F> NonblockingTp<F> {
    /// The number of executors.
    pub closed spec fn size(self) -> nat {
        self.controllers@.len()
    }

    /// The stop flag of the executor with controller `i`.
    pub closed spec fn stop_flag_of(self, i: int) -> Arc<AtomicBool> {
        self.controllers@[i].stop_flag()
    }

    /// The number of executors.
    pub fn executor_count(&self) -> (n: usize)
        ensures
            n == self.size(),
    {
        self.controllers.len()
    }

    /// Hands `task` to the executors in turn, starting after the one that
    /// got the previous task, until one takes it; after as many refusals as
    /// there are executors the last refusal is returned, with the task in it.
    /// The first attempt goes to the executor the shared counter picks; each
    /// retry goes to the next executor, wrapping around, so no executor is
    /// asked twice. Which executors accept depends on their threads, so the
    /// answers are stated as some sequence of answers that `send` can give.
    pub fn spawn_custom_task_obj(&self, task: NonblockingTask<F>) -> (r: Result<(), NonblockingError<F>>)
        requires
            self.size() > 0,
        ensures
            r matches Err(e) ==> e.task() == task,
            exists|answers: Seq<Result<(), NonblockingError<F>>>|
                spawn_outcome(self.size(), task, answers, r),
            exists|answers: Seq<Result<(), NonblockingError<F>>>, asked: Seq<int>, start: int|
                spawn_outcome(self.size(), task, answers, r) && asked.len() == answers.len()
                    && spawn_order(self.size(), start, asked),
    {
        let len = self.controllers.len();
        let first = self.last.fetch_add(1, Ordering::AcqRel) % len;
        let mut t = task;
        let mut cnt: usize = 0;
        let ghost mut answers: Seq<Result<(), NonblockingError<F>>> = Seq::empty();
        let ghost mut asked: Seq<int> = Seq::empty();
        loop
            invariant
                len == self.controllers@.len(),
                len > 0,
                first < len,
                cnt < len,
                t == task,
                answers.len() == cnt,
                asked.len() == cnt,
                forall|j: int| 0 <= j < cnt ==> refused(#[trigger] answers[j], task),
                spawn_order_from(len, first, asked),
            decreases len - cnt,
        {
            let id = next_in_turn(first, cnt, len);
            let answer = self.controllers[id].send(t);
            proof {
                answers = answers.push(answer);
                lemma_order_extends(len, first, asked, id, cnt);
                asked = asked.push(index_of(id));
            }
            match after_send(cnt, len, answer) {
                SpawnStep::Done => {
                    assert(spawn_outcome(self.size(), task, answers, Ok(())));
                    assert(spawn_order(self.size(), index_of(first), asked));
                    return Ok(());
                },
                SpawnStep::Retry(back) => {
                    t = back;
                    cnt = cnt + 1;
                    self.last.fetch_add(1, Ordering::AcqRel);
                },
                SpawnStep::GiveUp(e) => {
                    assert(spawn_outcome(self.size(), task, answers, Err(e)));
                    assert(spawn_order(self.size(), index_of(first), asked));
                    return Err(e);
                },
            }
        }
    }

    /// Tells every executor to stop.
    pub fn shutdown_all(&self) {
        let mut i: usize = 0;
        while i < self.controllers.len()
            decreases self.controllers@.len() - i,
        {
            self.controllers[i].shutdown();
            i = i + 1;
        }
    }
}

/// What the round-robin spawn does after an executor's answer.
pub enum SpawnStep<F> {
    /// The executor took the task: stop.
    Done,
    /// The executor refused: try the next one with the task handed back.
    Retry(NonblockingTask<F>),
    /// The executor refused and every executor has been tried: return this
    /// refusal.
    GiveUp(NonblockingError<F>),
}

/// The step that follows `answer` when `refusals` refusals came before it
/// and there are `len` executors.
pub open spec fn spawn_step_of<F>(
    refusals: int,
    len: int,
    answer: Result<(), NonblockingError<F>>,
) -> SpawnStep<F> {
    match answer {
        Ok(()) => SpawnStep::Done,
        Err(e) => if refusals + 1 < len {
            SpawnStep::Retry(e.task())
        } else {
            SpawnStep::GiveUp(e)
        },
    }
}

/// Decides what follows an executor's answer to a spawn: stop on
/// acceptance, retry with the handed-back task while executors remain, give
/// up with the refusal after `len` refusals.
pub fn after_send<F>(refusals: usize, len: usize, answer: Result<(), NonblockingError<F>>) -> (step:
    SpawnStep<F>)
    requires
        refusals < len,
    ensures
        step == spawn_step_of(refusals as int, len as int, answer),
{
    match answer {
        Ok(()) => SpawnStep::Done,
        Err(e) => {
            if refusals + 1 < len {
                SpawnStep::Retry(e.into_inner())
            } else {
                SpawnStep::GiveUp(e)
            }
        },
    }
}

/// `answer` is a refusal that hands `task` back.
pub open spec fn refused<F>(answer: Result<(), NonblockingError<F>>, task: NonblockingTask<F>) -> bool {
    answer matches Err(e) && e.task() == task
}

/// A spawn of `task` over `len` executors that got `answers`, in order, and
/// returned `r`: it stopped at the first acceptance, each refusal handed the
/// task back, and it returned a refusal only after `len` of them.
pub open spec fn spawn_outcome<F>(
    len: nat,
    task: NonblockingTask<F>,
    answers: Seq<Result<(), NonblockingError<F>>>,
    r: Result<(), NonblockingError<F>>,
) -> bool {
    &&& 1 <= answers.len() <= len
    &&& forall|j: int| 0 <= j < answers.len() - 1 ==> refused(#[trigger] answers[j], task)
    &&& (r is Ok <==> answers.last() is Ok)
    &&& r is Err ==> r == answers.last() && answers.len() == len && refused(r, task)
}

/// The executor asked on attempt `j` of a spawn that started at executor
/// `start`, out of `len`: the `j`-th one after `start`, wrapping around.
pub open spec fn turn(start: int, j: int, len: int) -> int {
    if start + j < len {
        start + j
    } else {
        start + j - len
    }
}

/// `asked` lists the executors a spawn asked, in order: the one at `start`,
/// then each next one, wrapping around.
pub open spec fn spawn_order(len: nat, start: int, asked: Seq<int>) -> bool {
    &&& 0 <= start < len
    &&& asked.len() <= len
    &&& forall|j: int| 0 <= j < asked.len() ==> #[trigger] asked[j] == turn(start, j, len as int)
}

/// `spawn_order` with the pool size and the start as machine integers.
pub open spec fn spawn_order_from(len: usize, start: usize, asked: Seq<int>) -> bool {
    spawn_order(len as nat, start as int, asked)
}

/// Asking the next executor in turn keeps the order of a spawn.
proof fn lemma_order_extends(len: usize, start: usize, asked: Seq<int>, id: usize, j: usize)
    requires
        spawn_order_from(len, start, asked),
        asked.len() == j,
        j < len,
        id == turn(start as int, j as int, len as int),
    ensures
        spawn_order_from(len, start, asked.push(index_of(id))),
{
    let a = asked.push(index_of(id));
    assert forall|k: int| 0 <= k < a.len() implies #[trigger] a[k] == turn(start as int, k, len as int) by {
        if k < j {
            assert(a[k] == asked[k]);
        }
    }
}

/// An index as a mathematical integer.
pub open spec fn index_of(i: usize) -> int {
    i as int
}

/// The executor for attempt `j` of a spawn that started at `start`.
pub fn next_in_turn(start: usize, j: usize, len: usize) -> (id: usize)
    requires
        start < len,
        j < len,
    ensures
        id == turn(start as int, j as int, len as int),
        id < len,
{
    if j < len - start {
        start + j
    } else {
        j - (len - start)
    }
}

/// A spawn asks each executor at most once, and returns a refusal only after
/// every executor was asked and refused; when it succeeds, the executor that
/// took the task was the first in the turn order to accept, every one asked
/// before it having refused with the task handed back.
pub proof fn lemma_spawn_asks_each_executor_once<F>(
    len: nat,
    task: NonblockingTask<F>,
    answers: Seq<Result<(), NonblockingError<F>>>,
    asked: Seq<int>,
    start: int,
    r: Result<(), NonblockingError<F>>,
)
    requires
        spawn_outcome(len, task, answers, r),
        asked.len() == answers.len(),
        spawn_order(len, start, asked),
    ensures
        asked.no_duplicates(),
        forall|j: int| 0 <= j < asked.len() ==> 0 <= #[trigger] asked[j] < len,
        r is Err ==> forall|c: int| 0 <= c < len ==> asked.contains(c),
        r is Err ==> forall|j: int| 0 <= j < answers.len() ==> refused(#[trigger] answers[j], task),
        r is Ok ==> answers.last() is Ok && forall|j: int|
            0 <= j < answers.len() - 1 ==> refused(#[trigger] answers[j], task),
{
    assert forall|i: int, j: int| 0 <= i < asked.len() && 0 <= j < asked.len() && i != j implies asked[i]
        != asked[j] by {
        assert(asked[i] == turn(start, i, len as int));
        assert(asked[j] == turn(start, j, len as int));
    }
    if r is Err {
        assert forall|c: int| 0 <= c < len implies asked.contains(c) by {
            let j = if c >= start {
                c - start
            } else {
                c + len - start
            };
            assert(asked[j] == turn(start, j, len as int));
        }
        assert forall|j: int| 0 <= j < answers.len() implies refused(#[trigger] answers[j], task) by {
            if j == answers.len() - 1 {
                assert(answers[j] == answers.last());
            }
        }
    }
}

/// Settings of a pool: how many executors, and the name their threads get.
#[derive(Debug)]
pub struct NonblockingTpBuilder {
    threads: i32,
    name: String,
}

/// The number of executors a builder asks for: `threads`, or none when it is
/// not positive.
pub open spec fn executors_for(threads: i32) -> nat {
    if threads > 0 {
        threads as nat
    } else {
        0
    }
}

impl NonblockingTpBuilder {
    /// The number of threads asked for.
    pub closed spec fn threads(self) -> i32 {
        self.threads
    }

    /// The name the threads get.
    pub closed spec fn name_spec(self) -> Seq<char> {
        self.name@
    }

    /// Settings for `threads` executors named "NonblockingTp".
    pub fn new(threads: i32) -> (b: Self)
        ensures
            b.threads() == threads,
            b.name_spec() == "NonblockingTp"@,
    {
        NonblockingTpBuilder { threads, name: "NonblockingTp".to_owned() }
    }

    /// The same settings with the thread name `name`.
    pub fn name(self, name: String) -> (b: Self)
        ensures
            b.threads() == self.threads(),
            b.name_spec() == name@,
    {
        NonblockingTpBuilder { threads: self.threads, name }
    }

    /// The number of threads asked for.
    pub fn thread_count(&self) -> (n: i32)
        ensures
            n == self.threads(),
    {
        self.threads
    }

    /// The name the threads get.
    pub fn thread_name(&self) -> (s: &str)
        ensures
            s@ == self.name_spec(),
    {
        self.name.as_str()
    }

    /// The pool and, in the same order as its controllers, the executors
    /// that its threads are to run: one per thread asked for, each with no
    /// task, its counter at zero, binding its thread to a free core.
    pub fn build_executors<F: NonblockingFuture>(&self) -> (r: (NonblockingTp<F>, Vec<ManagedExecutor<F>>))
        ensures
            r.0.size() == executors_for(self.threads()),
            r.1@.len() == executors_for(self.threads()),
            forall|i: int|
                0 <= i < r.1@.len() ==> (#[trigger] r.1@[i]).tasks().len() == 0 && r.1@[i].cnt() == 0
                    && r.1@[i].bind_cpu(),
            forall|i: int| 0 <= i < r.1@.len() ==> (#[trigger] r.1@[i]).stop_flag() == r.0.stop_flag_of(i),
    {
        let mut controllers: Vec<ManagedExecutorController<F>> = Vec::new();
        let mut executors: Vec<ManagedExecutor<F>> = Vec::new();
        let mut id: i32 = 0;
        while id < self.threads
            invariant
                0 <= id,
                id <= self.threads || id == 0,
                controllers@.len() == id,
                executors@.len() == id,
                forall|i: int|
                    0 <= i < executors@.len() ==> (#[trigger] executors@[i]).tasks().len() == 0
                        && executors@[i].cnt() == 0 && executors@[i].bind_cpu(),
                forall|i: int|
                    0 <= i < executors@.len() ==> (#[trigger] executors@[i]).stop_flag()
                        == controllers@[i].stop_flag(),
            decreases self.threads - id,
        {
            let (tx, rx) = unbounded_channel();
            let running = Arc::new(AtomicBool::new(true));
            controllers.push(ManagedExecutorController { running: share(&running), tx });
            let executor = ManagedExecutor {
                bind_cpu: true,
                tasks: Vec::new(),
                rx,
                running,
                woken: new_woken_set(),
                cnt: 0,
                gone: Ghost(Map::empty()),
                received: Ghost(Seq::empty()),
                registered: Ghost(Seq::empty()),
                channel_reads: Ghost(0),
            };
            executors.push(executor);
            id = id + 1;
        }
        (NonblockingTp { controllers, last: AtomicUsize::new(0) }, executors)
    }
}

} // verus!
