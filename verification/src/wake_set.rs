use vstd::prelude::*;
use dashmap::DashMap;
use std::sync::Arc;
use std::sync::atomic::{AtomicI32, Ordering};
use vstd::rwlock::{RwLock, RwLockPredicate};

verus! {

#[verifier::external_type_specification]
#[verifier::external_body]
#[verifier::reject_recursive_types(K)]
#[verifier::reject_recursive_types(V)]
#[verifier::reject_recursive_types(S)]
pub struct ExDashMap<K, V, S>(dashmap::DashMap<K, V, S>);

/// The ids of the tasks that were woken; shared with the wakers of other
/// threads.
pub type WokenSet = Arc<DashMap<i32, ()>>;

/// `DashMap::new`, shared through an `Arc`.
#[verifier::external_body]
pub(crate) fn new_woken_set() -> WokenSet {
    Arc::new(DashMap::new())
}

/// `DashMap::insert` of `(id, ())`. Other threads insert and remove at the
/// same time, so nothing is stated of the contents.
#[verifier::external_body]
pub(crate) fn woken_insert(set: &DashMap<i32, ()>, id: i32) {
    set.insert(id, ());
}

/// `DashMap::remove` of `id`. Other threads insert and remove at the same
/// time, so nothing is stated of the contents.
#[verifier::external_body]
pub(crate) fn woken_remove(set: &DashMap<i32, ()>, id: i32) {
    set.remove(&id);
}

/// The keys that `DashMap::iter` walks, in the order it walks them. Each key
/// lives in the one shard its hash picks, and the walk reads each shard once
/// under that shard's lock, so no key comes twice. The order depends on the
/// hasher and other threads change the map meanwhile, so nothing more is
/// stated.
#[verifier::external_body]
pub(crate) fn woken_keys(set: &DashMap<i32, ()>) -> (keys: Vec<i32>)
    ensures
        keys@.no_duplicates(),
{
    set.iter().map(|entry| *entry.key()).collect()
}

/// `Arc::clone`: a second handle to the same value.
#[verifier::external_body]
pub(crate) fn share<T>(a: &Arc<T>) -> (r: Arc<T>)
    ensures
        r == *a,
{
    Arc::clone(a)
}

/// Any queue, or none, may be registered with a waker.
pub struct AnyQueue;

impl RwLockPredicate<Option<WokenSet>> for AnyQueue {
    open spec fn inv(self, v: Option<WokenSet>) -> bool {
        true
    }
}

/// The shared half of a task's waker: the slot the task occupies and the
/// set of woken ids of the executor that holds it. Both are set when an
/// executor takes the task in, and read by `wake` on any thread.
pub struct TaskSetWaker {
    task_id: AtomicI32,
    queue_set: RwLock<Option<WokenSet>, AnyQueue>,
}

impl TaskSetWaker {
    /// A waker registered with no executor yet, for slot 0.
    pub fn new() -> Self {
        TaskSetWaker {
            task_id: AtomicI32::new(0),
            queue_set: RwLock::new(None, Ghost(AnyQueue)),
        }
    }

    /// Records the task's id in the woken set of the executor it is
    /// registered with, if any.
    pub fn wake(&self) {
        let handle = self.queue_set.acquire_read();
        match handle.borrow() {
            Some(set) => {
                let id = self.task_id.load(Ordering::Relaxed);
                woken_insert(set, id);
            },
            None => {},
        }
        handle.release_read();
    }

    /// Registers the waker with an executor: the task sits in slot `task_id`
    /// and its wake-ups go into `set`.
    pub fn register(&self, task_id: i32, set: WokenSet) {
        self.task_id.store(task_id, Ordering::Release);
        let (_previous, handle) = self.queue_set.acquire_write();
        handle.release_write(Some(set));
    }
}

} // verus!
