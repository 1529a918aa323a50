use vstd::prelude::*;
use nix::sched::CpuSet;
use nix::unistd::Pid;

verus! {

/// Number of cores the binding table keeps track of.
pub const CORE_TABLE_SIZE: usize = 256;


#[verifier::external_type_specification]
#[verifier::external_body]
pub struct ExCpuSet(nix::sched::CpuSet);

#[verifier::external_type_specification]
#[verifier::external_body]
pub struct ExPid(nix::unistd::Pid);

#[verifier::external_type_specification]
#[verifier::external_body]
pub struct ExNixError(nix::Error);

/// Number of cores a `CpuSet` can name: eight per byte of the set (1024 on
/// Linux and 64-bit Android, 32 on 32-bit Android).
pub open spec fn cpu_set_capacity() -> nat {
    8 * vstd::layout::size_of::<CpuSet>()
}

/// The cores a `CpuSet` contains.
pub uninterp spec fn cpu_set_members(set: CpuSet) -> Set<usize>;

/// `CpuSet::new` gives a set that contains no core (its bit mask is zeroed).
pub assume_specification[ nix::sched::CpuSet::new ]() -> (set: CpuSet)
    ensures
        cpu_set_members(set) == Set::<usize>::empty(),
;

/// `CpuSet::count` is eight times the size of `libc::cpu_set_t`, the only
/// field of the `#[repr(C)]` struct `CpuSet`, so eight times the size of
/// `CpuSet`.
pub assume_specification[ nix::sched::CpuSet::count ]() -> (n: usize)
    ensures
        n == cpu_set_capacity(),
;

/// `CpuSet::set` adds `field` to the set and succeeds when `field` is below
/// `CpuSet::count()`; at or above that it fails with `EINVAL` and changes
/// nothing.
pub assume_specification[ nix::sched::CpuSet::set ](set: &mut CpuSet, field: usize) -> (r:
    nix::Result<()>)
    ensures
        field < cpu_set_capacity() ==> r is Ok && cpu_set_members(*final(set)) == cpu_set_members(
            *old(set),
        ).insert(field),
        field >= cpu_set_capacity() ==> r is Err && *final(set) == *old(set),
;

/// `gettid` asks the kernel for the calling thread's id; nothing is promised
/// of the value.
pub assume_specification[ nix::unistd::gettid ]() -> Pid;

/// `sched_setaffinity` asks the kernel to restrict the thread to the cores of
/// `cpuset`; whether it succeeds depends on the machine, so nothing is
/// promised of the result.
pub assume_specification[ nix::sched::sched_setaffinity ](pid: Pid, cpuset: &CpuSet) -> nix::Result<()>;

/// The variants of `nix::Error`, with the `errno` of a failed system call as
/// a plain number.
pub enum SysError {
    Sys(i32),
    InvalidPath,
    InvalidUtf8,
    UnsupportedOperation,
}

/// Tells the variants of a `nix::Error` apart, one arm each; the `errno`
/// of `Sys` is handed on as its number. Nothing is stated of the result.
#[verifier::external_body]
fn classify_nix_error(e: nix::Error) -> SysError {
    match e {
        nix::Error::Sys(errno) => SysError::Sys(errno as i32),
        nix::Error::InvalidPath => SysError::InvalidPath,
        nix::Error::InvalidUtf8 => SysError::InvalidUtf8,
        nix::Error::UnsupportedOperation => SysError::UnsupportedOperation,
    }
}

/// What a failed affinity change is reported as: the kinds of I/O error
/// that a `nix::Error` is turned into.
#[derive(Clone, Copy, Debug, PartialEq, Eq, Structural)]
pub enum AffinityError {
    /// The system call failed with this OS error code.
    Os(i32),
    /// The request was malformed.
    InvalidInput,
    /// The operation is not available.
    Other,
}

/// Why binding a thread to a core failed.
#[derive(Clone, Copy, Debug, PartialEq, Eq, Structural)]
pub enum CpuBindError {
    /// The core had already been handed out ("Cannot bind to core {}").
    CoreTaken(i32),
    /// The core was free but the system refused to bind to it ("Error while
    /// binding to core {}").
    Affinity(i32, AffinityError),
    /// No core of the table could be bound ("Cannot bind to core 0..256").
    NoCoreAvailable,
}

/// The I/O error kind that each `nix::Error` variant stands for.
pub open spec fn io_error_of(e: SysError) -> AffinityError {
    match e {
        SysError::Sys(code) => AffinityError::Os(code),
        SysError::InvalidPath => AffinityError::InvalidInput,
        SysError::InvalidUtf8 => AffinityError::InvalidInput,
        SysError::UnsupportedOperation => AffinityError::Other,
    }
}

/// Maps a `nix::Error`, told apart by variant, to the I/O error kind it
/// stands for.
pub fn to_io_error(e: SysError) -> (r: AffinityError)
    ensures
        r == io_error_of(e),
{
    match e {
        SysError::Sys(code) => AffinityError::Os(code),
        SysError::InvalidPath => AffinityError::InvalidInput,
        SysError::InvalidUtf8 => AffinityError::InvalidInput,
        SysError::UnsupportedOperation => AffinityError::Other,
    }
}

/// The cores a CPU set built from `cores` holds: those listed, or every core
/// a `CpuSet` can name when none is listed.
pub open spec fn cpu_set_for(cores: Seq<i32>) -> Set<usize> {
    if cores.len() == 0 {
        Set::new(|c: usize| c < cpu_set_capacity())
    } else {
        Set::new(|c: usize| exists|k: int| 0 <= k < cores.len() && cores[k] as int == c as int)
    }
}

/// Builds the CPU set of the listed cores, or of every core when the list is
/// empty.
pub fn to_cpu_set(cores: &[i32]) -> (set: CpuSet)
    requires
        forall|k: int| 0 <= k < cores@.len() ==> 0 <= #[trigger] cores@[k] < cpu_set_capacity(),
    ensures
        cpu_set_members(set) == cpu_set_for(cores@),
{
    let mut set = CpuSet::new();
    let mut is_set = false;
    let mut i: usize = 0;
    while i < cores.len()
        invariant
            i <= cores@.len(),
            is_set == (i > 0),
            forall|k: int| 0 <= k < cores@.len() ==> 0 <= #[trigger] cores@[k] < cpu_set_capacity(),
            cpu_set_members(set) == Set::new(
                |c: usize| exists|k: int| 0 <= k < i && cores@[k] as int == c as int,
            ),
        decreases cores@.len() - i,
    {
        let core = cores[i] as usize;
        let _ = set.set(core);
        assert(cpu_set_members(set) =~= Set::new(
            |c: usize| exists|k: int| 0 <= k < i + 1 && cores@[k] as int == c as int,
        )) by {
            assert forall|c: usize|
                cpu_set_members(set).contains(c) implies (exists|k: int|
                0 <= k < i + 1 && cores@[k] as int == c as int) by {
                if c == core {
                    assert(cores@[i as int] as int == c as int);
                }
            }
        }
        is_set = true;
        i = i + 1;
    }
    if !is_set {
        let n = CpuSet::count();
        let mut j: usize = 0;
        while j < n
            invariant
                j <= n,
                n == cpu_set_capacity(),
                cpu_set_members(set) == Set::new(|c: usize| c < j),
            decreases n - j,
        {
            let _ = set.set(j);
            assert(cpu_set_members(set) =~= Set::new(|c: usize| c < j + 1));
            j = j + 1;
        }
        assert(cpu_set_members(set) =~= cpu_set_for(cores@));
    } else {
        assert(cpu_set_members(set) =~= cpu_set_for(cores@));
    }
    set
}

/// Restricts the calling thread to the cores of `cpuset`; a refusal of the
/// system is reported as the I/O error kind of the `nix` error. Whether the
/// system accepts depends on the machine, so nothing is promised of the
/// outcome.
pub fn bind_to_cpu_set(cpuset: &CpuSet) -> (r: Result<(), AffinityError>) {
    let pid = nix::unistd::gettid();
    match nix::sched::sched_setaffinity(pid, cpuset) {
        Ok(()) => Ok(()),
        Err(e) => {
            let kind = classify_nix_error(e);
            Err(to_io_error(kind))
        },
    }
}

/// Lets the calling thread run on every core again (the set handed to the
/// system holds every core a `CpuSet` can name). Whether the system accepts
/// depends on the machine, so nothing is promised of the outcome.
pub fn try_unbind_from_cpu() -> (r: Result<(), AffinityError>) {
    let none: [i32; 0] = [];
    let set = to_cpu_set(&none);
    bind_to_cpu_set(&set)
}

/// Which cores have been handed out to a thread.
pub struct CoreTable {
    allocated: Vec<bool>,
    requests: Ghost<Map<int, (Set<usize>, Result<(), AffinityError>)>>,
}

impl CoreTable {
    /// For each core of the table, whether it has been handed out.
    pub closed spec fn allocated(self) -> Seq<bool> {
        self.allocated@
    }

    /// For each core that was claimed while free: the cores of the set that
    /// was then handed to the system for the calling thread, and what the
    /// system answered.
    pub closed spec fn requests(self) -> Map<int, (Set<usize>, Result<(), AffinityError>)> {
        self.requests@
    }

    /// The table covers `CORE_TABLE_SIZE` cores.
    pub open spec fn wf(self) -> bool {
        self.allocated().len() == CORE_TABLE_SIZE
    }

    /// A table in which no core has been handed out.
    pub fn new() -> (t: Self)
        ensures
            t.wf(),
            forall|i: int| 0 <= i < CORE_TABLE_SIZE ==> !#[trigger] t.allocated()[i],
            t.requests() == Map::<int, (Set<usize>, Result<(), AffinityError>)>::empty(),
    {
        let mut allocated: Vec<bool> = Vec::new();
        let mut i: usize = 0;
        while i < CORE_TABLE_SIZE
            invariant
                i <= CORE_TABLE_SIZE,
                allocated@ == Seq::new(i as nat, |k: int| false),
            decreases CORE_TABLE_SIZE - i,
        {
            allocated.push(false);
            i = i + 1;
        }
        CoreTable { allocated, requests: Ghost(Map::empty()) }
    }

    /// Whether `core` has been handed out.
    pub fn is_allocated(&self, core: i32) -> (r: bool)
        requires
            self.wf(),
            0 <= core < CORE_TABLE_SIZE,
        ensures
            r == self.allocated()[core as int],
    {
        self.allocated[core as usize]
    }

    /// Marks a core as handed out; returns whether it was free.
    fn claim(&mut self, core: i32) -> (was_free: bool)
        requires
            old(self).wf(),
            0 <= core < CORE_TABLE_SIZE,
        ensures
            was_free == !old(self).allocated()[core as int],
            final(self).allocated() == old(self).allocated().update(core as int, true),
            final(self).requests() == old(self).requests(),
    {
        let idx = core as usize;
        if self.allocated[idx] {
            proof {
                assert(self.allocated@ =~= self.allocated@.update(core as int, true));
            }
            false
        } else {
            self.allocated.set(idx, true);
            true
        }
    }
}

/// What binding a free core answers, given what the system said.
pub open spec fn bind_outcome(core_id: i32, r: Result<(), AffinityError>) -> Result<(), CpuBindError> {
    match r {
        Ok(()) => Ok(()),
        Err(e) => Err(CpuBindError::Affinity(core_id, e)),
    }
}

/// `r` is an answer that a request for core `c` can get from a table whose
/// cores are marked as in `before`: `CoreTaken` for a taken core; for a free
/// core, success or the system's refusal of that core.
pub open spec fn bind_answer(before: Seq<bool>, c: int, r: Result<(), CpuBindError>) -> bool {
    if before[c] {
        r == Err::<(), CpuBindError>(CpuBindError::CoreTaken(c as i32))
    } else {
        r is Ok || (r matches Err(CpuBindError::Affinity(c2, _)) && c2 == c)
    }
}

/// One call `try_bind_to_cpu(c)` took the table from `before` to `after`
/// with the answer `r`.
pub open spec fn bind_call(before: Seq<bool>, after: Seq<bool>, c: int, r: Result<(), CpuBindError>) -> bool {
    &&& 0 <= c < CORE_TABLE_SIZE
    &&& before.len() == CORE_TABLE_SIZE
    &&& after == before.update(c, true)
    &&& bind_answer(before, c, r)
}

/// One call `try_bind_to_cpu(c)` on table `before` that left `after` and
/// answered `r`: the core is marked; a taken core is refused without asking
/// the system; for a free core the system was asked to restrict the calling
/// thread to exactly `{c}`, and `r` is what it answered.
pub open spec fn bind_step(before: CoreTable, after: CoreTable, c: i32, r: Result<(), CpuBindError>) -> bool {
    &&& after.allocated() == before.allocated().update(c as int, true)
    &&& before.allocated()[c as int] ==> r == Err::<(), CpuBindError>(CpuBindError::CoreTaken(c))
        && after.requests() == before.requests()
    &&& !before.allocated()[c as int] ==> {
        &&& after.requests() == before.requests().insert(c as int, after.requests()[c as int])
        &&& after.requests()[c as int].0 == set![c as usize]
        &&& r == bind_outcome(c, after.requests()[c as int].1)
    }
}

/// Turns the system's answer to binding `core_id` into the answer of
/// `try_bind_to_cpu`.
pub fn bind_result(core_id: i32, r: Result<(), AffinityError>) -> (out: Result<(), CpuBindError>)
    ensures
        out == bind_outcome(core_id, r),
{
    match r {
        Ok(()) => Ok(()),
        Err(e) => Err(CpuBindError::Affinity(core_id, e)),
    }
}

/// Binds the calling thread to `core_id` unless the core has been handed out
/// already. A free core is marked as handed out whether or not the system
/// then accepts the binding.
pub fn try_bind_to_cpu(table: &mut CoreTable, core_id: i32) -> (r: Result<(), CpuBindError>)
    requires
        old(table).wf(),
        0 <= core_id < CORE_TABLE_SIZE,
        core_id < cpu_set_capacity(),
    ensures
        final(table).wf(),
        final(table).allocated() == old(table).allocated().update(core_id as int, true),
        old(table).allocated()[core_id as int] ==> r == Err::<(), CpuBindError>(
            CpuBindError::CoreTaken(core_id),
        ),
        !old(table).allocated()[core_id as int] ==> exists|s: Result<(), AffinityError>|
            r == bind_outcome(core_id, s),
        bind_call(old(table).allocated(), final(table).allocated(), core_id as int, r),
        bind_step(*old(table), *final(table), core_id, r),
{
    if table.claim(core_id) {
        let cores: [i32; 1] = [core_id];
        let set = to_cpu_set(&cores);
        proof {
            assert(cpu_set_members(set) =~= set![core_id as usize]) by {
                assert forall|c: usize| cpu_set_members(set).contains(c) implies c == core_id as usize by {
                    let k = choose|k: int| 0 <= k < 1 && cores@[k] as int == c as int;
                    assert(k == 0);
                }
                assert(cores@[0] as int == (core_id as usize) as int);
            }
        }
        let answer = bind_to_cpu_set(&set);
        table.requests = Ghost(table.requests@.insert(core_id as int, (cpu_set_members(set), answer)));
        let r = bind_result(core_id, answer);
        assert(r == bind_outcome(core_id, answer));
        proof {
            assert(table.requests@ =~= old(table).requests().insert(core_id as int, table.requests@[core_id as int]));
        }
        r
    } else {
        Err(CpuBindError::CoreTaken(core_id))
    }
}

/// Over any sequence of calls `try_bind_to_cpu(cores[k])` that took the
/// table through `states`, a core stays marked once asked for.
pub proof fn lemma_calls_keep_cores(
    states: Seq<Seq<bool>>,
    cores: Seq<int>,
    answers: Seq<Result<(), CpuBindError>>,
    i: int,
    j: int,
)
    requires
        states.len() == cores.len() + 1,
        answers.len() == cores.len(),
        forall|k: int|
            0 <= k < cores.len() ==> bind_call(states[k], #[trigger] states[k + 1], cores[k], answers[k]),
        0 <= i < j <= cores.len(),
        0 <= cores[i] < CORE_TABLE_SIZE,
    ensures
        states[j][cores[i]],
    decreases j - i,
{
    if j == i + 1 {
        assert(bind_call(states[i], states[i + 1], cores[i], answers[i]));
    } else {
        lemma_calls_keep_cores(states, cores, answers, i, j - 1);
        let k = j - 1;
        assert(bind_call(states[k], states[k + 1], cores[k], answers[k]));
        assert(states[k + 1] == states[j]);
    }
}

/// A core is granted at most once, over any sequence of calls of
/// `try_bind_to_cpu`: every call for a core made after an earlier call for
/// the same core is answered `CoreTaken`, so at most one call per core
/// succeeds.
pub proof fn lemma_core_granted_once(
    states: Seq<Seq<bool>>,
    cores: Seq<int>,
    answers: Seq<Result<(), CpuBindError>>,
    i: int,
    j: int,
)
    requires
        states.len() == cores.len() + 1,
        answers.len() == cores.len(),
        forall|k: int|
            0 <= k < cores.len() ==> bind_call(states[k], #[trigger] states[k + 1], cores[k], answers[k]),
        0 <= i < j < cores.len(),
        cores[i] == cores[j],
    ensures
        answers[j] == Err::<(), CpuBindError>(CpuBindError::CoreTaken(cores[j] as i32)),
        answers[j] is Err,
{
    assert(bind_call(states[i], states[i + 1], cores[i], answers[i]));
    lemma_calls_keep_cores(states, cores, answers, i, j);
    assert(bind_call(states[j], states[j + 1], cores[j], answers[j]));
}

/// The answers of a scan that tried the cores of `before` in order, `0`
/// first, as `try_bind_to_cpu` gave them, left the table as `after` and
/// returned `r`: the scan stops at the first answer that is a success and
/// reports `NoCoreAvailable` only after every core was refused.
pub open spec fn scan_outcome(
    before: Seq<bool>,
    after: Seq<bool>,
    answers: Seq<Result<(), CpuBindError>>,
    r: Result<(), CpuBindError>,
) -> bool {
    &&& 1 <= answers.len() <= CORE_TABLE_SIZE
    &&& forall|j: int| 0 <= j < answers.len() ==> bind_answer(before, j, #[trigger] answers[j])
    &&& forall|j: int| 0 <= j < answers.len() - 1 ==> (#[trigger] answers[j]) is Err
    &&& (r is Ok <==> answers.last() is Ok)
    &&& r is Err ==> r == Err::<(), CpuBindError>(CpuBindError::NoCoreAvailable)
        && answers.len() == CORE_TABLE_SIZE
    &&& after.len() == CORE_TABLE_SIZE
    &&& forall|j: int| 0 <= j < answers.len() ==> #[trigger] after[j]
    &&& forall|j: int| answers.len() <= j < CORE_TABLE_SIZE ==> #[trigger] after[j] == before[j]
}

/// The system's answers behind a scan's `answers`: for each free core `j`
/// the scan tried, the system was asked to restrict the calling thread to
/// exactly `{j}`, and `answers[j]` is what that answer makes of the request;
/// no other request was made.
pub open spec fn scan_requests(
    before: CoreTable,
    after: CoreTable,
    answers: Seq<Result<(), CpuBindError>>,
) -> bool {
    &&& forall|j: int|
        0 <= j < answers.len() && !before.allocated()[j] ==> {
            &&& #[trigger] after.requests().contains_key(j)
            &&& after.requests()[j].0 == set![j as usize]
            &&& answers[j] == bind_outcome(j as i32, after.requests()[j].1)
        }
    &&& forall|j: int|
        !(0 <= j < answers.len() && !before.allocated()[j]) ==> {
            &&& (#[trigger] after.requests().contains_key(j) <==> before.requests().contains_key(j))
            &&& before.requests().contains_key(j) ==> after.requests()[j] == before.requests()[j]
        }
}

/// Tries the cores in order, `0` first, with `try_bind_to_cpu`, and stops at
/// the first that is granted; returns the answers it got, in order.
pub fn try_bind_cores_in_order(table: &mut CoreTable) -> (out: (
    Result<(), CpuBindError>,
    Ghost<Seq<Result<(), CpuBindError>>>,
))
    requires
        old(table).wf(),
        CORE_TABLE_SIZE <= cpu_set_capacity(),
    ensures
        final(table).wf(),
        scan_outcome(old(table).allocated(), final(table).allocated(), out.1@, out.0),
        scan_requests(*old(table), *final(table), out.1@),
{
    let ghost start = table.allocated();
    let ghost mut answers: Seq<Result<(), CpuBindError>> = Seq::empty();
    let mut i: i32 = 0;
    while i < 256
        invariant
            0 <= i <= CORE_TABLE_SIZE,
            table.wf(),
            start.len() == CORE_TABLE_SIZE,
            start == old(table).allocated(),
            CORE_TABLE_SIZE <= cpu_set_capacity(),
            answers.len() == i,
            forall|j: int| 0 <= j < i ==> bind_answer(start, j, #[trigger] answers[j]),
            forall|j: int| 0 <= j < i ==> (#[trigger] answers[j]) is Err,
            forall|j: int| 0 <= j < i ==> #[trigger] table.allocated()[j],
            forall|j: int| i <= j < CORE_TABLE_SIZE ==> #[trigger] table.allocated()[j] == start[j],
            scan_requests(*old(table), *table, answers),
        decreases CORE_TABLE_SIZE - i,
    {
        let ghost before = table.allocated();
        let ghost before_table = *table;
        let r = try_bind_to_cpu(table, i);
        proof {
            assert(before[i as int] == start[i as int]);
            answers = answers.push(r);
            assert(bind_answer(start, i as int, answers[i as int]));
            assert(bind_step(before_table, *table, i, r));
            assert forall|j: int|
                0 <= j < answers.len() && !old(table).allocated()[j] implies {
                    &&& #[trigger] table.requests().contains_key(j)
                    &&& table.requests()[j].0 == set![j as usize]
                    &&& answers[j] == bind_outcome(j as i32, table.requests()[j].1)
                } by {
                if j < i {
                    assert(before_table.requests().contains_key(j));
                }
            }
            assert forall|j: int|
                !(0 <= j < answers.len() && !old(table).allocated()[j]) implies {
                    &&& (#[trigger] table.requests().contains_key(j) <==> old(
                        table,
                    ).requests().contains_key(j))
                    &&& old(table).requests().contains_key(j) ==> table.requests()[j] == old(
                        table,
                    ).requests()[j]
                } by {
                assert(before_table.requests().contains_key(j) <==> old(table).requests().contains_key(j));
            }
        }
        assert(forall|j: int| 0 <= j <= i ==> #[trigger] table.allocated()[j]);
        assert(forall|j: int|
            i < j < CORE_TABLE_SIZE ==> #[trigger] table.allocated()[j] == start[j]);
        if r.is_ok() {
            return (Ok(()), Ghost(answers));
        }
        i = i + 1;
    }
    (Err(CpuBindError::NoCoreAvailable), Ghost(answers))
}

/// Binds the calling thread to the first core, in order, that is free and
/// that the system accepts. Each free core tried on the way is marked as
/// handed out.
pub fn try_bind_available_cpu(table: &mut CoreTable) -> (r: Result<(), CpuBindError>)
    requires
        old(table).wf(),
        CORE_TABLE_SIZE <= cpu_set_capacity(),
    ensures
        final(table).wf(),
        forall|j: int|
            0 <= j < CORE_TABLE_SIZE && #[trigger] old(table).allocated()[j]
                ==> final(table).allocated()[j],
        r is Err ==> r == Err::<(), CpuBindError>(CpuBindError::NoCoreAvailable),
        r is Err ==> forall|j: int|
            0 <= j < CORE_TABLE_SIZE ==> #[trigger] final(table).allocated()[j],
        r is Ok ==> exists|k: int|
            0 <= k < CORE_TABLE_SIZE && !old(table).allocated()[k] && final(table).allocated()[k]
                && (forall|j: int| 0 <= j < k ==> #[trigger] final(table).allocated()[j])
                && (forall|j: int|
                k < j < CORE_TABLE_SIZE ==> #[trigger] final(table).allocated()[j]
                    == old(table).allocated()[j]),
        (forall|j: int| 0 <= j < CORE_TABLE_SIZE ==> #[trigger] old(table).allocated()[j])
            ==> r is Err && final(table).allocated() == old(table).allocated(),
        exists|answers: Seq<Result<(), CpuBindError>>|
            scan_outcome(old(table).allocated(), final(table).allocated(), answers, r)
                && scan_requests(*old(table), *final(table), answers),
{
    let (r, answers) = try_bind_cores_in_order(table);
    proof {
        let a = answers@;
        let before = old(table).allocated();
        let after = table.allocated();
        if r is Ok {
            let k = a.len() - 1;
            assert(bind_answer(before, k, a[k]));
            assert(!before[k]);
            assert forall|j: int| 0 <= j < k implies #[trigger] after[j] by {}
            assert(0 <= k < CORE_TABLE_SIZE && !before[k] && after[k]
                && (forall|j: int| 0 <= j < k ==> #[trigger] after[j])
                && (forall|j: int| k < j < CORE_TABLE_SIZE ==> #[trigger] after[j] == before[j]));
        }
        if forall|j: int| 0 <= j < CORE_TABLE_SIZE ==> #[trigger] before[j] {
            assert forall|j: int| 0 <= j < a.len() implies (#[trigger] a[j]) is Err by {
                assert(bind_answer(before, j, a[j]));
            }
            assert(after =~= before);
        }
    }
    r
}

/// A request for one core asks the system to restrict the calling thread to
/// exactly that core, and succeeds exactly when the system accepts; a core
/// already handed out is refused without asking the system at all.
pub proof fn lemma_bind_asks_for_exactly_that_core(
    before: CoreTable,
    after: CoreTable,
    c: i32,
    r: Result<(), CpuBindError>,
)
    requires
        before.wf(),
        0 <= c < CORE_TABLE_SIZE,
        bind_step(before, after, c, r),
    ensures
        before.allocated()[c as int] ==> r is Err && after.requests() == before.requests(),
        !before.allocated()[c as int] ==> after.requests().contains_key(c as int)
            && after.requests()[c as int].0 == set![c as usize]
            && (r is Ok <==> after.requests()[c as int].1 is Ok),
        r is Ok ==> !before.allocated()[c as int] && after.requests()[c as int].1 is Ok,
        after.allocated()[c as int],
{
}

/// A scan over the cores succeeds only if the system accepted binding the
/// calling thread to some free core `k` alone, after refusing every free core
/// below `k`; and it reports `NoCoreAvailable` only after the system refused
/// every free core of the table.
pub proof fn lemma_scan_binds_first_accepted_core(
    before: CoreTable,
    after: CoreTable,
    answers: Seq<Result<(), CpuBindError>>,
    r: Result<(), CpuBindError>,
)
    requires
        before.wf(),
        scan_outcome(before.allocated(), after.allocated(), answers, r),
        scan_requests(before, after, answers),
    ensures
        r is Ok ==> exists|k: int|
            0 <= k < CORE_TABLE_SIZE && !before.allocated()[k] && after.requests().contains_key(k)
                && after.requests()[k].0 == set![k as usize] && after.requests()[k].1 is Ok
                && forall|j: int|
                0 <= j < k && !before.allocated()[j] ==> after.requests()[j].0 == set![j as usize]
                    && (#[trigger] after.requests()[j]).1 is Err,
        r is Err ==> forall|j: int|
            0 <= j < CORE_TABLE_SIZE && !before.allocated()[j] ==> after.requests().contains_key(j)
                && (#[trigger] after.requests()[j]).1 is Err,
{
    if r is Ok {
        let k = answers.len() - 1;
        assert(bind_answer(before.allocated(), k, answers[k]));
        assert(!before.allocated()[k]);
        assert(after.requests().contains_key(k));
        assert forall|j: int|
            0 <= j < k && !before.allocated()[j] implies after.requests()[j].0 == set![j as usize]
                && (#[trigger] after.requests()[j]).1 is Err by {
            assert(answers[j] is Err);
            assert(after.requests().contains_key(j));
        }
    } else {
        assert forall|j: int|
            0 <= j < CORE_TABLE_SIZE && !before.allocated()[j] implies after.requests().contains_key(j)
                && (#[trigger] after.requests()[j]).1 is Err by {
            assert(after.requests().contains_key(j));
            if j < answers.len() - 1 {
                assert(answers[j] is Err);
            } else {
                assert(answers[j] == answers.last());
            }
        }
    }
}

} // verus!
