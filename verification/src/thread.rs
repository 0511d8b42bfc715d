//! Realtime scheduling for a thread: what is asked of the platform, and what its answer
//! means.
//!
//! The platform itself is called from outside. A caller asks [`scheduler_request`] or
//! [`qos_request`] what to ask for, and hands the answer to
//! [`ThreadProvisioner::provision`] as an [`Attempt`].
use vstd::prelude::*;

verus! {

/// How a thread came by its scheduling.
#[derive(Debug, Clone, Copy, PartialEq, Eq, Structural)]
pub enum ProvisionStrategy {
    Unprovisioned,
    /// Granted by the scheduler itself.
    Direct,
    /// Granted by rtkit over D-Bus.
    Rtkit,
    /// Granted by the desktop portal.
    Portal,
    /// Granted as a quality-of-service class.
    MacOsPolicy,
    /// Granted by the multimedia class scheduler.
    WindowsMmcss,
    /// Not granted: ordinary scheduling, without any guarantee.
    Fallback,
}

/// What to do when realtime scheduling is not granted.
#[derive(Debug, Clone, Copy)]
pub enum ThreadProvisioning {
    /// Go on without it.
    BestEffort,
    /// Fail.
    Strict(StrictAction),
}

/// What a caller that asked strictly means to do after a failure.
#[derive(Debug, Clone, Copy)]
pub enum StrictAction {
    /// Give up at once.
    FatalError,
    /// Try again for a while.
    RetryWithBackoff { max_ms: u64 },
}

/// Why realtime scheduling was not granted.
#[derive(Debug, Clone, Copy, PartialEq, Eq, Structural)]
pub enum ProvisionError {
    /// The user may not ask for it.
    PermissionDenied,
    /// The platform does not have it.
    Unsupported,
    /// It was not granted, and going on without it was ruled out.
    StrictModeRefused,
}

/// The scheduling parameters of a Linux thread.
#[derive(Debug, Clone, Copy, PartialEq, Eq, Structural)]
pub struct SchedParam {
    pub sched_priority: i32,
}

/// The scheduling of a Linux thread.
#[derive(Debug, Clone, Copy, PartialEq, Eq, Structural)]
pub struct Schedule {
    pub policy: i32,
    pub param: SchedParam,
}

/// The first-in-first-out policy of the Linux scheduler.
pub const SCHED_FIFO: i32 = 1;

/// The lowest priority that goes with [`SCHED_FIFO`].
pub const MIN_FIFO_PRIORITY: i32 = 1;

/// The highest priority that goes with [`SCHED_FIFO`].
pub const MAX_FIFO_PRIORITY: i32 = 99;

/// The quality-of-service class of threads that serve the user directly.
pub const QOS_CLASS_USER_INTERACTIVE: u32 = 0x21;

/// What the platform answered.
#[derive(Debug, Clone, Copy, PartialEq, Eq, Structural)]
pub enum Attempt {
    /// The schedule that the thread had before, if it could be read, and what the
    /// scheduler returned when it was asked for a new one.
    Linux { original: Option<Schedule>, status: i32 },
    /// What the system returned when it was asked for a quality-of-service class.
    MacOs { status: i32 },
    /// There is nothing to ask.
    Other,
}

/// The nearest priority to `priority` that the scheduler takes.
pub open spec fn fifo_priority(priority: i32) -> i32 {
    if priority < MIN_FIFO_PRIORITY {
        MIN_FIFO_PRIORITY
    } else if priority > MAX_FIFO_PRIORITY {
        MAX_FIFO_PRIORITY
    } else {
        priority
    }
}

/// The schedule that a thread has, from what the scheduler returned for its policy, and
/// for its parameters together with their status. A negative policy, or a status other
/// than zero, says that it could not be read.
pub fn current_schedule(policy: i32, param_status: i32, param: SchedParam) -> (schedule: Option<
    Schedule,
>)
    ensures
        schedule == if policy < 0 || param_status != 0 {
            None
        } else {
            Some(Schedule { policy, param })
        },
{
    if policy < 0 {
        return None;
    }
    if param_status != 0 {
        return None;
    }
    Some(Schedule { policy, param })
}

/// What to ask the Linux scheduler for, so that the thread runs with `priority`. Nothing is
/// asked where the schedule before could not be read, since it could not be restored.
pub fn scheduler_request(original: Option<Schedule>, priority: i32) -> (request: Option<Schedule>)
    ensures
        request == if original is Some {
            Some(
                Schedule {
                    policy: SCHED_FIFO,
                    param: SchedParam { sched_priority: fifo_priority(priority) },
                },
            )
        } else {
            None
        },
        request is Some <==> original is Some,
        request matches Some(schedule) ==> schedule.policy == 1 && 1
            <= schedule.param.sched_priority <= 99,
        request matches Some(schedule) ==> schedule.param.sched_priority == (if priority < 1 {
            1
        } else if priority > 99 {
            99
        } else {
            priority as int
        }),
{
    match original {
        Some(_) => Some(
            Schedule {
                policy: SCHED_FIFO,
                param: SchedParam {
                    sched_priority: if priority < MIN_FIFO_PRIORITY {
                        MIN_FIFO_PRIORITY
                    } else if priority > MAX_FIFO_PRIORITY {
                        MAX_FIFO_PRIORITY
                    } else {
                        priority
                    },
                },
            },
        ),
        None => None,
    }
}

/// The quality-of-service class to ask for, and the priority within it.
pub fn qos_request() -> (request: (u32, i32))
    ensures
        request == (QOS_CLASS_USER_INTERACTIVE, 0i32),
        request == (0x21u32, 0i32),
{
    (QOS_CLASS_USER_INTERACTIVE, 0)
}

/// What the answer of the platform to a request for `priority` amounts to: the strategy
/// and the priority that were granted, or why none was.
pub open spec fn granted_by(attempt: Attempt, priority: i32) -> Result<
    (ProvisionStrategy, i32),
    ProvisionError,
> {
    match attempt {
        Attempt::Linux { original: None, status } => Err(ProvisionError::Unsupported),
        Attempt::Linux { original: Some(schedule), status } => if status == 0 {
            Ok((ProvisionStrategy::Direct, fifo_priority(priority)))
        } else {
            Err(ProvisionError::PermissionDenied)
        },
        Attempt::MacOs { status } => if status == 0 {
            Ok((ProvisionStrategy::MacOsPolicy, priority))
        } else {
            Err(ProvisionError::PermissionDenied)
        },
        Attempt::Other => Err(ProvisionError::Unsupported),
    }
}

/// What a provisioner knows at one moment.
pub struct ProvisionState {
    pub strategy: ProvisionStrategy,
    pub granted: i32,
    /// Less was granted than was asked for.
    pub fallback: bool,
    /// The schedule to go back to: the one before the scheduler first granted another.
    pub original: Option<Schedule>,
}

impl ProvisionState {
    /// Nothing has been asked for.
    pub open spec fn start() -> ProvisionState {
        ProvisionState {
            strategy: ProvisionStrategy::Unprovisioned,
            granted: 0,
            fallback: false,
            original: None,
        }
    }

    /// What a request for `priority` is answered with.
    pub open spec fn answer(
        priority: i32,
        mode: ThreadProvisioning,
        attempt: Attempt,
    ) -> Result<i32, ProvisionError> {
        match granted_by(attempt, priority) {
            Ok((strategy, granted)) => Ok(granted),
            Err(error) => if mode is BestEffort {
                Ok(0)
            } else {
                Err(ProvisionError::StrictModeRefused)
            },
        }
    }

    /// What the provisioner knows after all of `requests`: the priority, what to do when it
    /// is not granted, and the answer of the platform.
    pub open spec fn after_all(
        self,
        requests: Seq<(i32, ThreadProvisioning, Attempt)>,
    ) -> ProvisionState
        decreases requests.len(),
    {
        if requests.len() == 0 {
            self
        } else {
            let (priority, mode, attempt) = requests.last();
            self.after_all(requests.drop_last()).after(priority, mode, attempt)
        }
    }

    /// What the provisioner knows after a request for `priority`.
    pub open spec fn after(
        self,
        priority: i32,
        mode: ThreadProvisioning,
        attempt: Attempt,
    ) -> ProvisionState {
        match granted_by(attempt, priority) {
            Ok((strategy, granted)) => ProvisionState {
                strategy,
                granted,
                fallback: granted < priority,
                original: if attempt is Linux && self.original is None {
                    attempt->original
                } else {
                    self.original
                },
            },
            Err(error) => if mode is BestEffort {
                ProvisionState {
                    strategy: ProvisionStrategy::Fallback,
                    granted: 0,
                    fallback: true,
                    ..self
                }
            } else {
                self
            },
        }
    }
}

/// Obtains realtime scheduling for the thread it lives on, and knows how to give it back.
pub struct ThreadProvisioner {
    strategy: ProvisionStrategy,
    granted_prio: i32,
    fallback_active: bool,
    original_linux_schedule: Option<Schedule>,
    /// The schedule belongs to the thread, so that the provisioner has to stay on it.
    _not_send: core::marker::PhantomData<std::rc::Rc<()>>,
}

impl View for ThreadProvisioner {
    type V = ProvisionState;

    closed spec fn view(&self) -> ProvisionState {
        ProvisionState {
            strategy: self.strategy,
            granted: self.granted_prio,
            fallback: self.fallback_active,
            original: self.original_linux_schedule,
        }
    }
}

impl ThreadProvisioner {
    pub fn new() -> (provisioner: Self)
        ensures
            provisioner@ == ProvisionState::start(),
            provisioner@.strategy == ProvisionStrategy::Unprovisioned,
            provisioner@.granted == 0,
            !provisioner@.fallback,
            provisioner@.original is None,
    {
        Self {
            strategy: ProvisionStrategy::Unprovisioned,
            granted_prio: 0,
            fallback_active: false,
            original_linux_schedule: None,
            _not_send: core::marker::PhantomData,
        }
    }

    pub fn strategy(&self) -> (strategy: ProvisionStrategy)
        ensures
            strategy == self@.strategy,
    {
        self.strategy
    }

    pub fn granted_prio(&self) -> (granted: i32)
        ensures
            granted == self@.granted,
    {
        self.granted_prio
    }

    /// Whether less was granted than was asked for.
    pub fn fallback_active(&self) -> (active: bool)
        ensures
            active == self@.fallback,
    {
        self.fallback_active
    }

    /// Takes in what the platform answered to a request for `target_prio`, and returns the
    /// priority that the thread now has; 0 if it has to do without.
    pub fn provision(
        &mut self,
        target_prio: i32,
        mode: ThreadProvisioning,
        attempt: Attempt,
    ) -> (result: Result<i32, ProvisionError>)
        ensures
            result == ProvisionState::answer(target_prio, mode, attempt),
            final(self)@ == old(self)@.after(target_prio, mode, attempt),
            match attempt {
                Attempt::Linux { original: Some(schedule), status: 0 } => {
                    &&& final(self)@.strategy == ProvisionStrategy::Direct
                    &&& result == Ok::<i32, ProvisionError>(final(self)@.granted)
                    &&& final(self)@.granted == (if target_prio < 1 {
                        1
                    } else if target_prio > 99 {
                        99
                    } else {
                        target_prio as int
                    })
                    &&& final(self)@.fallback == (target_prio > 99)
                    &&& old(self)@.original is None ==> final(self)@.original == Some(schedule)
                    &&& old(self)@.original is Some ==> final(self)@.original == old(
                        self,
                    )@.original
                },
                Attempt::MacOs { status: 0 } => {
                    &&& final(self)@.strategy == ProvisionStrategy::MacOsPolicy
                    &&& result == Ok::<i32, ProvisionError>(target_prio)
                    &&& final(self)@.granted == target_prio
                    &&& !final(self)@.fallback
                    &&& final(self)@.original == old(self)@.original
                },
                _ => match mode {
                    ThreadProvisioning::Strict(action) => {
                        &&& result == Err::<i32, ProvisionError>(ProvisionError::StrictModeRefused)
                        &&& final(self)@ == old(self)@
                    },
                    ThreadProvisioning::BestEffort => {
                        &&& result == Ok::<i32, ProvisionError>(0)
                        &&& final(self)@.strategy == ProvisionStrategy::Fallback
                        &&& final(self)@.granted == 0
                        &&& final(self)@.fallback
                        &&& final(self)@.original == old(self)@.original
                    },
                },
            },
    {
        match self.try_direct(target_prio, attempt) {
            Ok((strategy, granted)) => {
                self.strategy = strategy;
                self.granted_prio = granted;
                self.fallback_active = granted < target_prio;
                Ok(granted)
            },
            Err(_) => match mode {
                ThreadProvisioning::Strict(_) => Err(ProvisionError::StrictModeRefused),
                ThreadProvisioning::BestEffort => {
                    self.strategy = ProvisionStrategy::Fallback;
                    self.granted_prio = 0;
                    self.fallback_active = true;
                    Ok(0)
                },
            },
        }
    }

    /// Reads the answer of the platform. The schedule that was replaced is kept, unless an
    /// earlier one is.
    fn try_direct(&mut self, prio: i32, attempt: Attempt) -> (result: Result<
        (ProvisionStrategy, i32),
        ProvisionError,
    >)
        ensures
            result == granted_by(attempt, prio),
            final(self)@ == (ProvisionState {
                original: if result is Ok && attempt is Linux && old(self)@.original is None {
                    attempt->original
                } else {
                    old(self)@.original
                },
                ..old(self)@
            }),
            match attempt {
                Attempt::Linux { original: Some(schedule), status } => if status == 0 {
                    result matches Ok((strategy, granted)) && strategy == ProvisionStrategy::Direct
                        && 1 <= granted <= 99 && (1 <= prio <= 99 ==> granted == prio) && (prio < 1
                        ==> granted == 1) && (prio > 99 ==> granted == 99)
                } else {
                    result == Err::<(ProvisionStrategy, i32), ProvisionError>(
                        ProvisionError::PermissionDenied,
                    )
                },
                Attempt::MacOs { status } => if status == 0 {
                    result == Ok::<(ProvisionStrategy, i32), ProvisionError>(
                        (ProvisionStrategy::MacOsPolicy, prio),
                    )
                } else {
                    result == Err::<(ProvisionStrategy, i32), ProvisionError>(
                        ProvisionError::PermissionDenied,
                    )
                },
                _ => result == Err::<(ProvisionStrategy, i32), ProvisionError>(
                    ProvisionError::Unsupported,
                ),
            },
    {
        match attempt {
            Attempt::Linux { original, status } => match scheduler_request(original, prio) {
                Some(request) => if status == 0 {
                    if self.original_linux_schedule.is_none() {
                        self.original_linux_schedule = original;
                    }
                    Ok((ProvisionStrategy::Direct, request.param.sched_priority))
                } else {
                    Err(ProvisionError::PermissionDenied)
                },
                None => Err(ProvisionError::Unsupported),
            },
            Attempt::MacOs { status } => if status == 0 {
                Ok((ProvisionStrategy::MacOsPolicy, prio))
            } else {
                Err(ProvisionError::PermissionDenied)
            },
            Attempt::Other => Err(ProvisionError::Unsupported),
        }
    }

    /// The schedule that the thread has to be given back. It is handed out once.
    pub fn release(&mut self) -> (schedule: Option<Schedule>)
        ensures
            schedule == old(self)@.original,
            final(self)@ == (ProvisionState { original: None, ..old(self)@ }),
    {
        self.original_linux_schedule.take()
    }
}

impl Default for ThreadProvisioner {
    fn default() -> (provisioner: Self)
        ensures
            provisioner@ == ProvisionState::start(),
            provisioner@.strategy == ProvisionStrategy::Unprovisioned,
            provisioner@.granted == 0,
            !provisioner@.fallback,
            provisioner@.original is None,
    {
        Self::new()
    }
}

/// A thread that makes do with what it gets is never refused, and it is marked as having
/// fallen back if and only if it got less than it asked for or nothing at all.
pub proof fn law_best_effort_never_fails(
    provisioner: ProvisionState,
    priority: i32,
    attempt: Attempt,
)
    ensures
        ({
            let mode = ThreadProvisioning::BestEffort;
            let after = provisioner.after(priority, mode, attempt);
            let result = ProvisionState::answer(priority, mode, attempt);
            &&& result == Ok::<i32, ProvisionError>(after.granted)
            &&& after.strategy != ProvisionStrategy::Unprovisioned
            &&& after.strategy == ProvisionStrategy::Fallback <==> granted_by(
                attempt,
                priority,
            ) is Err
            &&& after.fallback <==> granted_by(attempt, priority) is Err || after.granted
                < priority
        }),
{
}

/// A strict request is granted by the platform or refused outright; a refusal leaves
/// everything as it was.
pub proof fn law_strict_never_falls_back(
    provisioner: ProvisionState,
    priority: i32,
    action: StrictAction,
    attempt: Attempt,
)
    ensures
        ({
            let mode = ThreadProvisioning::Strict(action);
            let after = provisioner.after(priority, mode, attempt);
            let result = ProvisionState::answer(priority, mode, attempt);
            &&& result is Ok <==> granted_by(attempt, priority) is Ok
            &&& result is Ok ==> after.strategy != ProvisionStrategy::Fallback
            &&& result is Err ==> result == Err::<i32, ProvisionError>(
                ProvisionError::StrictModeRefused,
            ) && after == provisioner
        }),
{
}

/// The first schedule that the scheduler replaces is the one to go back to.
pub proof fn law_replaced_schedule_is_kept(
    provisioner: ProvisionState,
    priority: i32,
    mode: ThreadProvisioning,
    original: Schedule,
)
    requires
        provisioner.original is None,
    ensures
        provisioner.after(
            priority,
            mode,
            Attempt::Linux { original: Some(original), status: 0 },
        ).original == Some(original),
{
}

/// No later request makes the provisioner forget the schedule to go back to.
pub proof fn law_later_grants_keep_schedule(
    provisioner: ProvisionState,
    priority: i32,
    mode: ThreadProvisioning,
    attempt: Attempt,
)
    requires
        provisioner.original is Some,
    ensures
        provisioner.after(priority, mode, attempt).original == provisioner.original,
{
}

/// The scheduler granted the request, and this is the schedule that it replaced.
pub open spec fn replaced_by(request: (i32, ThreadProvisioning, Attempt)) -> Option<Schedule> {
    match request.2 {
        Attempt::Linux { original, status } => if status == 0 {
            original
        } else {
            None
        },
        _ => None,
    }
}

/// The schedule to go back to, over any number of requests: the one that the thread had
/// before the first of them that the scheduler granted, and none if it granted none.
pub open spec fn first_replaced(requests: Seq<(i32, ThreadProvisioning, Attempt)>) -> Option<
    Schedule,
>
    decreases requests.len(),
{
    if requests.len() == 0 {
        None
    } else if first_replaced(requests.drop_last()) is Some {
        first_replaced(requests.drop_last())
    } else {
        replaced_by(requests.last())
    }
}

/// Whatever is asked of a fresh provisioner, it gives the thread back the schedule from
/// before the scheduler first granted another, and none if it never did.
pub proof fn law_first_schedule_is_given_back(requests: Seq<(i32, ThreadProvisioning, Attempt)>)
    ensures
        ProvisionState::start().after_all(requests).original == first_replaced(requests),
    decreases requests.len(),
{
    if requests.len() > 0 {
        law_first_schedule_is_given_back(requests.drop_last());
    }
}

/// Only a status of zero is a grant, and from the Linux scheduler only where the schedule
/// before could be read. A strict request succeeds in these cases alone; a request that makes
/// do with less is answered with 0 and falls back in all others.
pub proof fn law_only_status_zero_is_a_grant(
    provisioner: ProvisionState,
    priority: i32,
    action: StrictAction,
    original: Option<Schedule>,
    status: i32,
)
    ensures
        ({
            let strict = ThreadProvisioning::Strict(action);
            let linux = Attempt::Linux { original, status };
            let macos = Attempt::MacOs { status };
            let refused = Err::<i32, ProvisionError>(ProvisionError::StrictModeRefused);
            &&& ProvisionState::answer(priority, strict, linux) is Ok <==> status == 0
                && original is Some
            &&& ProvisionState::answer(priority, strict, macos) is Ok <==> status == 0
            &&& ProvisionState::answer(priority, strict, Attempt::Other) == refused
            &&& status != 0 ==> ProvisionState::answer(priority, strict, linux) == refused
                && ProvisionState::answer(priority, strict, macos) == refused
            &&& original is None ==> ProvisionState::answer(priority, strict, linux) == refused
        }),
        ({
            let lenient = ThreadProvisioning::BestEffort;
            let linux = Attempt::Linux { original, status };
            let macos = Attempt::MacOs { status };
            let nothing = Ok::<i32, ProvisionError>(0);
            &&& status != 0 || original is None ==> ProvisionState::answer(
                priority,
                lenient,
                linux,
            ) == nothing && provisioner.after(priority, lenient, linux).strategy
                == ProvisionStrategy::Fallback
            &&& status != 0 ==> ProvisionState::answer(priority, lenient, macos) == nothing
                && provisioner.after(priority, lenient, macos).strategy
                == ProvisionStrategy::Fallback
            &&& ProvisionState::answer(priority, lenient, Attempt::Other) == nothing
            &&& provisioner.after(priority, lenient, Attempt::Other).strategy
                == ProvisionStrategy::Fallback
        }),
{
}

/// What is granted does not depend on what the caller would do without a grant: the Linux
/// scheduler grants the priority that was asked for, or else the nearest from 1 to 99, and a
/// quality-of-service class the very priority that was asked for. The thread has fallen back
/// only if it asked for more than it got.
pub proof fn law_grants_the_nearest_priority(
    provisioner: ProvisionState,
    priority: i32,
    mode: ThreadProvisioning,
    schedule: Schedule,
)
    ensures
        ({
            let attempt = Attempt::Linux { original: Some(schedule), status: 0 };
            let after = provisioner.after(priority, mode, attempt);
            &&& ProvisionState::answer(priority, mode, attempt) == Ok::<i32, ProvisionError>(
                after.granted,
            )
            &&& after.strategy == ProvisionStrategy::Direct
            &&& 1 <= after.granted <= 99
            &&& 1 <= priority <= 99 ==> after.granted == priority
            &&& priority < 1 ==> after.granted == 1
            &&& priority > 99 ==> after.granted == 99
            &&& after.fallback <==> priority > 99
        }),
        ({
            let attempt = Attempt::MacOs { status: 0 };
            let after = provisioner.after(priority, mode, attempt);
            &&& ProvisionState::answer(priority, mode, attempt) == Ok::<i32, ProvisionError>(
                priority,
            )
            &&& after.strategy == ProvisionStrategy::MacOsPolicy
            &&& after.granted == priority
            &&& !after.fallback
            &&& after.original == provisioner.original
        }),
{
}

/// The schedule to go back to after any number of requests is that of the first attempt at
/// which the scheduler returned zero and the schedule before could be read; there is none if
/// and only if there was no such attempt.
pub proof fn law_goes_back_before_the_first_grant(
    requests: Seq<(i32, ThreadProvisioning, Attempt)>,
    first: int,
)
    requires
        0 <= first <= requests.len(),
        forall|i: int|
            0 <= i < first ==> ((#[trigger] requests[i]).2 matches Attempt::Linux {
                original: Some(schedule),
                status,
            } ==> status != 0),
    ensures
        first == requests.len() ==> ProvisionState::start().after_all(requests).original is None,
        first < requests.len() ==> (requests[first].2 matches Attempt::Linux {
            original: Some(schedule),
            status,
        } ==> status == 0 ==> ProvisionState::start().after_all(requests).original == Some(
            schedule,
        )),
    decreases requests.len(),
{
    if requests.len() > 0 {
        let earlier = requests.drop_last();
        if first < requests.len() {
            law_goes_back_before_the_first_grant(earlier, first);
        } else {
            assert(requests.last() == requests[first - 1]);
            law_goes_back_before_the_first_grant(earlier, first - 1);
        }
    }
}

} // verus!
