//! A circuit breaker: it runs operations while they succeed, stops running
//! them (it opens) after a number of consecutive failures, and after a
//! cooldown lets one probe through (half open) to decide whether to close
//! again or reopen.
use vstd::prelude::*;
use vstd::string::to_string_from_display_ensures;
use std::time::{Duration, Instant};

verus! {

#[verifier::external_type_specification]
#[verifier::external_body]
pub struct ExInstant(std::time::Instant);

/// Relies on `Instant::now`: a reading of the monotonic clock. Nothing is
/// known of its value.
pub assume_specification[ std::time::Instant::now ]() -> std::time::Instant;

/// The time from `earlier` to `now`, zero where `earlier` is later.
pub uninterp spec fn elapsed_of(now: std::time::Instant, earlier: std::time::Instant) -> core::time::Duration;

/// Relies on `Instant::duration_since`: the time from `earlier` to `self`,
/// zero where `earlier` is later; a function of the two instants alone.
pub assume_specification[ std::time::Instant::duration_since ](
    i: &std::time::Instant,
    earlier: std::time::Instant,
) -> (r: std::time::Duration)
    ensures
        r == elapsed_of(*i, earlier),
;

/// The whole nanoseconds of a duration.
pub uninterp spec fn nanos_of(d: core::time::Duration) -> u128;

/// Relies on `Duration::as_nanos`: the whole nanoseconds of a duration, by
/// which durations compare; a function of the duration alone.
pub assume_specification[ core::time::Duration::as_nanos ](d: &core::time::Duration) -> (r: u128)
    ensures
        r == nanos_of(*d),
;

#[derive(Debug)]
pub struct CircuitBreakerConfig {
    pub failure_threshold: u32,
    pub open_timeout: Duration,
}

impl CircuitBreakerConfig {
    pub fn new(failure_threshold: u32, open_timeout: Duration) -> (c: Self)
        ensures
            c.failure_threshold == failure_threshold,
            c.open_timeout == open_timeout,
    {
        CircuitBreakerConfig { failure_threshold, open_timeout }
    }
}

#[derive(Debug)]
enum BreakerState {
    Closed { failures: u32 },
    Open { opened_at: Instant },
    HalfOpen,
}

/// The phase of a breaker, as it decides what to do with the next call.
pub enum BreakerPhase {
    /// Running operations; `failures` consecutive ones have failed so far.
    Closed { failures: nat },
    /// Refusing operations until the cooldown has passed.
    Open,
    /// The cooldown has passed: the next operation decides.
    HalfOpen,
}

#[derive(Debug)]
pub struct CircuitBreaker {
    state: BreakerState,
    config: CircuitBreakerConfig,
    cooldown_nanos: u128,
}

#[derive(Debug)]
pub enum CircuitBreakerError<E> {
    Open,
    Inner(E),
}

impl<E: std::fmt::Display> CircuitBreakerError<E> {
    /// A line of text that describes the error.
    pub fn message(&self) -> (r: String)
        ensures
            match self {
                CircuitBreakerError::Open => r@ == "circuit breaker is open"@,
                CircuitBreakerError::Inner(e) => exists|t: String|
                    to_string_from_display_ensures::<E>(e, t) && r@ == "inner error: "@ + t@,
            },
    {
        match self {
            CircuitBreakerError::Open => String::from_str("circuit breaker is open"),
            CircuitBreakerError::Inner(e) => {
                let t = e.to_string();
                String::from_str("inner error: ").concat(t.as_str())
            },
        }
    }
}

/// The phase after an operation failed in phase `p`, with `threshold`
/// consecutive failures opening the breaker.
pub open spec fn after_failure(p: BreakerPhase, threshold: nat) -> BreakerPhase {
    match p {
        BreakerPhase::Closed { failures } => if failures + 1 >= threshold {
            BreakerPhase::Open
        } else {
            BreakerPhase::Closed { failures: failures + 1 }
        },
        _ => BreakerPhase::Open,
    }
}

/// The phase after the breaker, in phase `p`, has been open for `waited`
/// nanoseconds: an open breaker turns half open once the cooldown has passed.
pub open spec fn after_waiting(p: BreakerPhase, waited: nat, cooldown: nat) -> BreakerPhase {
    match p {
        BreakerPhase::Open => if waited >= cooldown {
            BreakerPhase::HalfOpen
        } else {
            BreakerPhase::Open
        },
        _ => p,
    }
}

/// What a call owes when the breaker, in phase `p` once any waiting is
/// counted, ends in phase `after` with result `r`: an open breaker refuses
/// without running `op`; otherwise the result is `op`'s, a success closes the
/// breaker and a failure counts as `after_failure` says.
pub open spec fn call_outcome<F: FnOnce() -> Result<T, E>, T, E>(
    op: F,
    p: BreakerPhase,
    threshold: nat,
    r: Result<T, CircuitBreakerError<E>>,
    after: BreakerPhase,
) -> bool {
    match r {
        Ok(v) => !(p is Open) && op.ensures((), Ok(v)) && after == (BreakerPhase::Closed {
            failures: 0,
        }),
        Err(CircuitBreakerError::Open) => p is Open && after is Open,
        Err(CircuitBreakerError::Inner(e)) => !(p is Open) && op.ensures((), Err(e)) && after
            == after_failure(p, threshold),
    }
}

impl View for CircuitBreaker {
    type V = BreakerPhase;

    closed spec fn view(&self) -> BreakerPhase {
        match self.state {
            BreakerState::Closed { failures } => BreakerPhase::Closed { failures: failures as nat },
            BreakerState::Open { .. } => BreakerPhase::Open,
            BreakerState::HalfOpen => BreakerPhase::HalfOpen,
        }
    }
}

impl CircuitBreaker {
    /// The number of consecutive failures that opens the breaker.
    pub closed spec fn threshold(&self) -> nat {
        self.config.failure_threshold as nat
    }

    /// How long, in nanoseconds, the breaker stays open before it lets a
    /// probe through.
    pub closed spec fn cooldown_nanos(&self) -> nat {
        self.cooldown_nanos as nat
    }

    /// The configured cooldown.
    pub closed spec fn open_timeout(&self) -> core::time::Duration {
        self.config.open_timeout
    }

    /// The instant at which an open breaker opened; none for a breaker that
    /// is not open.
    pub closed spec fn opened_at(&self) -> Option<std::time::Instant> {
        match self.state {
            BreakerState::Open { opened_at } => Some(opened_at),
            _ => None,
        }
    }

    /// How long, in nanoseconds, the breaker has been open at instant `now`;
    /// zero for a breaker that is not open.
    pub open spec fn waited_at(&self, now: std::time::Instant) -> nat {
        match self.opened_at() {
            Some(t) => nanos_of(elapsed_of(now, t)) as nat,
            None => 0,
        }
    }

    /// A closed breaker has counted fewer failures than open it, an open one
    /// knows when it opened, and the cooldown is the configured one.
    pub open spec fn wf(&self) -> bool {
        &&& self@ matches BreakerPhase::Closed { failures } ==> failures == 0 || failures
            < self.threshold()
        &&& (self@ is Open <==> self.opened_at() is Some)
        &&& self.cooldown_nanos() == nanos_of(self.open_timeout())
    }

    pub fn new(config: CircuitBreakerConfig) -> (cb: Self)
        ensures
            cb.wf(),
            cb@ == (BreakerPhase::Closed { failures: 0 }),
            cb.threshold() == config.failure_threshold,
            cb.open_timeout() == config.open_timeout,
            cb.cooldown_nanos() == nanos_of(config.open_timeout),
    {
        let cooldown_nanos = config.open_timeout.as_nanos();
        CircuitBreaker { state: BreakerState::Closed { failures: 0 }, config, cooldown_nanos }
    }

    pub fn is_closed(&self) -> (r: bool)
        ensures
            r == self@ is Closed,
    {
        match self.state {
            BreakerState::Closed { .. } => true,
            _ => false,
        }
    }

    pub fn is_open(&self) -> (r: bool)
        ensures
            r == self@ is Open,
    {
        match self.state {
            BreakerState::Open { .. } => true,
            _ => false,
        }
    }

    pub fn is_half_open(&self) -> (r: bool)
        ensures
            r == self@ is HalfOpen,
    {
        match self.state {
            BreakerState::HalfOpen => true,
            _ => false,
        }
    }

    /// Moves an open breaker that has been open for `waited_nanos`
    /// nanoseconds to half open once its cooldown has passed.
    pub fn after_wait(&mut self, waited_nanos: u128)
        requires
            old(self).wf(),
        ensures
            final(self).wf(),
            final(self).threshold() == old(self).threshold(),
            final(self).cooldown_nanos() == old(self).cooldown_nanos(),
            final(self).open_timeout() == old(self).open_timeout(),
            final(self)@ == after_waiting(old(self)@, waited_nanos as nat, old(self).cooldown_nanos()),
            final(self)@ is Open ==> final(self).opened_at() == old(self).opened_at(),
    {
        if let BreakerState::Open { .. } = self.state {
            if waited_nanos >= self.cooldown_nanos {
                self.state = BreakerState::HalfOpen;
            }
        }
    }

    /// Reads the clock and moves an open breaker whose cooldown has passed
    /// to half open.
    fn check_and_transition_from_open(&mut self)
        requires
            old(self).wf(),
        ensures
            final(self).wf(),
            final(self).threshold() == old(self).threshold(),
            final(self).cooldown_nanos() == old(self).cooldown_nanos(),
            final(self).open_timeout() == old(self).open_timeout(),
            !(old(self)@ is Open) ==> final(self)@ == old(self)@,
            old(self)@ is Open ==> exists|now: std::time::Instant|
                final(self)@ == after_waiting(
                    old(self)@,
                    #[trigger] old(self).waited_at(now),
                    old(self).cooldown_nanos(),
                ),
            final(self)@ is Open ==> final(self).opened_at() == old(self).opened_at(),
    {
        let opened_at = match &self.state {
            BreakerState::Open { opened_at } => *opened_at,
            _ => {
                return ;
            },
        };
        let now = Instant::now();
        let waited = now.duration_since(opened_at).as_nanos();
        assert(waited == self.waited_at(now));
        self.after_wait(waited);
    }

    /// Runs `op` on a breaker that is not open and counts its outcome.
    fn run<F, T, E>(&mut self, op: F) -> (r: Result<T, CircuitBreakerError<E>>) where
        F: FnOnce() -> Result<T, E>,

        requires
            old(self).wf(),
            !(old(self)@ is Open),
            op.requires(()),
        ensures
            final(self).wf(),
            final(self).threshold() == old(self).threshold(),
            final(self).cooldown_nanos() == old(self).cooldown_nanos(),
            final(self).open_timeout() == old(self).open_timeout(),
            match r {
                Ok(v) => op.ensures((), Ok(v)) && final(self)@ == (BreakerPhase::Closed {
                    failures: 0,
                }),
                Err(CircuitBreakerError::Open) => false,
                Err(CircuitBreakerError::Inner(e)) => op.ensures((), Err(e)) && final(self)@
                    == after_failure(old(self)@, old(self).threshold()),
            },
    {
        let result = op();
        match result {
            Ok(value) => {
                self.state = BreakerState::Closed { failures: 0 };
                Ok(value)
            },
            Err(e) => {
                match self.state {
                    BreakerState::Closed { failures } => {
                        let counted = failures + 1;
                        if counted >= self.config.failure_threshold {
                            self.state = BreakerState::Open { opened_at: Instant::now() };
                        } else {
                            self.state = BreakerState::Closed { failures: counted };
                        }
                    },
                    _ => {
                        self.state = BreakerState::Open { opened_at: Instant::now() };
                    },
                }
                Err(CircuitBreakerError::Inner(e))
            },
        }
    }

    /// The decisions of `call` for a breaker that, if open, has been open for
    /// `waited_nanos` nanoseconds: an open breaker within its cooldown refuses
    /// without running `op`; otherwise `op` runs, and a success closes the
    /// breaker while a failure opens it when half open or when it reaches the
    /// threshold of consecutive failures.
    pub fn call_after_wait<F, T, E>(&mut self, waited_nanos: u128, op: F) -> (r: Result<
        T,
        CircuitBreakerError<E>,
    >) where F: FnOnce() -> Result<T, E>,

        requires
            old(self).wf(),
            op.requires(()),
        ensures
            final(self).wf(),
            final(self).threshold() == old(self).threshold(),
            final(self).cooldown_nanos() == old(self).cooldown_nanos(),
            final(self).open_timeout() == old(self).open_timeout(),
            call_outcome(
                op,
                after_waiting(old(self)@, waited_nanos as nat, old(self).cooldown_nanos()),
                old(self).threshold(),
                r,
                final(self)@,
            ),
            r matches Err(CircuitBreakerError::Open) ==> final(self).opened_at() == old(
                self,
            ).opened_at(),
    {
        self.after_wait(waited_nanos);
        if self.is_open() {
            return Err(CircuitBreakerError::Open);
        }
        self.run(op)
    }

    /// Runs `op` unless the breaker is open, and counts its outcome: a
    /// success closes the breaker, a failure opens it when half open or when
    /// it reaches the threshold of consecutive failures. How long an open
    /// breaker has been open is read from the clock; `call_after_wait` states
    /// what follows from each reading.
    pub fn call<F, T, E>(&mut self, op: F) -> (r: Result<T, CircuitBreakerError<E>>) where
        F: FnOnce() -> Result<T, E>,

        requires
            old(self).wf(),
            op.requires(()),
        ensures
            final(self).wf(),
            final(self).threshold() == old(self).threshold(),
            final(self).cooldown_nanos() == old(self).cooldown_nanos(),
            final(self).open_timeout() == old(self).open_timeout(),
            !(old(self)@ is Open) ==> call_outcome(
                op,
                old(self)@,
                old(self).threshold(),
                r,
                final(self)@,
            ),
            old(self)@ is Open ==> exists|now: std::time::Instant|
                call_outcome(
                    op,
                    after_waiting(
                        old(self)@,
                        #[trigger] old(self).waited_at(now),
                        old(self).cooldown_nanos(),
                    ),
                    old(self).threshold(),
                    r,
                    final(self)@,
                ),
            r matches Err(CircuitBreakerError::Open) ==> final(self).opened_at() == old(
                self,
            ).opened_at(),
    {
        let ghost before = *self;
        self.check_and_transition_from_open();
        proof {
            if before@ is Open {
                let now = choose|now: std::time::Instant|
                    self@ == after_waiting(
                        before@,
                        #[trigger] before.waited_at(now),
                        before.cooldown_nanos(),
                    );
                assert(self@ == after_waiting(before@, before.waited_at(now), before.cooldown_nanos()));
            }
        }
        if self.is_open() {
            return Err(CircuitBreakerError::Open);
        }
        self.run(op)
    }
}

} // verus!
