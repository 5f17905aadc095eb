//! Futures that are polled only as often as a limiter of their rate allows.

use ratelimit::Ratelimiter;
use vstd::prelude::*;

verus! {

/// `ratelimit::Ratelimiter`: hands out tokens at a rate.
#[verifier::external_type_specification]
#[verifier::external_body]
pub struct ExRatelimiter(ratelimit::Ratelimiter);

/// The nanoseconds since the machine's start up to which a limiter can tell the time, and the
/// longest interval of one: some 146 years.
pub const MAX_CLOCK_NANOS: u64 = 4611686018427387904;

/// How a limiter hands out tokens.
#[derive(Clone, Copy, Debug, PartialEq, Eq, Structural)]
pub struct Rate {
    /// The tokens that come with every interval.
    pub refill_amount: u64,
    /// The length of an interval.
    pub refill_interval_nanos: u64,
    /// The tokens that are held at most.
    pub max_tokens: u64,
    /// The tokens that are there from the start.
    pub initial_available: u64,
}

impl Rate {
    /// Tokens come, no more of them than are held, none is there from the start that cannot be
    /// held, and those of all intervals that the clock can tell of can be counted.
    pub open spec fn is_sound(self) -> bool {
        &&& 0 < self.refill_amount <= self.max_tokens
        &&& 0 < self.refill_interval_nanos <= MAX_CLOCK_NANOS
        &&& self.initial_available <= self.max_tokens
        &&& self.refill_amount * (MAX_CLOCK_NANOS / self.refill_interval_nanos + 1)
            + self.max_tokens <= u64::MAX
    }
}

/// `Ratelimiter::builder` with `Builder::max_tokens`, `Builder::initial_available` and
/// `Builder::build`: a limiter of the given rate. It is refused where more tokens come than are
/// held, or where the interval is too long, which a sound rate rules out. How the limiter goes
/// about its rate is left unsaid, as it goes by the time.
#[verifier::external_body]
fn build_limiter(rate: Rate) -> (r: Option<Ratelimiter>)
    requires
        rate.is_sound(),
    ensures
        r is Some,
{
    let interval = std::time::Duration::from_nanos(rate.refill_interval_nanos);
    Ratelimiter::builder(rate.refill_amount, interval)
        .max_tokens(rate.max_tokens)
        .initial_available(rate.initial_available)
        .build()
        .ok()
}

/// Hands out tokens at a sound rate.
pub struct Limiter {
    rate: Rate,
    inner: Ratelimiter,
}

impl View for Limiter {
    type V = Rate;

    closed spec fn view(&self) -> Rate {
        self.rate
    }
}

impl Limiter {
    /// The rate is sound.
    #[verifier::type_invariant]
    spec fn is_sound(self) -> bool {
        self.rate.is_sound()
    }

    /// A limiter of the given rate, where that is sound.
    pub fn new(rate: Rate) -> (r: Option<Limiter>)
        ensures
            r is Some <==> rate.is_sound(),
            r matches Some(limiter) ==> limiter@ == rate,
    {
        if rate.refill_amount == 0 || rate.refill_amount > rate.max_tokens
            || rate.refill_interval_nanos == 0 || rate.refill_interval_nanos > MAX_CLOCK_NANOS
            || rate.initial_available > rate.max_tokens {
            return None;
        }
        let intervals: u64 = MAX_CLOCK_NANOS / rate.refill_interval_nanos + 1;
        match rate.refill_amount.checked_mul(intervals) {
            Some(tokens) => if tokens > u64::MAX - rate.max_tokens {
                return None;
            },
            None => {
                return None;
            },
        }
        match build_limiter(rate) {
            Some(inner) => Some(Limiter { rate, inner }),
            None => None,
        }
    }
}

/// `Ratelimiter::try_wait`: takes a token or, where there is none, says after how many
/// nanoseconds there may be one. As it goes by the time, nothing is said of which it is. It
/// counts the tokens of the intervals gone by, which for a sound rate, and nobody else asking
/// at the same time, it can, for as long as the machine runs.
#[verifier::external_body]
fn try_wait(limiter: &mut Limiter) -> (r: Result<(), u128>)
    requires
        old(limiter)@.is_sound(),
    ensures
        final(limiter)@ == old(limiter)@,
{
    match limiter.inner.try_wait() {
        Ok(()) => Ok(()),
        Err(wait) => Err(wait.as_nanos()),
    }
}

/// What a throttled future waits for.
#[derive(Clone, Copy, Debug, PartialEq, Eq, Structural)]
pub enum State {
    /// A token, and then the future itself.
    Pending,
    /// The end of a sleep.
    Backoff,
}

/// What polling a throttled future comes to.
#[derive(Clone, Copy, Debug, PartialEq, Eq, Structural)]
pub enum PollAction {
    /// The future itself is polled.
    PollInner,
    /// The sleep is polled.
    PollSleep,
    /// A sleep of the given nanoseconds begins. The task is woken, to poll it.
    Sleep(u128),
    /// The task is woken, and polls again.
    WakeAgain,
    /// The task waits until it is woken.
    Wait,
    /// The future is ready.
    Ready,
}

/// A future that takes a token each time before it is polled.
#[derive(Clone, Copy, Debug, PartialEq, Eq, Structural)]
pub struct ThrottledFuture {
    pub state: State,
}

impl ThrottledFuture {
    /// A future that was not polled.
    pub fn new() -> (r: Self)
        ensures
            r.state == State::Pending,
    {
        ThrottledFuture { state: State::Pending }
    }

    /// Polls: during a sleep the sleep, else the future itself where the limiter gives a token.
    pub fn poll(&mut self, limiter: &mut Limiter) -> (r: PollAction)
        ensures
            final(limiter)@ == old(limiter)@,
            match old(self).state {
                State::Backoff => r == PollAction::PollSleep && final(self).state == State::Backoff,
                State::Pending => {
                    ||| r == PollAction::PollInner && final(self).state == State::Pending
                    ||| r is Sleep && final(self).state == State::Backoff
                },
            },
    {
        match self.state {
            State::Pending => {
                proof {
                    use_type_invariant(&*limiter);
                }
                let token: Result<(), u128> = try_wait(limiter);
                self.limited(token)
            },
            State::Backoff => PollAction::PollSleep,
        }
    }

    /// What the answer of the limiter comes to: without a token the future is not polled, but a
    /// sleep begins.
    pub fn limited(&mut self, token: Result<(), u128>) -> (r: PollAction)
        requires
            old(self).state == State::Pending,
        ensures
            match token {
                Ok(_) => r == PollAction::PollInner && final(self).state == State::Pending,
                Err(wait) => r == PollAction::Sleep(wait) && final(self).state == State::Backoff,
            },
    {
        match token {
            Ok(_) => PollAction::PollInner,
            Err(wait) => {
                self.state = State::Backoff;
                PollAction::Sleep(wait)
            },
        }
    }

    /// What polling the sleep comes to: when it is over, the limiter is asked again.
    pub fn slept(&mut self, ready: bool) -> (r: PollAction)
        requires
            old(self).state == State::Backoff,
        ensures
            ready ==> r == PollAction::WakeAgain && final(self).state == State::Pending,
            !ready ==> r == PollAction::Wait && final(self).state == State::Backoff,
    {
        if ready {
            self.state = State::Pending;
            PollAction::WakeAgain
        } else {
            PollAction::Wait
        }
    }

    /// What polling the future itself comes to: where it is not ready, the next time takes
    /// another token.
    pub fn polled(&mut self, ready: bool) -> (r: PollAction)
        ensures
            ready ==> r == PollAction::Ready && final(self).state == old(self).state,
            !ready ==> r == PollAction::Wait && final(self).state == State::Pending,
    {
        if ready {
            PollAction::Ready
        } else {
            self.state = State::Pending;
            PollAction::Wait
        }
    }
}

/// For a sound rate the tokens that have come can be counted at any time that the clock can tell
/// of; and a rate that brings no tokens, or more than are held, or starts with more than are
/// held, or has no interval, is not sound.
pub proof fn law_sound_rate(rate: Rate, nanos: nat)
    requires
        nanos <= 0x4000_0000_0000_0000,
    ensures
        rate.is_sound() ==> 0 < rate.refill_interval_nanos && rate.refill_amount * (nanos
            / rate.refill_interval_nanos as nat) + rate.max_tokens <= u64::MAX,
        rate.refill_amount == 0 ==> !rate.is_sound(),
        rate.refill_amount > rate.max_tokens ==> !rate.is_sound(),
        rate.initial_available > rate.max_tokens ==> !rate.is_sound(),
        rate.refill_interval_nanos == 0 ==> !rate.is_sound(),
        rate.refill_interval_nanos > 0x4000_0000_0000_0000 ==> !rate.is_sound(),
{
    if rate.is_sound() {
        let interval = rate.refill_interval_nanos as int;
        let gone = nanos as int / interval;
        let most = MAX_CLOCK_NANOS as int / interval;
        assert(gone <= most) by {
            vstd::arithmetic::div_mod::lemma_div_is_ordered(
                nanos as int,
                MAX_CLOCK_NANOS as int,
                interval,
            );
        }
        vstd::arithmetic::mul::lemma_mul_inequality(gone, most + 1, rate.refill_amount as int);
        vstd::arithmetic::mul::lemma_mul_is_commutative(gone, rate.refill_amount as int);
        vstd::arithmetic::mul::lemma_mul_is_commutative(most + 1, rate.refill_amount as int);
    }
}

/// A future is polled only with a token: without one a sleep begins, of the time that the limiter
/// tells; during the sleep the sleep alone is polled; when it is over a token is asked for again,
/// and so it is after each poll of the future that did not end it.
pub proof fn law_future_needs_a_token(
    waiting: &mut ThrottledFuture,
    token: Result<(), u128>,
    limited: PollAction,
    sleeping: &mut ThrottledFuture,
    over: bool,
    slept: PollAction,
    running: &mut ThrottledFuture,
    ready: bool,
    polled: PollAction,
)
    requires
        call_ensures(ThrottledFuture::limited, (waiting, token), limited),
        call_ensures(ThrottledFuture::slept, (sleeping, over), slept),
        call_ensures(ThrottledFuture::polled, (running, ready), polled),
    ensures
        limited == PollAction::PollInner <==> token is Ok,
        token matches Err(wait) ==> limited == PollAction::Sleep(wait) && final(waiting).state
            == State::Backoff,
        over <==> slept == PollAction::WakeAgain,
        over <==> final(sleeping).state == State::Pending,
        !over ==> slept == PollAction::Wait,
        ready <==> polled == PollAction::Ready,
        !ready ==> polled == PollAction::Wait && final(running).state == State::Pending,
{
}

} // verus!
