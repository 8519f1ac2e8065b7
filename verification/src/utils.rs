use vstd::prelude::*;
use crate::text::{after_first_word, first_word, parse_u64, parse_u64_str, split_first_word};

verus! {

/// Reads a decimal `u64` from the first word of `str` and returns it with the
/// trimmed rest of the string.
pub fn munch_u64(str: &str) -> (r: Result<(u64, &str), ()>)
    ensures
        r is Ok <==> parse_u64(first_word(str@)) is Some,
        r matches Ok((value, rest)) ==> parse_u64(first_word(str@)) == Some(value)
            && rest@ == after_first_word(str@),
{
    let (word, rest) = split_first_word(str);
    match parse_u64_str(word) {
        Some(value) => Ok((value, rest)),
        None => Err(()),
    }
}


/// A single-owner mutable slot for a `Copy` value.
#[derive(Debug)]
pub struct SmartCell<T: Copy> {
    value: T,
}

impl<T: Copy> View for SmartCell<T> {
    type V = T;

    closed spec fn view(&self) -> T {
        self.value
    }
}

impl<T: Copy> SmartCell<T> {
    pub fn new(t: T) -> (r: Self)
        ensures
            r@ == t,
    {
        SmartCell { value: t }
    }

    pub fn get(&self) -> (r: T)
        ensures
            r == self@,
    {
        self.value
    }

    pub fn set(&mut self, t: T)
        ensures
            final(self)@ == t,
    {
        self.value = t;
    }

    /// Puts `t` in the slot and returns what was there.
    pub fn replace(&mut self, t: T) -> (r: T)
        ensures
            r == old(self)@,
            final(self)@ == t,
    {
        let r = self.value;
        self.value = t;
        r
    }

    /// Exchanges the values of two slots.
    pub fn swap(&mut self, other: &mut Self)
        ensures
            final(self)@ == old(other)@,
            final(other)@ == old(self)@,
    {
        let t = self.value;
        self.value = other.value;
        other.value = t;
    }

    /// The value, consuming the slot.
    pub fn into_inner(self) -> (r: T)
        ensures
            r == self@,
    {
        self.value
    }
}

impl<T: Copy + Default> SmartCell<T> {
    /// Takes the value, leaving `T::default()` in its place.
    pub fn take(&mut self) -> (r: T)
        ensures
            r == old(self)@,
            call_ensures(T::default, (), final(self)@),
    {
        let r = self.value;
        self.value = T::default();
        r
    }
}

/// A single-owner mutable slot.
#[derive(Debug)]
pub struct SmartPtr<T> {
    value: T,
}

impl<T> View for SmartPtr<T> {
    type V = T;

    closed spec fn view(&self) -> T {
        self.value
    }
}

impl<T> SmartPtr<T> {
    pub fn new(t: T) -> (r: Self)
        ensures
            r@ == t,
    {
        SmartPtr { value: t }
    }

    pub fn set(&mut self, t: T)
        ensures
            final(self)@ == t,
    {
        self.value = t;
    }

    pub fn borrow(&self) -> (r: &T)
        ensures
            *r == self@,
    {
        &self.value
    }

    pub fn borrow_mut(&mut self) -> (r: &mut T)
        ensures
            *r == old(self)@,
            final(self)@ == *final(r),
    {
        &mut self.value
    }
}

/// A single-owner slot that may be empty.
#[derive(Debug)]
pub struct NullSmartPtr<T> {
    value: Option<T>,
}

impl<T> View for NullSmartPtr<T> {
    type V = Option<T>;

    closed spec fn view(&self) -> Option<T> {
        self.value
    }
}

impl<T> NullSmartPtr<T> {
    pub fn null() -> (r: Self)
        ensures
            r@ == None::<T>,
    {
        NullSmartPtr { value: None }
    }

    pub fn new(t: T) -> (r: Self)
        ensures
            r@ == Some(t),
    {
        NullSmartPtr { value: Some(t) }
    }

    pub fn is_some(&self) -> (r: bool)
        ensures
            r == self@ is Some,
    {
        self.value.is_some()
    }

    pub fn is_none(&self) -> (r: bool)
        ensures
            r == self@ is None,
    {
        self.value.is_none()
    }

    pub fn set(&mut self, t: T)
        ensures
            final(self)@ == Some(t),
    {
        self.value = Some(t);
    }

    pub fn borrow(&self) -> (r: Option<&T>)
        ensures
            r is Some <==> self@ is Some,
            r matches Some(v) ==> *v == self@->0,
    {
        match &self.value {
            Some(v) => Some(v),
            None => None,
        }
    }

    pub fn borrow_mut(&mut self) -> (r: Option<&mut T>)
        ensures
            r is Some <==> old(self)@ is Some,
            r matches Some(v) ==> *v == old(self)@->0 && final(self)@ == Some(*final(v)),
            r is None ==> final(self)@ == old(self)@,
    {
        match &mut self.value {
            Some(v) => Some(v),
            None => None,
        }
    }

    pub fn try_unwrap(self) -> (r: Result<T, ()>)
        ensures
            r is Ok <==> self@ is Some,
            r matches Ok(v) ==> Some(v) == self@,
    {
        match self.value {
            Some(v) => Ok(v),
            None => Err(()),
        }
    }
}

impl<T: Clone> NullSmartPtr<T> {
    pub fn try_clone_inner(&self) -> (r: Option<T>)
        ensures
            r is Some <==> self@ is Some,
            r matches Some(v) ==> cloned::<T>(self@->0, v),
    {
        match &self.value {
            Some(v) => Some(v.clone()),
            None => None,
        }
    }
}


/// The time that one tick of a wait adds: the tick delay, and at least one.
pub open spec fn wait_step(tick_delay: u32) -> nat {
    if tick_delay == 0 {
        1
    } else {
        tick_delay as nat
    }
}

/// The number of checks a wait makes before it gives up when the condition
/// never settles: at least one, and enough ticks to reach the timeout.
pub open spec fn wait_rounds(tick_delay: u32, timeout: u32) -> nat {
    if timeout == 0 {
        1
    } else {
        ((timeout + wait_step(tick_delay) - 1) / (wait_step(tick_delay) as int)) as nat
    }
}

/// What one check of a wait leads to.
pub enum WaitStep<T, E> {
    /// Keep waiting: sleep one tick and check again.
    Pending,
    /// The condition produced a value.
    Ready(T),
    /// The condition failed.
    Failed(E),
    /// The timeout was reached.
    TimedOut,
}

/// The clock of a polling wait: it starts at zero and advances by one tick
/// (at least one unit) after every check that did not settle.
pub struct WaitTimer {
    tick_delay: u32,
    timeout: u32,
    time: u32,
}

impl WaitTimer {
    pub closed spec fn tick_delay_spec(&self) -> u32 {
        self.tick_delay
    }

    pub closed spec fn timeout_spec(&self) -> u32 {
        self.timeout
    }

    pub closed spec fn time_spec(&self) -> u32 {
        self.time
    }

    /// Number of checks made so far.
    pub closed spec fn checks(&self) -> nat {
        (self.time as int / (wait_step(self.tick_delay) as int)) as nat
    }

    /// The timer has not run out: another check may be made.
    pub closed spec fn running(&self) -> bool {
        &&& self.time as int == self.checks() * wait_step(self.tick_delay)
        &&& self.checks() < wait_rounds(self.tick_delay, self.timeout)
    }

    pub fn new(tick_delay: u32, timeout: u32) -> (r: Self)
        ensures
            r.running(),
            r.time_spec() == 0,
            r.checks() == 0,
            r.tick_delay_spec() == tick_delay,
            r.timeout_spec() == timeout,
    {
        let r = WaitTimer { tick_delay, timeout, time: 0 };
        proof {
            let step = wait_step(tick_delay);
            if timeout > 0 {
                assert((timeout + step - 1) / (step as int) >= 1) by (nonlinear_arith)
                    requires step >= 1, timeout >= 1;
            }
            assert(wait_rounds(tick_delay, timeout) >= 1);
            assert(0int / (step as int) == 0) by (nonlinear_arith) requires step >= 1;
            assert(r.checks() == 0);
        }
        r
    }

    /// The time handed to the next check.
    pub fn time(&self) -> (r: u32)
        ensures
            r == self.time_spec(),
    {
        self.time
    }

    /// Whether the clock can advance by one tick within `u32`.
    pub fn can_advance(&self) -> (r: bool)
        ensures
            r == (self.time_spec() + wait_step(self.tick_delay_spec()) <= u32::MAX),
    {
        let step: u32 = if self.tick_delay == 0 { 1 } else { self.tick_delay };
        self.time <= u32::MAX - step
    }

    /// Takes the outcome of one check and decides how the wait goes on; a
    /// check that did not settle advances the clock by one tick, which must
    /// stay within `u32`.
    pub fn poll<T, E>(&mut self, result: Result<Option<T>, E>) -> (r: WaitStep<T, E>)
        requires
            old(self).running(),
            result matches Ok(None) ==> old(self).time_spec() + wait_step(old(self).tick_delay_spec())
                <= u32::MAX,
        ensures
            final(self).tick_delay_spec() == old(self).tick_delay_spec(),
            final(self).timeout_spec() == old(self).timeout_spec(),
            match result {
                Err(e) => r == WaitStep::<T, E>::Failed(e) && *final(self) == *old(self),
                Ok(Some(v)) => r == WaitStep::<T, E>::Ready(v) && *final(self) == *old(self),
                Ok(None) => {
                    &&& final(self).time_spec() == old(self).time_spec() + wait_step(old(self).tick_delay_spec())
                    &&& final(self).checks() == old(self).checks() + 1
                    &&& (r is TimedOut) == (final(self).checks() >= wait_rounds(
                        old(self).tick_delay_spec(),
                        old(self).timeout_spec(),
                    ))
                    &&& (final(self).time_spec() >= old(self).timeout_spec()) ==> r is TimedOut
                    &&& (final(self).time_spec() < old(self).timeout_spec()) ==> r is Pending && final(self).running()
                },
            },
    {
        match result {
            Err(e) => WaitStep::Failed(e),
            Ok(Some(v)) => WaitStep::Ready(v),
            Ok(None) => {
                let step: u32 = if self.tick_delay == 0 { 1 } else { self.tick_delay };
                let ghost k = self.checks();
                assert(step as nat == wait_step(self.tick_delay));
                assert(self.time == k * step);
                proof {
                    assert(k * step + step == (k + 1) * step) by (nonlinear_arith);
                }
                let ghost t0 = self.time;
                self.time = self.time + step;
                proof {
                    let t1 = self.time;
                    assert(t1 == (k + 1) * step) by (nonlinear_arith)
                        requires t1 == t0 + step, t0 == k * step;
                    lemma_div_multiple(k + 1, step as nat);
                }
                proof {
                    lemma_wait_rounds(self.tick_delay, self.timeout, k + 1);
                }
                if self.time >= self.timeout {
                    WaitStep::TimedOut
                } else {
                    WaitStep::Pending
                }
            },
        }
    }
}

proof fn lemma_div_multiple(k: nat, step: nat)
    requires
        step >= 1,
    ensures
        ((k * step) as int) / (step as int) == k,
{
    assert(((k * step) as int) / (step as int) == k) by (nonlinear_arith)
        requires step >= 1;
}

/// After `k` checks that did not settle (`k >= 1`), the clock has reached the
/// timeout exactly when `k` is at least the number of rounds of the wait: a
/// wait that never settles gives up after exactly `wait_rounds` checks.
pub proof fn lemma_wait_rounds(tick_delay: u32, timeout: u32, k: nat)
    requires
        k >= 1,
    ensures
        (k * wait_step(tick_delay) >= timeout) <==> (k >= wait_rounds(tick_delay, timeout)),
{
    let step = wait_step(tick_delay);
    if timeout > 0 {
        let r = wait_rounds(tick_delay, timeout);
        assert(r == (timeout + step - 1) / (step as int));
        assert((k * step >= timeout) <==> (k >= (timeout + step - 1) / (step as int))) by (nonlinear_arith)
            requires step >= 1, timeout >= 1, k >= 1;
    } else {
        assert(k * step >= 0) by (nonlinear_arith) requires k >= 1, step >= 1;
    }
}

} // verus!
