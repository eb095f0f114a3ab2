//! The temperature history and the decisions that follow from it.

use arraydeque::{ArrayDeque, Wrapping};
use vstd::prelude::*;

verus! {

/// How many readings the history holds.
pub const TEMP_BUFFER_SIZE: usize = 50;

/// The last readings, in a ring buffer of the `arraydeque` crate that drops its
/// oldest item when it is full.
#[verifier::external_body]
pub struct History {
    ring: ArrayDeque<u8, TEMP_BUFFER_SIZE, Wrapping>,
}

/// The readings that a history holds, oldest first.
pub uninterp spec fn readings(history: History) -> Seq<u8>;

/// The last `TEMP_BUFFER_SIZE` items of a sequence, or all if there are fewer.
pub open spec fn window(s: Seq<u8>) -> Seq<u8> {
    if s.len() <= TEMP_BUFFER_SIZE {
        s
    } else {
        s.skip(s.len() - TEMP_BUFFER_SIZE)
    }
}

/// `ArrayDeque::new` makes a buffer that holds nothing.
#[verifier::external_body]
fn empty_history() -> (history: History)
    ensures
        readings(history) == Seq::<u8>::empty(),
{
    History { ring: ArrayDeque::new() }
}

/// `ArrayDeque::push_back`, with the `Wrapping` behavior, puts an item at the back
/// and, if the buffer was full, takes the item at the front out.
#[verifier::external_body]
fn push_back(history: &mut History, temp: u8)
    ensures
        readings(*final(history)) == window(readings(*old(history)).push(temp)),
{
    history.ring.push_back(temp);
}

/// `ArrayDeque::len` counts the items, of which there are never more than the
/// capacity.
#[verifier::external_body]
fn history_len(history: &History) -> (n: usize)
    ensures
        n == readings(*history).len(),
        n <= TEMP_BUFFER_SIZE,
{
    history.ring.len()
}

/// `ArrayDeque::iter` goes over the items from front to back.
#[verifier::external_body]
fn history_items(history: &History) -> (v: Vec<u8>)
    ensures
        v@ == readings(*history),
{
    history.ring.iter().copied().collect()
}

/// How long to sleep when the temperature is stable, in milliseconds.
pub const STABLE_TEMP_SLEEP_MILLIS: u64 = 1000;

/// How long to sleep when the temperature has changed, in milliseconds.
pub const RESPONSIVE_SLEEP_MILLIS: u64 = 100;

/// How often the history is padded with the current temperature when the
/// temperature is stable.
pub const STABLE_TEMP_PADDING_COUNT: usize = 9;

/// The temperature history and the last mean that the fans were set for.
pub struct TemperatureMonitor {
    history: History,
    last_mean_temp: u16,
}

/// What a monitor holds.
pub struct MonitorState {
    pub readings: Seq<u8>,
    pub last_mean_temp: u16,
}

/// What follows from one reading.
#[derive(Clone, Copy, Debug, PartialEq, Eq, Structural)]
pub struct Cycle {
    /// The mean of the history.
    pub mean_temp: u16,
    /// The temperature that the fans are to be set for, if they are.
    pub fan_temp: Option<u8>,
    /// How long to sleep then, in milliseconds.
    pub sleep_millis: u64,
}

pub open spec fn total(s: Seq<u8>) -> nat
    decreases s.len(),
{
    if s.len() == 0 {
        0
    } else {
        total(s.drop_last()) + s.last() as nat
    }
}

/// The mean, rounded down.
pub open spec fn mean(s: Seq<u8>) -> nat {
    total(s) / s.len()
}

/// The same reading `n` times.
pub open spec fn repeated(temp: u8, n: nat) -> Seq<u8> {
    Seq::new(n, |i: int| temp)
}

impl MonitorState {
    /// The history with one more reading.
    pub open spec fn observed(self, temp: u8) -> MonitorState {
        MonitorState { readings: window(self.readings.push(temp)), ..self }
    }

    /// The history padded for a stable period.
    pub open spec fn padded(self, temp: u8) -> MonitorState {
        MonitorState {
            readings: window(self.readings + repeated(temp, STABLE_TEMP_PADDING_COUNT as nat)),
            ..self
        }
    }

    /// The state after the sleep that ends a cycle.
    pub open spec fn slept(
        self,
        current_temp: u8,
        mean_temp: u16,
        is_stable: bool,
    ) -> MonitorState {
        if is_stable {
            self.padded(current_temp)
        } else {
            MonitorState { last_mean_temp: mean_temp, ..self }
        }
    }

    /// The mean after one more reading.
    pub open spec fn next_mean(self, temp: u8) -> u16 {
        mean(self.observed(temp).readings) as u16
    }

    /// The state after a whole cycle.
    pub open spec fn next(self, temp: u8) -> MonitorState {
        self.observed(temp).slept(
            temp,
            self.next_mean(temp),
            self.next_mean(temp) == self.last_mean_temp,
        )
    }

    /// What a cycle asks for: the fans are set only if the mean has changed.
    pub open spec fn cycle(self, temp: u8) -> Cycle {
        let mean_temp = self.next_mean(temp);
        if mean_temp == self.last_mean_temp {
            Cycle { mean_temp, fan_temp: None, sleep_millis: STABLE_TEMP_SLEEP_MILLIS }
        } else {
            Cycle {
                mean_temp,
                fan_temp: Some(mean_temp as u8),
                sleep_millis: RESPONSIVE_SLEEP_MILLIS,
            }
        }
    }

    /// The history with the same reading `n` times more.
    pub open spec fn observed_times(self, temp: u8, n: nat) -> MonitorState
        decreases n,
    {
        if n == 0 {
            self
        } else {
            self.observed_times(temp, (n - 1) as nat).observed(temp)
        }
    }

    /// The history holds no more than its size.
    pub open spec fn bounded(self) -> bool {
        self.readings.len() <= TEMP_BUFFER_SIZE
    }

    /// The state after a whole cycle for each of the readings.
    pub open spec fn after(self, temps: Seq<u8>) -> MonitorState
        decreases temps.len(),
    {
        if temps.len() == 0 {
            self
        } else {
            self.after(temps.drop_last()).next(temps.last())
        }
    }
}

/// A monitor that has not seen any reading.
pub open spec fn fresh() -> MonitorState {
    MonitorState { readings: Seq::empty(), last_mean_temp: 0 }
}

impl View for TemperatureMonitor {
    type V = MonitorState;

    closed spec fn view(&self) -> MonitorState {
        MonitorState { readings: readings(self.history), last_mean_temp: self.last_mean_temp }
    }
}

impl TemperatureMonitor {
    /// A monitor that has not seen any reading.
    pub fn new() -> (monitor: Self)
        ensures
            monitor@ == fresh(),
            monitor@.readings.len() == 0,
            monitor@.last_mean_temp == 0,
    {
        TemperatureMonitor { history: empty_history(), last_mean_temp: 0 }
    }

    /// Adds a reading to the history and gives the mean.
    pub fn update_temperature_history(&mut self, temp: u8) -> (mean_temp: u16)
        ensures
            final(self)@ == old(self)@.observed(temp),
            mean_temp == mean(final(self)@.readings),
            final(self)@.last_mean_temp == old(self)@.last_mean_temp,
            ({
                let all = old(self)@.readings.push(temp);
                final(self)@.readings == all.skip(
                    if all.len() > 50 {
                        all.len() - 50
                    } else {
                        0
                    },
                )
            }),
            ({
                let kept = final(self)@.readings;
                let sum = kept.fold_left(0int, |sum: int, t: u8| sum + t);
                mean_temp * kept.len() <= sum < (mean_temp + 1) * kept.len()
            }),
    {
        proof {
            law_window_is_the_end(self@.readings.push(temp));
            law_mean_is_arithmetic(window(self@.readings.push(temp)));
        }
        push_back(&mut self.history, temp);
        let items: Vec<u8> = history_items(&self.history);
        let len: usize = history_len(&self.history);
        let mut sum: u16 = 0;
        let mut i: usize = 0;
        while i < items.len()
            invariant
                i <= items.len() <= TEMP_BUFFER_SIZE,
                sum == total(items@.take(i as int)),
                sum <= 255 * i,
            decreases items.len() - i,
        {
            assert(items@.take(i + 1).drop_last() == items@.take(i as int));
            sum = sum + items[i] as u16;
            i = i + 1;
        }
        assert(items@.take(i as int) == items@);
        sum / (len as u16)
    }

    /// Whether the mean is that of the last change.
    pub fn is_temperature_stable(&self, current_mean: u16) -> (r: bool)
        ensures
            r == (current_mean == self@.last_mean_temp),
    {
        current_mean == self.last_mean_temp
    }

    /// Pads the history so that a long sleep counts as much as the short ones that
    /// it stands for.
    pub fn pad_temperature_history_for_stable_period(&mut self, temp: u8)
        ensures
            final(self)@ == old(self)@.padded(temp),
            final(self)@.last_mean_temp == old(self)@.last_mean_temp,
            ({
                let all = old(self)@.readings + Seq::new(9, |i: int| temp);
                final(self)@.readings == all.skip(
                    if all.len() > 50 {
                        all.len() - 50
                    } else {
                        0
                    },
                )
            }),
    {
        proof {
            law_window_is_the_end(self@.readings + Seq::new(9, |i: int| temp));
        }
        let ghost before = self@.readings;
        let mut i: usize = 0;
        assert(repeated(temp, 0) == Seq::<u8>::empty());
        while i < STABLE_TEMP_PADDING_COUNT
            invariant
                i <= STABLE_TEMP_PADDING_COUNT,
                self.last_mean_temp == old(self).last_mean_temp,
                before == old(self)@.readings,
                i == 0 ==> readings(self.history) == before,
                i > 0 ==> readings(self.history) == window(before + repeated(temp, i as nat)),
            decreases STABLE_TEMP_PADDING_COUNT - i,
        {
            push_back(&mut self.history, temp);
            proof {
                lemma_window_push(before + repeated(temp, i as nat), temp);
                assert((before + repeated(temp, i as nat)).push(temp) == before + repeated(
                    temp,
                    (i + 1) as nat,
                ));
                assert(before + repeated(temp, 0) == before);
            }
            i = i + 1;
        }
    }

    /// Remembers the mean that the fans are set for.
    pub fn update_last_mean_temp(&mut self, mean_temp: u16)
        ensures
            final(self)@ == (MonitorState { last_mean_temp: mean_temp, ..old(self)@ }),
    {
        self.last_mean_temp = mean_temp;
    }

    /// Ends a cycle and gives the time to sleep, in milliseconds: long if the
    /// temperature is stable, short if it has changed.
    pub fn handle_sleep_cycle(
        &mut self,
        current_temp: u8,
        mean_temp: u16,
        is_stable: bool,
    ) -> (r: u64)
        ensures
            final(self)@ == old(self)@.slept(current_temp, mean_temp, is_stable),
            r == if is_stable {
                STABLE_TEMP_SLEEP_MILLIS
            } else {
                RESPONSIVE_SLEEP_MILLIS
            },
            is_stable ==> r == 1000 && final(self)@.last_mean_temp == old(self)@.last_mean_temp,
            !is_stable ==> r == 100 && final(self)@.last_mean_temp == mean_temp,
            ({
                let all = old(self)@.readings + Seq::new(9, |i: int| current_temp);
                is_stable ==> final(self)@.readings == all.skip(
                    if all.len() > 50 {
                        all.len() - 50
                    } else {
                        0
                    },
                )
            }),
            !is_stable ==> final(self)@.readings == old(self)@.readings,
    {
        if is_stable {
            self.pad_temperature_history_for_stable_period(current_temp);
            STABLE_TEMP_SLEEP_MILLIS
        } else {
            self.update_last_mean_temp(mean_temp);
            RESPONSIVE_SLEEP_MILLIS
        }
    }

    /// A whole cycle: takes a reading in, and says whether and for which temperature
    /// the fans are to be set and how long to sleep then.
    pub fn cycle(&mut self, current_temp: u8) -> (r: Cycle)
        ensures
            final(self)@ == old(self)@.next(current_temp),
            r == old(self)@.cycle(current_temp),
            final(self)@.last_mean_temp == r.mean_temp,
            r.fan_temp == (if r.mean_temp == old(self)@.last_mean_temp {
                None
            } else {
                Some(r.mean_temp as u8)
            }),
            r.sleep_millis == (if r.mean_temp == old(self)@.last_mean_temp {
                1000u64
            } else {
                100u64
            }),
    {
        let mean_temp: u16 = self.update_temperature_history(current_temp);
        let is_stable: bool = self.is_temperature_stable(mean_temp);
        let fan_temp: Option<u8> = if is_stable {
            None
        } else {
            Some(mean_temp as u8)
        };
        let sleep_millis: u64 = self.handle_sleep_cycle(current_temp, mean_temp, is_stable);
        Cycle { mean_temp, fan_temp, sleep_millis }
    }
}

/// What a window drops can be dropped before the next push.
proof fn lemma_window_push(s: Seq<u8>, temp: u8)
    ensures
        window(window(s).push(temp)) == window(s.push(temp)),
{
}

/// The history never holds more than its size, whatever the readings.
pub proof fn law_history_bounded(state: MonitorState, temps: Seq<u8>)
    requires
        state.bounded(),
    ensures
        state.after(temps).bounded(),
    decreases temps.len(),
{
    if temps.len() > 0 {
        law_history_bounded(state, temps.drop_last());
    }
}

/// The window is the end of the sequence that fits into the history: nothing of it is
/// reordered or left out, and nothing more is dropped than must be.
pub proof fn law_window_is_the_end(s: Seq<u8>)
    ensures
        window(s).len() == (if s.len() > 50 {
            50
        } else {
            s.len()
        }),
        s == s.take(s.len() - window(s).len()) + window(s),
        window(s) == s.skip(
            if s.len() > 50 {
                s.len() - 50
            } else {
                0
            },
        ),
{
    if s.len() <= 50 {
        assert(s.skip(0) == s);
    }
}

/// The mean is the arithmetic mean, rounded down: the sum of the readings lies
/// between the mean times their number and one more times their number.
pub proof fn law_mean_is_arithmetic(s: Seq<u8>)
    requires
        s.len() > 0,
    ensures
        ({
            let sum = s.fold_left(0int, |sum: int, t: u8| sum + t);
            mean(s) * s.len() <= sum < (mean(s) + 1) * s.len()
        }),
{
    lemma_total_is_sum(s);
    let t = total(s) as int;
    let n = s.len() as int;
    let m = mean(s) as int;
    vstd::arithmetic::div_mod::lemma_fundamental_div_mod(t, n);
    assert(m * n <= t < (m + 1) * n) by (nonlinear_arith)
        requires
            t == n * m + t % n,
            0 <= t % n < n,
    ;
}

proof fn lemma_total_is_sum(s: Seq<u8>)
    ensures
        total(s) == s.fold_left(0int, |sum: int, t: u8| sum + t),
    decreases s.len(),
{
    if s.len() > 0 {
        lemma_total_is_sum(s.drop_last());
    }
}

/// What a cycle does to the history: a reading of a changed mean enters once, and one
/// of an unchanged mean ten times; the last fifty entries stay.
pub proof fn law_cycle_history(state: MonitorState, temp: u8)
    ensures
        ({
            let times: nat = if state.cycle(temp).fan_temp is None {
                10
            } else {
                1
            };
            let all = state.readings + Seq::new(times, |i: int| temp);
            state.next(temp).readings == all.skip(
                if all.len() > 50 {
                    all.len() - 50
                } else {
                    0
                },
            )
        }),
{
    let once = state.readings + Seq::new(1, |i: int| temp);
    let ten = state.readings + Seq::new(10, |i: int| temp);
    assert(once == state.readings.push(temp));
    assert(ten == state.readings + repeated(temp, 10));
    law_window_is_the_end(once);
    law_window_is_the_end(ten);
    law_long_sleep_counts_as_short_ones(state, temp);
    lemma_observed_times(state, temp, 10);
}

/// The mean of a cycle is the arithmetic mean of the last fifty readings, the new one
/// among them, rounded down.
pub proof fn law_cycle_mean(state: MonitorState, temp: u8)
    ensures
        ({
            let all = state.readings.push(temp);
            let kept = all.skip(
                if all.len() > 50 {
                    all.len() - 50
                } else {
                    0
                },
            );
            let sum = kept.fold_left(0int, |sum: int, t: u8| sum + t);
            let m = state.cycle(temp).mean_temp;
            m * kept.len() <= sum < (m + 1) * kept.len()
        }),
{
    law_window_is_the_end(state.readings.push(temp));
    law_mean_is_arithmetic(state.observed(temp).readings);
    law_fan_temperature_is_mean(state, temp);
}

/// The mean lies between any bounds that every reading keeps.
pub proof fn law_mean_between(s: Seq<u8>, low: u8, high: u8)
    requires
        s.len() > 0,
        forall|i: int| 0 <= i < s.len() ==> low <= #[trigger] s[i] <= high,
    ensures
        low <= mean(s) <= high,
{
    lemma_total_between(s, low, high);
    let n = s.len() as int;
    assert(low <= total(s) / s.len() <= high) by (nonlinear_arith)
        requires
            n == s.len(),
            n > 0,
            low * n <= total(s) <= high * n,
    ;
}

proof fn lemma_total_between(s: Seq<u8>, low: u8, high: u8)
    requires
        forall|i: int| 0 <= i < s.len() ==> low <= #[trigger] s[i] <= high,
    ensures
        low * s.len() <= total(s) <= high * s.len(),
    decreases s.len(),
{
    if s.len() > 0 {
        assert forall|i: int| 0 <= i < s.drop_last().len() implies low
            <= #[trigger] s.drop_last()[i] <= high by {
            assert(s.drop_last()[i] == s[i]);
        }
        lemma_total_between(s.drop_last(), low, high);
        let k = (s.len() - 1) as int;
        assert(low <= s[k] <= high);
        assert(low * (k + 1) == low * k + low) by (nonlinear_arith);
        assert(high * (k + 1) == high * k + high) by (nonlinear_arith);
    } else {
        assert(low * 0 == 0 && high * 0 == 0) by (nonlinear_arith);
    }
}

/// The temperature that the fans are set for is the mean itself: nothing is lost
/// when it is cut to a byte.
pub proof fn law_fan_temperature_is_mean(state: MonitorState, temp: u8)
    ensures
        state.cycle(temp).mean_temp == mean(state.observed(temp).readings) <= 255,
        state.cycle(temp).fan_temp matches Some(t) ==> t == state.cycle(temp).mean_temp,
{
    law_mean_between(state.observed(temp).readings, 0, 255);
}

/// After every cycle the remembered mean is the mean of that cycle, so that it is
/// always the mean that the fans were last set for, and the fans are set exactly
/// when it changes.
pub proof fn law_fans_follow_mean(state: MonitorState, temp: u8)
    ensures
        state.next(temp).last_mean_temp == state.cycle(temp).mean_temp,
        state.cycle(temp).fan_temp is Some <==> state.next(temp).last_mean_temp
            != state.last_mean_temp,
{
}

/// A stable cycle leaves the history as if the same temperature had been read once
/// for every short sleep that fits into the long one.
pub proof fn law_long_sleep_counts_as_short_ones(state: MonitorState, temp: u8)
    ensures
        state.observed(temp).padded(temp) == state.observed_times(
            temp,
            (STABLE_TEMP_SLEEP_MILLIS / RESPONSIVE_SLEEP_MILLIS) as nat,
        ),
{
    lemma_observed_times(state, temp, 10);
    let once = window(state.readings.push(temp));
    let pad = repeated(temp, 9);
    assert(state.readings.push(temp) + pad == state.readings + repeated(temp, 10));
    assert(window(once + pad) == window(state.readings.push(temp) + pad));
}

proof fn lemma_observed_times(state: MonitorState, temp: u8, n: nat)
    requires
        n > 0,
    ensures
        state.observed_times(temp, n) == (MonitorState {
            readings: window(state.readings + repeated(temp, n)),
            ..state
        }),
    decreases n,
{
    let k = (n - 1) as nat;
    let all = state.readings + repeated(temp, k);
    assert(all.push(temp) == state.readings + repeated(temp, n));
    if k > 0 {
        lemma_observed_times(state, temp, k);
        lemma_window_push(all, temp);
    } else {
        assert(all == state.readings);
        assert(state.observed_times(temp, 0) == state);
    }
}

/// The last `k` readings are all `temp`, or all readings are if there are fewer.
spec fn ends_with(s: Seq<u8>, temp: u8, k: nat) -> bool {
    forall|i: int| 0 <= i < s.len() && s.len() - k <= i ==> #[trigger] s[i] == temp
}

proof fn lemma_steady(state: MonitorState, temp: u8, k: nat)
    requires
        state.bounded(),
    ensures
        ({
            let s = state.after(repeated(temp, k));
            &&& s.bounded()
            &&& s.readings.len() >= k || s.readings.len() == TEMP_BUFFER_SIZE
            &&& ends_with(s.readings, temp, k)
        }),
    decreases k,
{
    if k > 0 {
        let j = (k - 1) as nat;
        lemma_steady(state, temp, j);
        assert(repeated(temp, k).drop_last() == repeated(temp, j));
        let s = state.after(repeated(temp, j));
        let o = s.observed(temp).readings;
        assert(ends_with(s.readings.push(temp), temp, k));
        assert(ends_with(o, temp, k));
        let p = s.observed(temp).padded(temp).readings;
        assert(ends_with(o + repeated(temp, STABLE_TEMP_PADDING_COUNT as nat), temp, k));
        assert(ends_with(p, temp, k));
    }
}

/// A temperature that stays the same fills the history within as many cycles as the
/// history holds readings. From then on the mean is that temperature, and further
/// cycles do not touch the fans.
pub proof fn law_steady_temperature_settles(state: MonitorState, temp: u8, n: nat)
    requires
        state.bounded(),
        n >= TEMP_BUFFER_SIZE,
    ensures
        state.after(repeated(temp, n)).readings == repeated(temp, TEMP_BUFFER_SIZE as nat),
        state.after(repeated(temp, n)).last_mean_temp == temp,
        state.after(repeated(temp, n)).cycle(temp) == (Cycle {
            mean_temp: temp as u16,
            fan_temp: None,
            sleep_millis: STABLE_TEMP_SLEEP_MILLIS,
        }),
{
    let k = (n - 1) as nat;
    let before = state.after(repeated(temp, k));
    let s = state.after(repeated(temp, n));
    lemma_steady(state, temp, k);
    lemma_steady(state, temp, n);
    assert(repeated(temp, n).drop_last() == repeated(temp, k));
    assert(before.observed(temp).readings == repeated(temp, TEMP_BUFFER_SIZE as nat)) by {
        assert(ends_with(before.readings.push(temp), temp, n));
    }
    assert(s.readings == repeated(temp, TEMP_BUFFER_SIZE as nat));
    law_mean_between(before.observed(temp).readings, temp, temp);
    law_fans_follow_mean(before, temp);
    assert(s.observed(temp).readings == repeated(temp, TEMP_BUFFER_SIZE as nat));
}

} // verus!
