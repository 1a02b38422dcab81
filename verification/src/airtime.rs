//! Airtime accounting: the one duty-cycle gate every protocol shares.
//!
//! This is the single place transmit discipline is enforced: whatever rides the radio
//! (Reticulum, a mesh personality, a bearer tunnel) passes the same gate. Regulatory regimes
//! differ (EU 868 MHz has hard duty-cycle limits; US 915 MHz Part 15.247 constrains dwell
//! instead), so the budget is configuration, not policy baked in here.
//!
//! Sans-io: the caller supplies time as milliseconds and asks before transmitting. Nothing here
//! sleeps, schedules, or touches a clock.

use std::collections::VecDeque;
use vstd::prelude::*;

verus! {

/// The mathematical content of a budget.
#[verifier::ext_equal]
pub struct BudgetModel {
    pub window: nat,
    pub permille: nat,
    /// (start, duration) of recorded transmissions, oldest first.
    pub sent: Seq<(u64, u64)>,
}

/// The time before which nothing counts any more.
pub open spec fn cutoff(now: nat, window: nat) -> nat {
    if now >= window {
        (now - window) as nat
    } else {
        0
    }
}

/// The part of a transmission that lies after `cut`.
pub open spec fn part_after(send: (u64, u64), cut: nat) -> nat {
    let end = send.0 + send.1;
    let from = if send.0 >= cut {
        send.0 as int
    } else {
        cut as int
    };
    if end > from {
        (end - from) as nat
    } else {
        0
    }
}

/// The airtime of all transmissions after `cut`.
pub open spec fn total_after(sent: Seq<(u64, u64)>, cut: nat) -> nat
    decreases sent.len(),
{
    if sent.len() == 0 {
        0
    } else {
        total_after(sent.drop_last(), cut) + part_after(sent.last(), cut)
    }
}

/// The transmissions left when those at the front that ended by `cut` are forgotten.
pub open spec fn pruned(sent: Seq<(u64, u64)>, cut: nat) -> Seq<(u64, u64)>
    decreases sent.len(),
{
    if sent.len() > 0 && sent[0].0 + sent[0].1 <= cut {
        pruned(sent.skip(1), cut)
    } else {
        sent
    }
}

impl BudgetModel {
    /// Airtime allowed per window.
    pub open spec fn allowance(self) -> nat {
        self.window * self.permille / 1000
    }

    /// Airtime spent within the window ending at `now`.
    pub open spec fn spent(self, now: nat) -> nat {
        total_after(self.sent, cutoff(now, self.window))
    }

    /// Whether a transmission of `duration` starting at `now` stays in budget.
    pub open spec fn fits(self, now: nat, duration: nat) -> bool {
        duration == 0 || self.spent(now) + duration <= self.allowance()
    }

    /// The budget with what is out of the window at `now` forgotten.
    pub open spec fn prune(self, now: nat) -> BudgetModel {
        BudgetModel { sent: pruned(self.sent, cutoff(now, self.window)), ..self }
    }

    /// The budget with one more transmission.
    pub open spec fn record(self, start: u64, duration: u64) -> BudgetModel {
        BudgetModel { sent: self.sent.push((start, duration)), ..self }
    }
}

/// Sliding-window airtime budget.
///
/// Tracks transmissions over a trailing window and answers "may I transmit for `duration_ms`
/// right now, and if not, when?". Permitted airtime is `budget_permille` thousandths of the
/// window (e.g. 10 = 1%, the strictest EU sub-band; 100 = 10%).
pub struct AirtimeBudget {
    window_ms: u64,
    budget_permille: u64,
    /// (start_ms, duration_ms) of recorded transmissions, oldest first.
    sent: VecDeque<(u64, u64)>,
}

impl View for AirtimeBudget {
    type V = BudgetModel;

    closed spec fn view(&self) -> BudgetModel {
        BudgetModel {
            window: self.window_ms as nat,
            permille: self.budget_permille as nat,
            sent: self.sent@,
        }
    }
}

/// Every transmission ends at a time that the clock can show.
pub open spec fn ends_in_range(sent: Seq<(u64, u64)>) -> bool {
    forall|i: int| 0 <= i < sent.len() ==> (#[trigger] sent[i]).0 + sent[i].1 <= u64::MAX
}

impl AirtimeBudget {
    #[verifier::type_invariant]
    closed spec fn well_formed(&self) -> bool {
        ends_in_range(self.sent@)
    }

    pub fn new(window_ms: u64, budget_permille: u64) -> (budget: Self)
        ensures
            budget@ == (BudgetModel {
                window: window_ms as nat,
                permille: budget_permille as nat,
                sent: Seq::empty(),
            }),
    {
        let budget = AirtimeBudget { window_ms, budget_permille, sent: VecDeque::new() };
        assert(budget.sent@ =~= Seq::<(u64, u64)>::empty());
        budget
    }

    /// Airtime allowed per window, in milliseconds.
    pub fn allowance_ms(&self) -> (allowance: u64)
        requires
            self@.window * self@.permille <= u64::MAX,
        ensures
            allowance == self@.allowance(),
    {
        self.window_ms * self.budget_permille / 1000
    }

    fn cutoff_ms(&self, now_ms: u64) -> (cut: u64)
        ensures
            cut == cutoff(now_ms as nat, self@.window),
    {
        if now_ms >= self.window_ms {
            now_ms - self.window_ms
        } else {
            0
        }
    }

    fn prune(&mut self, now_ms: u64)
        ensures
            final(self)@ == old(self)@.prune(now_ms as nat),
    {
        proof {
            use_type_invariant(&*self);
        }
        let cut: u64 = self.cutoff_ms(now_ms);
        let mut sent: VecDeque<(u64, u64)> = VecDeque::new();
        std::mem::swap(&mut sent, &mut self.sent);
        let ghost all = sent@;
        while sent.len() > 0 && sent[0].0 + sent[0].1 <= cut
            invariant
                ends_in_range(sent@),
                pruned(sent@, cut as nat) == pruned(all, cut as nat),
            decreases sent@.len(),
        {
            let ghost held = sent@;
            sent.pop_front();
            assert(sent@ =~= held.skip(1));
            assert forall|i: int| 0 <= i < sent@.len() implies (#[trigger] sent@[i]).0 + sent@[i].1
                <= u64::MAX by {
                assert(sent@[i] == held[i + 1]);
            }
        }
        self.sent = sent;
    }

    /// Airtime spent within the window ending at `now_ms`, or `u64::MAX` if it is more.
    fn spent_capped(&self, now_ms: u64) -> (spent: u64)
        ensures
            spent == if self@.spent(now_ms as nat) <= u64::MAX {
                self@.spent(now_ms as nat)
            } else {
                u64::MAX as nat
            },
    {
        proof {
            use_type_invariant(self);
        }
        let cut: u64 = self.cutoff_ms(now_ms);
        let len: usize = self.sent.len();
        let mut spent: u64 = 0;
        let mut i: usize = 0;
        assert(self.sent@.take(0) =~= Seq::<(u64, u64)>::empty());
        while i < len
            invariant
                i <= len,
                len == self.sent@.len(),
                ends_in_range(self.sent@),
                spent == if total_after(self.sent@.take(i as int), cut as nat) <= u64::MAX {
                    total_after(self.sent@.take(i as int), cut as nat)
                } else {
                    u64::MAX as nat
                },
            decreases len - i,
        {
            let send: (u64, u64) = self.sent[i];
            let end: u64 = send.0 + send.1;
            let from: u64 = if send.0 >= cut {
                send.0
            } else {
                cut
            };
            let part: u64 = if end > from {
                end - from
            } else {
                0
            };
            assert(self.sent@.take(i + 1).drop_last() =~= self.sent@.take(i as int));
            assert(self.sent@.take(i + 1).last() == send);
            spent = if part <= u64::MAX - spent {
                spent + part
            } else {
                u64::MAX
            };
            i += 1;
        }
        assert(self.sent@.take(len as int) =~= self.sent@);
        spent
    }

    /// Airtime spent within the window ending at `now_ms`. Transmissions straddling the window
    /// edge count only their in-window part.
    pub fn spent_ms(&mut self, now_ms: u64) -> (spent: u64)
        requires
            old(self)@.spent(now_ms as nat) <= u64::MAX,
        ensures
            spent == old(self)@.spent(now_ms as nat),
            final(self)@ == old(self)@.prune(now_ms as nat),
    {
        self.prune(now_ms);
        proof {
            law_forgetting_changes_nothing(old(self)@, now_ms as nat, now_ms as nat);
        }
        self.spent_capped(now_ms)
    }

    /// Would a transmission of `duration_ms` starting now stay in budget?
    pub fn may_transmit(&mut self, now_ms: u64, duration_ms: u64) -> (may: bool)
        requires
            old(self)@.window * old(self)@.permille <= u64::MAX,
        ensures
            may == old(self)@.fits(now_ms as nat, duration_ms as nat),
            final(self)@ == old(self)@.prune(now_ms as nat),
    {
        self.prune(now_ms);
        proof {
            law_forgetting_changes_nothing(old(self)@, now_ms as nat, now_ms as nat);
        }
        self.has_room(now_ms, duration_ms)
    }

    fn has_room(&self, now_ms: u64, duration_ms: u64) -> (room: bool)
        requires
            self@.window * self@.permille <= u64::MAX,
        ensures
            room == self@.fits(now_ms as nat, duration_ms as nat),
    {
        let allowance: u64 = self.allowance_ms();
        let spent: u64 = self.spent_capped(now_ms);
        duration_ms <= (if allowance >= spent {
            allowance - spent
        } else {
            0
        })
    }

    /// Record a transmission that was actually made.
    pub fn record(&mut self, start_ms: u64, duration_ms: u64)
        requires
            start_ms + duration_ms <= u64::MAX,
        ensures
            final(self)@ == old(self)@.record(start_ms, duration_ms),
    {
        proof {
            use_type_invariant(&*self);
        }
        let mut sent: VecDeque<(u64, u64)> = VecDeque::new();
        std::mem::swap(&mut sent, &mut self.sent);
        sent.push_back((start_ms, duration_ms));
        self.sent = sent;
    }

    /// Earliest time a transmission of `duration_ms` could fit, at or after `now_ms`. Returns
    /// `None` if it can never fit (longer than the whole allowance).
    ///
    /// That time must be one the clock can show.
    pub fn next_slot(&mut self, now_ms: u64, duration_ms: u64) -> (slot: Option<u64>)
        requires
            old(self)@.window * old(self)@.permille <= u64::MAX,
            duration_ms <= old(self)@.allowance() ==> old(self)@.fits(
                u64::MAX as nat,
                duration_ms as nat,
            ),
        ensures
            slot is None <==> duration_ms > old(self)@.allowance(),
            match slot {
                Some(t) => {
                    &&& now_ms <= t
                    &&& old(self)@.fits(t as nat, duration_ms as nat)
                    &&& forall|u: nat|
                        now_ms <= u < t ==> !#[trigger] old(self)@.fits(u, duration_ms as nat)
                },
                None => true,
            },
            final(self)@ == old(self)@.prune(now_ms as nat),
    {
        self.prune(now_ms);
        proof {
            assert forall|u: nat| now_ms <= u implies #[trigger] old(self)@.fits(
                u,
                duration_ms as nat,
            ) == self@.fits(u, duration_ms as nat) by {
                law_forgetting_changes_nothing(old(self)@, now_ms as nat, u);
            }
        }
        if duration_ms > self.allowance_ms() {
            return None;
        }
        // Room only grows as time passes, so the first moment with room is found by bisection.
        let mut late: u64 = u64::MAX;
        let mut early: u64 = now_ms;
        assert(self@.fits(late as nat, duration_ms as nat));
        while early < late
            invariant
                now_ms <= early <= late,
                self@.window * self@.permille <= u64::MAX,
                self@.fits(late as nat, duration_ms as nat),
                forall|u: nat| now_ms <= u < early ==> !#[trigger] self@.fits(u, duration_ms as nat),
            decreases late - early,
        {
            let middle: u64 = early + (late - early) / 2;
            if self.has_room(middle, duration_ms) {
                late = middle;
            } else {
                proof {
                    assert forall|u: nat| now_ms <= u < middle + 1 implies !#[trigger] self@.fits(
                        u,
                        duration_ms as nat,
                    ) by {
                        if self@.fits(u, duration_ms as nat) {
                            law_room_only_grows(self@, u, middle as nat, duration_ms as nat);
                        }
                    }
                }
                early = middle + 1;
            }
        }
        Some(late)
    }
}

/// Moving the cutoff later never adds to what counts.
proof fn lemma_total_shrinks(sent: Seq<(u64, u64)>, early: nat, late: nat)
    requires
        early <= late,
    ensures
        total_after(sent, late) <= total_after(sent, early),
    decreases sent.len(),
{
    if sent.len() > 0 {
        lemma_total_shrinks(sent.drop_last(), early, late);
    }
}

/// The first transmission may be counted first.
proof fn lemma_total_from_front(sent: Seq<(u64, u64)>, cut: nat)
    requires
        sent.len() > 0,
    ensures
        total_after(sent, cut) == part_after(sent[0], cut) + total_after(sent.skip(1), cut),
    decreases sent.len(),
{
    if sent.len() == 1 {
        assert(sent.drop_last() =~= Seq::<(u64, u64)>::empty());
        assert(sent.skip(1) =~= Seq::<(u64, u64)>::empty());
        reveal_with_fuel(total_after, 2);
    } else {
        lemma_total_from_front(sent.drop_last(), cut);
        assert(sent.drop_last().skip(1) =~= sent.skip(1).drop_last());
        assert(sent.skip(1).last() == sent.last());
    }
}

/// What is forgotten counted for nothing.
proof fn lemma_pruned_total(sent: Seq<(u64, u64)>, cut: nat, later: nat)
    requires
        cut <= later,
    ensures
        total_after(pruned(sent, cut), later) == total_after(sent, later),
    decreases sent.len(),
{
    if sent.len() > 0 && sent[0].0 + sent[0].1 <= cut {
        lemma_pruned_total(sent.skip(1), cut, later);
        lemma_total_from_front(sent, later);
    }
}

/// Forgetting what has left the window changes no answer from then on.
pub proof fn law_forgetting_changes_nothing(budget: BudgetModel, now: nat, later: nat)
    requires
        now <= later,
    ensures
        budget.prune(now).spent(later) == budget.spent(later),
        forall|duration: nat| #[trigger]
            budget.prune(now).fits(later, duration) == budget.fits(later, duration),
{
    lemma_pruned_total(budget.sent, cutoff(now, budget.window), cutoff(later, budget.window));
}

/// Room only grows as time passes, as long as nothing more is sent.
pub proof fn law_room_only_grows(budget: BudgetModel, now: nat, later: nat, duration: nat)
    requires
        now <= later,
    ensures
        budget.spent(later) <= budget.spent(now),
        budget.fits(now, duration) ==> budget.fits(later, duration),
{
    lemma_total_shrinks(budget.sent, cutoff(now, budget.window), cutoff(later, budget.window));
}

/// Asking first keeps the duty cycle: if a transmission is made when the budget allows it, and
/// recorded, then at no later time has more been spent in the window than is allowed.
pub proof fn law_asking_first_keeps_the_duty_cycle(
    budget: BudgetModel,
    now: u64,
    duration: u64,
    later: nat,
)
    requires
        budget.spent(now as nat) <= budget.allowance(),
        budget.fits(now as nat, duration as nat),
        now <= later,
    ensures
        budget.record(now, duration).spent(later) <= budget.allowance(),
{
    law_room_only_grows(budget, now as nat, later, duration as nat);
    let after = budget.record(now, duration);
    assert(after.sent.drop_last() =~= budget.sent);
}

/// A transmission counts in full until the window's edge reaches it, and not at all once it has
/// left the window.
pub proof fn law_transmissions_age_out(budget: BudgetModel, start: u64, duration: u64, now: nat)
    ensures
        cutoff(now, budget.window) <= start ==> budget.record(start, duration).spent(now)
            == budget.spent(now) + duration,
        start + duration + budget.window <= now ==> budget.record(start, duration).spent(now)
            == budget.spent(now),
{
    let after = budget.record(start, duration);
    assert(after.sent.drop_last() =~= budget.sent);
}

/// Once everything sent has left the window, the whole allowance is free: what is no longer than
/// the allowance fits sooner or later.
pub proof fn law_every_allowed_duration_fits_in_time(budget: BudgetModel, now: nat, duration: nat)
    requires
        duration <= budget.allowance(),
        forall|i: int|
            0 <= i < budget.sent.len() ==> (#[trigger] budget.sent[i]).0 + budget.sent[i].1
                + budget.window <= now,
    ensures
        budget.fits(now, duration),
{
    lemma_all_out(budget.sent, cutoff(now, budget.window));
}

proof fn lemma_all_out(sent: Seq<(u64, u64)>, cut: nat)
    requires
        forall|i: int| 0 <= i < sent.len() ==> (#[trigger] sent[i]).0 + sent[i].1 <= cut,
    ensures
        total_after(sent, cut) == 0,
    decreases sent.len(),
{
    if sent.len() > 0 {
        assert(sent.last() == sent[sent.len() - 1]);
        assert forall|i: int| 0 <= i < sent.drop_last().len() implies (
        #[trigger] sent.drop_last()[i]).0 + sent.drop_last()[i].1 <= cut by {
            assert(sent.drop_last()[i] == sent[i]);
        }
        lemma_all_out(sent.drop_last(), cut);
    }
}

/// Every millisecond counts, once: a transmission adds to what is spent exactly the part of it
/// that lies in the window, the last `window` milliseconds, all of it where it began within the
/// window.
pub proof fn law_every_millisecond_in_the_window_counts(
    budget: BudgetModel,
    start: u64,
    duration: u64,
    now: nat,
)
    ensures
        ({
            let more = budget.record(start, duration).spent(now) - budget.spent(now);
            &&& start + budget.window >= now ==> more == duration
            &&& start + duration + budget.window <= now ==> more == 0
            &&& start + budget.window < now < start + duration + budget.window ==> more == start
                + duration + budget.window - now
        }),
{
    let after = budget.record(start, duration);
    assert(after.sent.drop_last() =~= budget.sent);
}

/// The allowance is the budgeted thousandths of the window, to the millisecond below; and it can
/// all be used: a transmission fits exactly where what is spent and it together are within it.
pub proof fn law_the_allowance_is_a_share_of_the_window(
    budget: BudgetModel,
    start: u64,
    duration: u64,
    now: nat,
    next: nat,
)
    requires
        start + budget.window >= now,
        next > 0,
    ensures
        budget.allowance() * 1000 <= budget.window * budget.permille < (budget.allowance() + 1)
            * 1000,
        budget.record(start, duration).fits(now, next) <==> budget.spent(now) + duration + next
            <= budget.allowance(),
        budget.sent.len() == 0 ==> budget.spent(now) == 0,
        budget.fits(now, 0),
{
    law_every_millisecond_in_the_window_counts(budget, start, duration, now);
}

} // verus!
