//! Shared state for bandwidth tracking between the senders, the receivers and
//! the status reporter of a session.

use vstd::arithmetic::div_mod::{lemma_add_mod_noop_right, lemma_mod_bound};
use vstd::prelude::*;

verus! {

/// The byte budget of a session that has no limit.
pub const UNLIMITED: u64 = u64::MAX;

/// The counters of a session.
#[derive(Debug)]
pub struct BandwidthState {
    pub tx_bytes: u64,
    pub rx_bytes: u64,
    pub tx_speed: u32,
    pub tx_speed_changed: bool,
    pub running: bool,
    pub rx_packets: u64,
    pub rx_lost_packets: u64,
    pub last_udp_seq: u32,
    /// Cumulative totals: taking an interval's counters does not reset them.
    pub total_tx_bytes: u64,
    pub total_rx_bytes: u64,
    pub total_lost_packets: u64,
    pub intervals: u32,
    /// Remote peer's CPU usage (received via status messages).
    pub remote_cpu: u8,
    /// Remaining byte budget (TX + RX combined).  When this reaches 0 the test
    /// stops immediately.  [`UNLIMITED`] means that there is none (the default).
    pub byte_budget: u64,
}

/// The sum of two 64-bit counters, wrapping around at the end of the range.
pub open spec fn sum64(a: nat, b: nat) -> nat {
    (a + b) % 0x1_0000_0000_0000_0000
}

/// The sum of two 32-bit counters, wrapping around at the end of the range.
pub open spec fn sum32(a: nat, b: nat) -> nat {
    (a + b) % 0x1_0000_0000
}

impl BandwidthState {
    /// The state of a session that has just begun: everything at zero, running,
    /// without a budget.
    pub open spec fn fresh() -> Self {
        BandwidthState {
            tx_bytes: 0,
            rx_bytes: 0,
            tx_speed: 0,
            tx_speed_changed: false,
            running: true,
            rx_packets: 0,
            rx_lost_packets: 0,
            last_udp_seq: 0,
            total_tx_bytes: 0,
            total_rx_bytes: 0,
            total_lost_packets: 0,
            intervals: 0,
            remote_cpu: 0,
            byte_budget: UNLIMITED,
        }
    }

    /// The state once one interval's counts have been added to the totals.
    pub open spec fn recorded(self, tx: u64, rx: u64, lost: u64) -> Self {
        BandwidthState {
            total_tx_bytes: sum64(self.total_tx_bytes as nat, tx as nat) as u64,
            total_rx_bytes: sum64(self.total_rx_bytes as nat, rx as nat) as u64,
            total_lost_packets: sum64(self.total_lost_packets as nat, lost as nat) as u64,
            intervals: sum32(self.intervals as nat, 1) as u32,
            ..self
        }
    }

    /// Whether the budget can pay for `amount` bytes.
    pub open spec fn affords(self, amount: u64) -> bool {
        self.byte_budget == UNLIMITED || amount <= self.byte_budget
    }

    /// The state once `amount` bytes have been asked for.  A spend that uses the
    /// budget up, or that it cannot pay, stops the session.
    pub open spec fn spent(self, amount: u64) -> Self {
        if self.byte_budget == UNLIMITED {
            self
        } else if amount <= self.byte_budget {
            BandwidthState {
                byte_budget: (self.byte_budget - amount) as u64,
                running: self.running && amount < self.byte_budget,
                ..self
            }
        } else {
            BandwidthState { running: false, ..self }
        }
    }

    /// A session that has just begun.
    pub fn new() -> (state: Self)
        ensures
            state == Self::fresh(),
    {
        BandwidthState {
            tx_bytes: 0,
            rx_bytes: 0,
            tx_speed: 0,
            tx_speed_changed: false,
            running: true,
            rx_packets: 0,
            rx_lost_packets: 0,
            last_udp_seq: 0,
            total_tx_bytes: 0,
            total_rx_bytes: 0,
            total_lost_packets: 0,
            intervals: 0,
            remote_cpu: 0,
            byte_budget: UNLIMITED,
        }
    }

    /// Record an interval's stats into the cumulative totals.
    pub fn record_interval(&mut self, tx: u64, rx: u64, lost: u64)
        ensures
            *final(self) == old(self).recorded(tx, rx, lost),
    {
        self.total_tx_bytes = self.total_tx_bytes.wrapping_add(tx);
        self.total_rx_bytes = self.total_rx_bytes.wrapping_add(rx);
        self.total_lost_packets = self.total_lost_packets.wrapping_add(lost);
        self.intervals = self.intervals.wrapping_add(1);
    }

    /// Try to spend `amount` bytes from the budget.  Returns `true` if allowed,
    /// `false` if the budget is exhausted (and clears `running`).  A spend that
    /// leaves nothing of the budget is allowed and clears `running` too.
    pub fn spend_budget(&mut self, amount: u64) -> (allowed: bool)
        ensures
            allowed == old(self).affords(amount),
            *final(self) == old(self).spent(amount),
    {
        if self.byte_budget == UNLIMITED {
            return true;
        }
        if self.byte_budget < amount {
            self.running = false;
            return false;
        }
        self.byte_budget = self.byte_budget - amount;
        if self.byte_budget == 0 {
            self.running = false;
        }
        true
    }

    /// Set the byte budget (total bytes allowed for the entire test).
    pub fn set_budget(&mut self, budget: u64)
        ensures
            *final(self) == (BandwidthState { byte_budget: budget, ..*old(self) }),
    {
        self.byte_budget = budget;
    }

    /// The totals for the final report: bytes sent, bytes received, packets
    /// lost, intervals recorded.
    pub fn summary(&self) -> (totals: (u64, u64, u64, u32))
        ensures
            totals == (
                self.total_tx_bytes,
                self.total_rx_bytes,
                self.total_lost_packets,
                self.intervals,
            ),
    {
        (self.total_tx_bytes, self.total_rx_bytes, self.total_lost_packets, self.intervals)
    }
}

/// The counts of one interval.
pub struct Interval {
    pub tx: u64,
    pub rx: u64,
    pub lost: u64,
}

/// The state after a history of recorded intervals.
pub open spec fn record_all(state: BandwidthState, history: Seq<Interval>) -> BandwidthState
    decreases history.len(),
{
    if history.len() == 0 {
        state
    } else {
        record_all(state, history.drop_last()).recorded(
            history.last().tx,
            history.last().rx,
            history.last().lost,
        )
    }
}

/// The sum of a sequence of counts.
pub open spec fn total(counts: Seq<u64>) -> nat
    decreases counts.len(),
{
    if counts.len() == 0 {
        0
    } else {
        total(counts.drop_last()) + counts.last() as nat
    }
}

/// Wrapping sums can be taken in any grouping, and stay in their range.
proof fn lemma_sums_associate(a: nat, b: nat, c: nat)
    ensures
        sum64(sum64(a, b), c) == sum64(a, b + c),
        sum32(sum32(a, b), c) == sum32(a, b + c),
        sum64(a, b) as u64 == sum64(a, b),
        sum32(a, b) as u32 == sum32(a, b),
{
    let (m, n): (int, int) = (0x1_0000_0000_0000_0000, 0x1_0000_0000);
    lemma_add_mod_noop_right(c as int, (a + b) as int, m);
    lemma_add_mod_noop_right(c as int, (a + b) as int, n);
    lemma_mod_bound((a + b) as int, m);
    lemma_mod_bound((a + b) as int, n);
}

/// The totals are the sums over all recorded intervals, as far as their ranges
/// go, and nothing else of the state has changed.
pub proof fn law_totals_are_sums(state: BandwidthState, history: Seq<Interval>)
    ensures
        record_all(state, history) == (BandwidthState {
            total_tx_bytes: sum64(
                state.total_tx_bytes as nat,
                total(history.map_values(|i: Interval| i.tx)),
            ) as u64,
            total_rx_bytes: sum64(
                state.total_rx_bytes as nat,
                total(history.map_values(|i: Interval| i.rx)),
            ) as u64,
            total_lost_packets: sum64(
                state.total_lost_packets as nat,
                total(history.map_values(|i: Interval| i.lost)),
            ) as u64,
            intervals: sum32(state.intervals as nat, history.len()) as u32,
            ..state
        }),
    decreases history.len(),
{
    if history.len() > 0 {
        let last = history.last();
        let rest = history.drop_last();
        let txs = rest.map_values(|i: Interval| i.tx);
        let rxs = rest.map_values(|i: Interval| i.rx);
        let losts = rest.map_values(|i: Interval| i.lost);
        law_totals_are_sums(state, rest);
        assert(history.map_values(|i: Interval| i.tx).drop_last() =~= txs);
        assert(history.map_values(|i: Interval| i.rx).drop_last() =~= rxs);
        assert(history.map_values(|i: Interval| i.lost).drop_last() =~= losts);
        lemma_sums_associate(state.total_tx_bytes as nat, total(txs), last.tx as nat);
        lemma_sums_associate(state.total_rx_bytes as nat, total(rxs), last.rx as nat);
        lemma_sums_associate(state.total_lost_packets as nat, total(losts), last.lost as nat);
        lemma_sums_associate(state.intervals as nat, rest.len(), 1);
    }
}

/// The state after a history of spends.
pub open spec fn spend_all(state: BandwidthState, amounts: Seq<u64>) -> BandwidthState
    decreases amounts.len(),
{
    if amounts.len() == 0 {
        state
    } else {
        spend_all(state, amounts.drop_last()).spent(amounts.last())
    }
}

/// The bytes that a history of spends was allowed.
pub open spec fn allowed_bytes(state: BandwidthState, amounts: Seq<u64>) -> nat
    decreases amounts.len(),
{
    if amounts.len() == 0 {
        0
    } else {
        let rest = amounts.drop_last();
        allowed_bytes(state, rest) + (if spend_all(state, rest).affords(amounts.last()) {
            amounts.last() as nat
        } else {
            0
        })
    }
}

/// A limited budget pays for every byte once: what is left and what was allowed
/// add up to what there was.  So no history is allowed more than the budget.
pub proof fn law_budget_conserved(state: BandwidthState, amounts: Seq<u64>)
    requires
        state.byte_budget != UNLIMITED,
    ensures
        spend_all(state, amounts).byte_budget + allowed_bytes(state, amounts)
            == state.byte_budget,
        spend_all(state, amounts).byte_budget != UNLIMITED,
    decreases amounts.len(),
{
    if amounts.len() > 0 {
        law_budget_conserved(state, amounts.drop_last());
    }
}

/// Without a budget every spend is allowed, and none leaves a trace.
pub proof fn law_unlimited_never_refuses(state: BandwidthState, amounts: Seq<u64>, amount: u64)
    requires
        state.byte_budget == UNLIMITED,
    ensures
        spend_all(state, amounts) == state,
        spend_all(state, amounts).affords(amount),
    decreases amounts.len(),
{
    if amounts.len() > 0 {
        law_unlimited_never_refuses(state, amounts.drop_last(), amount);
    }
}

/// Whether a spend of a history leaves something of the budget over.
pub open spec fn leaves_some(state: BandwidthState, amounts: Seq<u64>, i: int) -> bool {
    let budget = spend_all(state, amounts.take(i)).byte_budget;
    budget == UNLIMITED || amounts[i] < budget
}

/// A session runs on exactly while each spend leaves something over: one that uses
/// the budget up stops it, and so does one that is refused.  Once stopped, it stays
/// stopped, whatever else is spent.
pub proof fn law_runs_while_some_is_left(state: BandwidthState, amounts: Seq<u64>)
    ensures
        spend_all(state, amounts).running == (state.running && forall|i: int|
            0 <= i < amounts.len() ==> #[trigger] leaves_some(state, amounts, i)),
    decreases amounts.len(),
{
    if amounts.len() > 0 {
        let rest = amounts.drop_last();
        let n = amounts.len() - 1;
        law_runs_while_some_is_left(state, rest);
        assert(amounts.take(n) =~= rest);
        assert forall|i: int| 0 <= i < n implies #[trigger] leaves_some(state, amounts, i)
            == leaves_some(state, rest, i) by {
            assert(rest.take(i) =~= amounts.take(i));
        }
        if forall|i: int| 0 <= i < amounts.len() ==> #[trigger] leaves_some(state, amounts, i) {
            assert(leaves_some(state, amounts, n));
            assert forall|i: int| 0 <= i < n implies #[trigger] leaves_some(state, rest, i) by {
                assert(leaves_some(state, amounts, i));
            }
        } else if spend_all(state, amounts).running {
            assert forall|i: int| 0 <= i < amounts.len() implies #[trigger] leaves_some(
                state,
                amounts,
                i,
            ) by {
                if i < n {
                    assert(leaves_some(state, rest, i));
                }
            }
        }
    }
}

/// Spending touches the budget and the running flag alone: the totals and the
/// counters of the interval stay as they are.
pub proof fn law_spends_keep_counters(state: BandwidthState, amounts: Seq<u64>)
    ensures
        spend_all(state, amounts) == (BandwidthState {
            running: spend_all(state, amounts).running,
            byte_budget: spend_all(state, amounts).byte_budget,
            ..state
        }),
    decreases amounts.len(),
{
    if amounts.len() > 0 {
        law_spends_keep_counters(state, amounts.drop_last());
    }
}

/// When the budget reaches zero the test stops immediately: after any history of
/// spends that leaves nothing, the session does not run, and every byte asked for
/// from then on is refused.
pub proof fn law_empty_budget_stops(state: BandwidthState, amounts: Seq<u64>, more: u64)
    requires
        amounts.len() > 0,
        spend_all(state, amounts).byte_budget == 0,
    ensures
        !spend_all(state, amounts).running,
        more > 0 ==> !spend_all(state, amounts).affords(more),
        spend_all(state, amounts).spent(more) == spend_all(state, amounts),
{
}

/// A limited budget allows exactly what is within it: the amount is taken off, and
/// the session runs on if something is left.
pub proof fn law_spend_within_budget(state: BandwidthState, amount: u64)
    requires
        state.byte_budget != u64::MAX,
        amount <= state.byte_budget,
    ensures
        state.affords(amount),
        state.spent(amount).byte_budget == state.byte_budget - amount,
        state.spent(amount).running == (state.running && amount != state.byte_budget),
{
}

/// A limited budget refuses exactly what is beyond it: nothing is taken off, and the
/// session stops.
pub proof fn law_spend_beyond_budget(state: BandwidthState, amount: u64)
    requires
        state.byte_budget != u64::MAX,
        amount > state.byte_budget,
    ensures
        !state.affords(amount),
        state.spent(amount).byte_budget == state.byte_budget,
        !state.spent(amount).running,
{
}

/// Where the largest number stands for the budget there is none: whatever is asked
/// for is allowed, and nothing changes.
pub proof fn law_spend_without_budget(state: BandwidthState, amount: u64)
    requires
        state.byte_budget == u64::MAX,
    ensures
        state.affords(amount),
        state.spent(amount) == state,
{
}

/// A history of spends whose total is within the budget is allowed in full, and the
/// total is taken off: whatever was spent before, the next amount is allowed where
/// the sum of all is still within the budget, and refused where it is beyond.
pub proof fn law_affordable_history(state: BandwidthState, amounts: Seq<u64>, next: u64)
    requires
        state.byte_budget != u64::MAX,
        total(amounts) <= state.byte_budget,
    ensures
        spend_all(state, amounts).byte_budget == state.byte_budget - total(amounts),
        spend_all(state, amounts).affords(next) == (total(amounts) + next <= state.byte_budget),
    decreases amounts.len(),
{
    if amounts.len() > 0 {
        law_affordable_history(state, amounts.drop_last(), amounts.last());
    }
}

/// Two spends that the budget covers are as good as one spend of their sum.
pub proof fn law_spends_add_up(state: BandwidthState, a: u64, b: u64)
    requires
        state.byte_budget != u64::MAX,
        a + b <= state.byte_budget,
    ensures
        state.spent(a).spent(b) == state.spent((a + b) as u64),
{
}

/// One interval adds its counts to the totals and one to the number of intervals,
/// up to whole turns of the counters, and leaves everything else as it is.
pub proof fn law_record_adds(state: BandwidthState, tx: u64, rx: u64, lost: u64)
    ensures
        ({
            let after = state.recorded(tx, rx, lost);
            let turn: int = 0x1_0000_0000_0000_0000;
            &&& after.total_tx_bytes == state.total_tx_bytes + tx || after.total_tx_bytes
                == state.total_tx_bytes + tx - turn
            &&& after.total_rx_bytes == state.total_rx_bytes + rx || after.total_rx_bytes
                == state.total_rx_bytes + rx - turn
            &&& after.total_lost_packets == state.total_lost_packets + lost
                || after.total_lost_packets == state.total_lost_packets + lost - turn
            &&& after.intervals == state.intervals + 1 || after.intervals == state.intervals + 1
                - 0x1_0000_0000
            &&& after == BandwidthState {
                total_tx_bytes: after.total_tx_bytes,
                total_rx_bytes: after.total_rx_bytes,
                total_lost_packets: after.total_lost_packets,
                intervals: after.intervals,
                ..state
            }
        }),
{
}

/// A session that has just begun has counted nothing: after any history of
/// intervals its totals are the sums over the history, as far as their ranges go, and
/// it still runs, without a budget.
pub proof fn law_fresh_session(history: Seq<Interval>, amount: u64)
    ensures
        ({
            let state = record_all(BandwidthState::fresh(), history);
            let turn: nat = 0x1_0000_0000_0000_0000;
            &&& state.total_tx_bytes == total(history.map_values(|i: Interval| i.tx)) % turn
            &&& state.total_rx_bytes == total(history.map_values(|i: Interval| i.rx)) % turn
            &&& state.total_lost_packets == total(history.map_values(|i: Interval| i.lost)) % turn
            &&& state.intervals == history.len() % 0x1_0000_0000
            &&& state.tx_bytes == 0 && state.rx_bytes == 0
            &&& state.tx_speed == 0 && !state.tx_speed_changed
            &&& state.rx_packets == 0 && state.rx_lost_packets == 0 && state.last_udp_seq == 0
            &&& state.remote_cpu == 0
            &&& state.running
            &&& state.byte_budget == u64::MAX
            &&& state.affords(amount)
            &&& state.spent(amount) == state
        }),
{
    law_totals_are_sums(BandwidthState::fresh(), history);
}

} // verus!
