//! Settlement engine: performance-fee distribution, residual distribution,
//! and the terminal `close_fund` transition.

use vstd::prelude::*;

use vstd::arithmetic::div_mod::lemma_div_is_ordered;
use vstd::arithmetic::div_mod::lemma_div_multiples_vanish;
use vstd::arithmetic::div_mod::lemma_div_pos_is_pos;

use crate::fund::same_fund;
use crate::fund::AlphaFund;
use crate::fund::Address;
use crate::fund::FundError;
use crate::fund::FundState;
use crate::fund::Settlement;
use crate::fund::Transfer;
use crate::fund::MAX_POOL_AMOUNT;
use crate::model::fee_plan;
use crate::model::lemma_deposit_le_sum;
use crate::model::lemma_fee_plan_zero;
use crate::model::payout_plan;
use crate::model::total_fee_of;

verus! {

impl AlphaFund {
    /// The performance-fee transfers for a fund balance reading of
    /// `balance`: profit is the balance above total deposits, the total fee
    /// is `floor(profit * performance_fee_percent / 100)`, and each trader
    /// receives its truncated allocation share of that fee, in registry
    /// order. Traders whose share truncates to zero receive no transfer,
    /// and no transfer at all is produced without profit.
    #[verifier::loop_isolation(false)]
    pub fn performance_fees(&self, balance: i128) -> (v: Vec<Transfer>)
        requires
            self.well_formed(),
            0 <= balance <= MAX_POOL_AMOUNT,
        ensures
            v@ == fee_plan(
                self.traders@,
                total_fee_of(
                    balance as int,
                    self.total_deposited as int,
                    self.performance_fee_percent as int,
                ),
            ),
    {
        let mut v: Vec<Transfer> = Vec::new();
        if balance <= self.total_deposited {
            proof {
                lemma_fee_plan_zero(self.traders@);
            }
            return v;
        }
        let profit = balance - self.total_deposited;
        proof {
            assert(0 <= profit * self.performance_fee_percent <= MAX_POOL_AMOUNT * 99)
                by (nonlinear_arith)
                requires
                    0 < profit <= MAX_POOL_AMOUNT,
                    0 <= self.performance_fee_percent <= 99,
            ;
            lemma_div_pos_is_pos(profit * self.performance_fee_percent, 100);
            lemma_div_is_ordered(
                profit * self.performance_fee_percent,
                MAX_POOL_AMOUNT * 99,
                100,
            );
        }
        let total_fee = (profit * self.performance_fee_percent) / 100;
        let n = self.traders.len();
        let mut i: usize = 0;
        proof {
            assert(self.traders@.take(0) =~= Seq::<crate::fund::TraderRecord>::empty());
        }
        while i < n
            invariant
                i <= n,
                v@ == fee_plan(self.traders@.take(i as int), total_fee as int),
            decreases n - i,
        {
            let t = self.traders[i];
            proof {
                assert(self.traders@.take(i as int + 1).drop_last() =~= self.traders@.take(
                    i as int,
                ));
                assert(self.traders@.take(i as int + 1).last() == self.traders@[i as int]);
                assert(0 <= total_fee * t.allocation_percent <= MAX_POOL_AMOUNT * 100)
                    by (nonlinear_arith)
                    requires
                        0 <= total_fee <= MAX_POOL_AMOUNT,
                        0 <= t.allocation_percent <= 100,
                ;
                lemma_div_pos_is_pos(total_fee * t.allocation_percent, 100);
            }
            let share = (total_fee * t.allocation_percent) / 100;
            if share > 0 {
                v.push(Transfer { to: t.addr, amount: share });
            }
            i += 1;
        }
        proof {
            assert(self.traders@.take(n as int) =~= self.traders@);
        }
        v
    }

    /// The residual payouts for a post-fee balance reading of
    /// `remaining_balance`: each investor's share truncates twice, first to
    /// a whole percentage of total deposits, then to a whole payout of the
    /// remaining balance, in registry order. Investors whose payout
    /// truncates to zero receive no transfer, and the distribution is
    /// skipped entirely when nothing was ever deposited.
    #[verifier::loop_isolation(false)]
    pub fn residual_payouts(&self, remaining_balance: i128) -> (v: Vec<Transfer>)
        requires
            self.well_formed(),
            0 <= remaining_balance <= MAX_POOL_AMOUNT,
        ensures
            v@ == payout_plan(
                self.investors@,
                self.total_deposited as int,
                remaining_balance as int,
            ),
    {
        let mut v: Vec<Transfer> = Vec::new();
        if self.total_deposited == 0 {
            return v;
        }
        let total = self.total_deposited;
        let n = self.investors.len();
        let mut i: usize = 0;
        proof {
            assert(self.investors@.take(0) =~= Seq::<crate::fund::InvestorRecord>::empty());
        }
        while i < n
            invariant
                i <= n,
                v@ == payout_plan(
                    self.investors@.take(i as int),
                    total as int,
                    remaining_balance as int,
                ),
            decreases n - i,
        {
            let rec = self.investors[i];
            proof {
                assert(self.investors@.take(i as int + 1).drop_last() =~= self.investors@.take(
                    i as int,
                ));
                assert(self.investors@.take(i as int + 1).last() == self.investors@[i as int]);
                lemma_deposit_le_sum(self.investors@, i as int);
                lemma_div_pos_is_pos(rec.deposit_amount * 100, total as int);
                lemma_div_is_ordered(rec.deposit_amount * 100, total * 100, total as int);
                lemma_div_multiples_vanish(100, total as int);
            }
            let percentage = (rec.deposit_amount * 100) / total;
            proof {
                assert(0 <= remaining_balance * percentage <= MAX_POOL_AMOUNT * 100)
                    by (nonlinear_arith)
                    requires
                        0 <= remaining_balance <= MAX_POOL_AMOUNT,
                        0 <= percentage <= 100,
                ;
                lemma_div_pos_is_pos(remaining_balance * percentage, 100);
            }
            let payout = (remaining_balance * percentage) / 100;
            if payout > 0 {
                v.push(Transfer { to: rec.addr, amount: payout });
            }
            i += 1;
        }
        proof {
            assert(self.investors@.take(n as int) =~= self.investors@);
        }
        v
    }

    /// Settles and irreversibly closes the fund. `balance` and
    /// `remaining_balance` are the two token-gateway balance readings the
    /// algorithm depends on: the fund's holdings before the fee transfers
    /// and after them. Only the manager may close, a closed fund can never
    /// be closed again, and a failed call changes nothing. On success the
    /// returned settlement holds exactly the fee transfers and residual
    /// payouts for those readings, and the fund's state is `Closed`.
    pub fn close_fund(&mut self, caller: Address, balance: i128, remaining_balance: i128) -> (r:
        Result<Settlement, FundError>)
        requires
            old(self).well_formed(),
            0 <= balance <= MAX_POOL_AMOUNT,
            0 <= remaining_balance <= MAX_POOL_AMOUNT,
        ensures
            final(self).well_formed(),
            (r matches Err(e) && e == FundError::Unauthorized) <==> caller != old(self).manager,
            (r matches Err(e) && e == FundError::AlreadyClosed) <==> (caller == old(self).manager
                && old(self).state == FundState::Closed),
            r is Ok <==> (caller == old(self).manager && old(self).state != FundState::Closed),
            r is Err ==> same_fund(*final(self), *old(self)),
            r matches Ok(s) ==> ({
                &&& s.fee_transfers@ == fee_plan(
                    old(self).traders@,
                    total_fee_of(
                        balance as int,
                        old(self).total_deposited as int,
                        old(self).performance_fee_percent as int,
                    ),
                )
                &&& s.investor_payouts@ == payout_plan(
                    old(self).investors@,
                    old(self).total_deposited as int,
                    remaining_balance as int,
                )
                &&& final(self).state == FundState::Closed
                &&& final(self).manager == old(self).manager
                &&& final(self).performance_fee_percent == old(self).performance_fee_percent
                &&& final(self).token == old(self).token
                &&& final(self).total_deposited == old(self).total_deposited
                &&& final(self).traders@ == old(self).traders@
                &&& final(self).investors@ == old(self).investors@
            }),
    {
        if caller != self.manager {
            return Err(FundError::Unauthorized);
        }
        if self.state == FundState::Closed {
            return Err(FundError::AlreadyClosed);
        }
        let fee_transfers = self.performance_fees(balance);
        let investor_payouts = self.residual_payouts(remaining_balance);
        self.state = FundState::Closed;
        Ok(Settlement { fee_transfers, investor_payouts })
    }
}

} // verus!

