//! Fund data model, lifecycle controller and investor registry.

use vstd::prelude::*;

use crate::model::allocation_of;
use crate::model::deposit_of;
use crate::model::distinct_addrs;
use crate::model::has_investor;
use crate::model::investor_addrs;
use crate::model::lemma_deposit_le_sum;
use crate::model::lemma_sum_push;
use crate::model::lemma_sum_update;
use crate::model::lemma_upsert_absent;
use crate::model::lemma_upsert_found;
use crate::model::sum_deposits;
use crate::model::trader_addrs;
use crate::model::upsert_deposit;

verus! {

/// Largest pool amount the engine accepts for deposits, totals and balance
/// readings. Settlement multiplies such an amount by a percentage of at
/// most 100 before dividing, so keeping every amount at or below
/// `i128::MAX / 100` keeps all intermediate products inside `i128`.
pub const MAX_POOL_AMOUNT: i128 = 1701411834604692317316873037158841057;

/// An account identifier, opaque to the engine: the only thing the logic
/// ever does with one is compare it for equality.
#[derive(Clone, Copy, PartialEq, Eq, Structural, Debug)]
pub struct Address {
    pub id: u64,
}

/// Lifecycle of a fund. The state never regresses and `Closed` is terminal.
#[derive(Clone, Copy, PartialEq, Eq, Structural, Debug)]
pub enum FundState {
    OpenToInvestors,
    Trading,
    Closed,
}

/// Everything that can go wrong in an entry point. Every error aborts the
/// call with no state change observable.
#[derive(Clone, Copy, PartialEq, Eq, Structural, Debug)]
pub enum FundError {
    /// A parameter is outside its allowed range: a performance fee percent
    /// outside `[0, 100)`, or a negative deposit.
    InvalidParameter,
    /// `create` was called on an already-initialized fund slot.
    AlreadyInitialized,
    /// The caller of `close_fund` is not the fund's manager.
    Unauthorized,
    /// The fund is already closed.
    AlreadyClosed,
}

/// A trader entitled to a share of the performance fee, proportional to its
/// allocation percentage.
#[derive(Clone, Copy, PartialEq, Eq, Structural, Debug)]
pub struct TraderRecord {
    pub addr: Address,
    pub allocation_percent: i128,
}

/// An investor and the cumulative amount it has deposited.
#[derive(Clone, Copy, PartialEq, Eq, Structural, Debug)]
pub struct InvestorRecord {
    pub addr: Address,
    pub deposit_amount: i128,
}

/// One pending movement of value out of the fund, to be executed by the
/// token gateway: `transfer(fund, to, amount)`.
#[derive(Clone, Copy, PartialEq, Eq, Structural, Debug)]
pub struct Transfer {
    pub to: Address,
    pub amount: i128,
}

/// Everything `close_fund` asks the token gateway to execute: first the
/// performance-fee transfers to traders, then the residual payouts to
/// investors, in registry order.
#[derive(Debug)]
pub struct Settlement {
    pub fee_transfers: Vec<Transfer>,
    pub investor_payouts: Vec<Transfer>,
}

/// The singleton pooled-capital fund: lifecycle state, parameters, and the
/// ordered trader and investor registries.
pub struct AlphaFund {
    pub state: FundState,
    pub manager: Address,
    pub performance_fee_percent: i128,
    pub token: Address,
    pub total_deposited: i128,
    pub traders: Vec<TraderRecord>,
    pub investors: Vec<InvestorRecord>,
}

/// Two fund values that agree on every observable part. Entry points that
/// fail promise this between the fund before and after the call.
pub open spec fn same_fund(a: AlphaFund, b: AlphaFund) -> bool {
    &&& a.state == b.state
    &&& a.manager == b.manager
    &&& a.performance_fee_percent == b.performance_fee_percent
    &&& a.token == b.token
    &&& a.total_deposited == b.total_deposited
    &&& a.traders@ == b.traders@
    &&& a.investors@ == b.investors@
}

impl AlphaFund {
    /// Validity of a fund value. `create` establishes it and every entry
    /// point preserves it: the fee percent is in range, registry addresses
    /// are distinct, allocations lie in `[0, 100]`, deposits are
    /// non-negative, and `total_deposited` is exactly the sum of the
    /// recorded deposits, bounded so settlement arithmetic cannot
    /// overflow.
    pub open spec fn well_formed(self) -> bool {
        &&& 0 <= self.performance_fee_percent < 100
        &&& distinct_addrs(trader_addrs(self.traders@))
        &&& forall|j: int|
            0 <= j < self.traders@.len() ==> 0 <= (#[trigger] self.traders@[j]).allocation_percent
                <= 100
        &&& distinct_addrs(investor_addrs(self.investors@))
        &&& forall|j: int|
            0 <= j < self.investors@.len() ==> (#[trigger] self.investors@[j]).deposit_amount >= 0
        &&& self.total_deposited == sum_deposits(self.investors@)
        &&& 0 <= self.total_deposited <= MAX_POOL_AMOUNT
    }

    /// One-time initializer of the fund slot. On success the slot holds a
    /// fund that is open to investors, managed and parameterized as given,
    /// with the trader registry containing exactly the manager at the
    /// default allocation of 0 and the investor registry empty. A fee
    /// percent outside `[0, 100)` is rejected, and a slot that already
    /// holds a fund is never overwritten.
    pub fn create(
        slot: &mut Option<AlphaFund>,
        manager: Address,
        performance_fee_percent: i128,
        token: Address,
    ) -> (r: Result<(), FundError>)
        ensures
            r == Ok::<(), FundError>(()) <==> (*old(slot) is None && 0 <= performance_fee_percent
                < 100),
            r == Err::<(), FundError>(FundError::AlreadyInitialized) <==> *old(slot) is Some,
            r == Err::<(), FundError>(FundError::InvalidParameter) <==> (*old(slot) is None && !(0
                <= performance_fee_percent < 100)),
            r is Err ==> *final(slot) == *old(slot),
            r is Ok ==> (*final(slot) matches Some(f) && {
                &&& f.well_formed()
                &&& f.state == FundState::OpenToInvestors
                &&& f.manager == manager
                &&& f.performance_fee_percent == performance_fee_percent
                &&& f.token == token
                &&& f.total_deposited == 0
                &&& f.traders@ == seq![(TraderRecord { addr: manager, allocation_percent: 0 })]
                &&& f.investors@ == Seq::<InvestorRecord>::empty()
            }),
    {
        if slot.is_some() {
            return Err(FundError::AlreadyInitialized);
        }
        if performance_fee_percent < 0 || performance_fee_percent >= 100 {
            return Err(FundError::InvalidParameter);
        }
        let mut traders: Vec<TraderRecord> = Vec::new();
        traders.push(TraderRecord { addr: manager, allocation_percent: 0 });
        let investors: Vec<InvestorRecord> = Vec::new();
        let fund = AlphaFund {
            state: FundState::OpenToInvestors,
            manager,
            performance_fee_percent,
            token,
            total_deposited: 0,
            traders,
            investors,
        };
        proof {
            assert(fund.traders@ == seq![
                (TraderRecord { addr: manager, allocation_percent: 0 }),
            ]) by {
                assert(fund.traders@ =~= seq![
                    (TraderRecord { addr: manager, allocation_percent: 0 }),
                ]);
            }
            assert(sum_deposits(fund.investors@) == 0);
        }
        *slot = Some(fund);
        Ok(())
    }

    /// Records a deposit: appends `investor` to the registry if it is not
    /// yet a member (membership is idempotent, registry order preserved),
    /// adds the amount to its cumulative deposit, and adds it to the
    /// fund's total. Deposits are only accepted while the fund is not
    /// closed, and a negative amount is rejected.
    #[verifier::loop_isolation(false)]
    pub fn add_investor(&mut self, investor: Address, deposit_amount: i128) -> (r: Result<
        (),
        FundError,
    >)
        requires
            old(self).well_formed(),
            old(self).total_deposited + deposit_amount <= MAX_POOL_AMOUNT,
        ensures
            final(self).well_formed(),
            r == Ok::<(), FundError>(()) <==> (old(self).state != FundState::Closed
                && deposit_amount >= 0),
            r == Err::<(), FundError>(FundError::AlreadyClosed) <==> old(self).state
                == FundState::Closed,
            r == Err::<(), FundError>(FundError::InvalidParameter) <==> (old(self).state
                != FundState::Closed && deposit_amount < 0),
            r is Err ==> same_fund(*final(self), *old(self)),
            r is Ok ==> final(self).investors@ == upsert_deposit(
                old(self).investors@,
                investor,
                deposit_amount,
            ),
            r is Ok ==> final(self).total_deposited == old(self).total_deposited + deposit_amount,
            final(self).state == old(self).state,
            final(self).manager == old(self).manager,
            final(self).performance_fee_percent == old(self).performance_fee_percent,
            final(self).token == old(self).token,
            final(self).traders@ == old(self).traders@,
    {
        if self.state == FundState::Closed {
            return Err(FundError::AlreadyClosed);
        }
        if deposit_amount < 0 {
            return Err(FundError::InvalidParameter);
        }
        let ghost s = self.investors@;
        let n = self.investors.len();
        let mut i: usize = 0;
        while i < n
            invariant
                i <= n,
                n == self.investors.len(),
                *self == *old(self),
                s == self.investors@,
                forall|j: int| 0 <= j < i ==> s[j].addr != investor,
            decreases n - i,
        {
            if self.investors[i].addr == investor {
                let d = self.investors[i].deposit_amount;
                proof {
                    lemma_deposit_le_sum(s, i as int);
                    lemma_upsert_found(s, investor, deposit_amount, i as int);
                    lemma_sum_update(
                        s,
                        i as int,
                        (InvestorRecord {
                            addr: investor,
                            deposit_amount: (d + deposit_amount) as i128,
                        }),
                    );
                }
                self.investors.set(
                    i,
                    InvestorRecord { addr: investor, deposit_amount: d + deposit_amount },
                );
                self.total_deposited = self.total_deposited + deposit_amount;
                proof {
                    assert(investor_addrs(self.investors@) =~= investor_addrs(s));
                }
                return Ok(());
            }
            i += 1;
        }
        proof {
            assert(!has_investor(s, investor)) by {
                if has_investor(s, investor) {
                    let k = choose|k: int| 0 <= k < s.len() && s[k].addr == investor;
                    assert(s[k].addr != investor);
                }
            }
            lemma_upsert_absent(s, investor, deposit_amount);
            lemma_sum_push(s, (InvestorRecord { addr: investor, deposit_amount }));
        }
        self.investors.push(InvestorRecord { addr: investor, deposit_amount });
        self.total_deposited = self.total_deposited + deposit_amount;
        proof {
            assert(investor_addrs(self.investors@) =~= investor_addrs(s).push(investor));
        }
        Ok(())
    }

    /// The addresses of all traders, in registry order.
    #[verifier::loop_isolation(false)]
    pub fn get_traders(&self) -> (v: Vec<Address>)
        ensures
            v@ == trader_addrs(self.traders@),
    {
        let mut v: Vec<Address> = Vec::new();
        let n = self.traders.len();
        let mut i: usize = 0;
        while i < n
            invariant
                i <= n,
                v@.len() == i,
                forall|j: int| 0 <= j < i ==> v@[j] == self.traders@[j].addr,
            decreases n - i,
        {
            v.push(self.traders[i].addr);
            i += 1;
        }
        proof {
            assert(v@ =~= trader_addrs(self.traders@));
        }
        v
    }

    /// The addresses of all investors, in registry order.
    #[verifier::loop_isolation(false)]
    pub fn get_investors(&self) -> (v: Vec<Address>)
        ensures
            v@ == investor_addrs(self.investors@),
    {
        let mut v: Vec<Address> = Vec::new();
        let n = self.investors.len();
        let mut i: usize = 0;
        while i < n
            invariant
                i <= n,
                v@.len() == i,
                forall|j: int| 0 <= j < i ==> v@[j] == self.investors@[j].addr,
            decreases n - i,
        {
            v.push(self.investors[i].addr);
            i += 1;
        }
        proof {
            assert(v@ =~= investor_addrs(self.investors@));
        }
        v
    }

    /// The cumulative deposit recorded for `investor`, or 0 if it has
    /// none.
    #[verifier::loop_isolation(false)]
    pub fn investor_deposit(&self, investor: Address) -> (r: i128)
        ensures
            r as int == deposit_of(self.investors@, investor),
    {
        let s = &self.investors;
        let n = s.len();
        let mut i: usize = 0;
        proof {
            assert(s@.skip(0) =~= s@);
        }
        while i < n
            invariant
                i <= n,
                deposit_of(s@, investor) == deposit_of(s@.skip(i as int), investor),
            decreases n - i,
        {
            proof {
                assert(s@.skip(i as int).first() == s@[i as int]);
                assert(s@.skip(i as int).drop_first() =~= s@.skip(i as int + 1));
            }
            if s[i].addr == investor {
                return s[i].deposit_amount;
            }
            i += 1;
        }
        proof {
            assert(s@.skip(n as int) =~= Seq::<InvestorRecord>::empty());
        }
        0
    }

    /// The allocation percentage recorded for `trader`, or 0 if it has
    /// none.
    #[verifier::loop_isolation(false)]
    pub fn trader_allocation(&self, trader: Address) -> (r: i128)
        ensures
            r as int == allocation_of(self.traders@, trader),
    {
        let s = &self.traders;
        let n = s.len();
        let mut i: usize = 0;
        proof {
            assert(s@.skip(0) =~= s@);
        }
        while i < n
            invariant
                i <= n,
                allocation_of(s@, trader) == allocation_of(s@.skip(i as int), trader),
            decreases n - i,
        {
            proof {
                assert(s@.skip(i as int).first() == s@[i as int]);
                assert(s@.skip(i as int).drop_first() =~= s@.skip(i as int + 1));
            }
            if s[i].addr == trader {
                return s[i].allocation_percent;
            }
            i += 1;
        }
        proof {
            assert(s@.skip(n as int) =~= Seq::<TraderRecord>::empty());
        }
        0
    }
}

} // verus!
