//! Mathematical model of the registries and of the settlement algorithm.
//!
//! The spec functions here are what the executable entry points promise in
//! their contracts: how the investor registry evolves under a deposit, and
//! which transfers settlement produces for given balance readings.

use vstd::prelude::*;

use vstd::arithmetic::div_mod::lemma_div_is_ordered;
use vstd::arithmetic::div_mod::lemma_div_multiples_vanish;
use vstd::arithmetic::div_mod::lemma_div_of0;
use vstd::arithmetic::div_mod::lemma_div_pos_is_pos;
use vstd::arithmetic::div_mod::lemma_fundamental_div_mod;
use vstd::arithmetic::div_mod::lemma_mod_bound;

use crate::fund::Address;
use crate::fund::InvestorRecord;
use crate::fund::TraderRecord;
use crate::fund::Transfer;
use crate::fund::MAX_POOL_AMOUNT;

verus! {

/// The addresses of an investor registry, in registry order.
pub open spec fn investor_addrs(s: Seq<InvestorRecord>) -> Seq<Address> {
    Seq::new(s.len(), |i: int| s[i].addr)
}

/// The addresses of a trader registry, in registry order.
pub open spec fn trader_addrs(s: Seq<TraderRecord>) -> Seq<Address> {
    Seq::new(s.len(), |i: int| s[i].addr)
}

/// No address occurs twice.
pub open spec fn distinct_addrs(s: Seq<Address>) -> bool {
    forall|i: int, j: int| 0 <= i < j < s.len() ==> s[i] != s[j]
}

/// Whether `a` is a member of the investor registry.
pub open spec fn has_investor(s: Seq<InvestorRecord>, a: Address) -> bool {
    exists|i: int| 0 <= i < s.len() && s[i].addr == a
}

/// The recorded deposit of `a`: the amount in its first record, or 0 if it
/// has none. In a well-formed registry addresses are distinct, so the first
/// record is the only one.
pub open spec fn deposit_of(s: Seq<InvestorRecord>, a: Address) -> int
    decreases s.len(),
{
    if s.len() == 0 {
        0
    } else if s.first().addr == a {
        s.first().deposit_amount as int
    } else {
        deposit_of(s.drop_first(), a)
    }
}

/// The recorded allocation percentage of trader `a`, or 0 if it has no
/// record.
pub open spec fn allocation_of(s: Seq<TraderRecord>, a: Address) -> int
    decreases s.len(),
{
    if s.len() == 0 {
        0
    } else if s.first().addr == a {
        s.first().allocation_percent as int
    } else {
        allocation_of(s.drop_first(), a)
    }
}

/// The sum of all recorded deposits.
pub open spec fn sum_deposits(s: Seq<InvestorRecord>) -> int
    decreases s.len(),
{
    if s.len() == 0 {
        0
    } else {
        s.first().deposit_amount + sum_deposits(s.drop_first())
    }
}

/// The investor registry after a deposit of `amount` by `a`: the first
/// record of `a` is incremented in place, or a new record is appended if
/// `a` has none. Membership is idempotent and registry order is preserved.
pub open spec fn upsert_deposit(s: Seq<InvestorRecord>, a: Address, amount: i128) -> Seq<
    InvestorRecord,
>
    decreases s.len(),
{
    if s.len() == 0 {
        seq![InvestorRecord { addr: a, deposit_amount: amount }]
    } else if s.first().addr == a {
        seq![
            InvestorRecord {
                addr: a,
                deposit_amount: (s.first().deposit_amount + amount) as i128,
            },
        ] + s.drop_first()
    } else {
        seq![s.first()] + upsert_deposit(s.drop_first(), a, amount)
    }
}

/// The total performance fee carved out of realized profit:
/// `floor(max(balance - total_deposited, 0) * fee_percent / 100)`.
pub open spec fn total_fee_of(balance: int, total_deposited: int, fee_percent: int) -> int {
    if balance > total_deposited {
        (balance - total_deposited) * fee_percent / 100
    } else {
        0
    }
}

/// The performance-fee transfers, one per trader in registry order whose
/// truncated share `floor(total_fee * allocation_percent / 100)` is
/// positive.
pub open spec fn fee_plan(traders: Seq<TraderRecord>, total_fee: int) -> Seq<Transfer>
    decreases traders.len(),
{
    if traders.len() == 0 {
        Seq::<Transfer>::empty()
    } else {
        let rest = fee_plan(traders.drop_last(), total_fee);
        let share = total_fee * traders.last().allocation_percent / 100;
        if share > 0 {
            rest.push(Transfer { to: traders.last().addr, amount: share as i128 })
        } else {
            rest
        }
    }
}

/// The residual payouts, one per investor in registry order whose payout is
/// positive. Each payout deliberately truncates twice:
/// `percentage = floor(deposit * 100 / total_deposited)`, then
/// `payout = floor(remaining * percentage / 100)`. If nothing was ever
/// deposited the distribution is skipped entirely.
pub open spec fn payout_plan(
    investors: Seq<InvestorRecord>,
    total_deposited: int,
    remaining: int,
) -> Seq<Transfer>
    decreases investors.len(),
{
    if total_deposited <= 0 || investors.len() == 0 {
        Seq::<Transfer>::empty()
    } else {
        let rest = payout_plan(investors.drop_last(), total_deposited, remaining);
        let percentage = investors.last().deposit_amount * 100 / total_deposited;
        let payout = remaining * percentage / 100;
        if payout > 0 {
            rest.push(Transfer { to: investors.last().addr, amount: payout as i128 })
        } else {
            rest
        }
    }
}

/// A registry whose deposits are all non-negative has a non-negative sum.
pub proof fn lemma_sum_nonneg(s: Seq<InvestorRecord>)
    requires
        forall|j: int| 0 <= j < s.len() ==> s[j].deposit_amount >= 0,
    ensures
        sum_deposits(s) >= 0,
    decreases s.len(),
{
    if s.len() > 0 {
        assert(forall|j: int|
            0 <= j < s.drop_first().len() ==> s.drop_first()[j].deposit_amount >= 0);
        lemma_sum_nonneg(s.drop_first());
    }
}

/// Appending a record adds its deposit to the sum.
pub proof fn lemma_sum_push(s: Seq<InvestorRecord>, r: InvestorRecord)
    ensures
        sum_deposits(s.push(r)) == sum_deposits(s) + r.deposit_amount,
    decreases s.len(),
{
    if s.len() == 0 {
        assert(s.push(r).first() == r);
        assert(s.push(r).drop_first() =~= Seq::<InvestorRecord>::empty());
        assert(sum_deposits(Seq::<InvestorRecord>::empty()) == 0);
    } else {
        assert(s.push(r).first() == s.first());
        assert(s.push(r).drop_first() =~= s.drop_first().push(r));
        lemma_sum_push(s.drop_first(), r);
    }
}

/// Replacing one record changes the sum by the difference of the deposits.
pub proof fn lemma_sum_update(s: Seq<InvestorRecord>, i: int, r: InvestorRecord)
    requires
        0 <= i < s.len(),
    ensures
        sum_deposits(s.update(i, r)) == sum_deposits(s) - s[i].deposit_amount
            + r.deposit_amount,
    decreases i,
{
    if i == 0 {
        assert(s.update(0, r).first() == r);
        assert(s.update(0, r).drop_first() =~= s.drop_first());
    } else {
        assert(s.update(i, r).first() == s.first());
        assert(s.update(i, r).drop_first() =~= s.drop_first().update(i - 1, r));
        lemma_sum_update(s.drop_first(), i - 1, r);
    }
}

/// In a registry of non-negative deposits, no single deposit exceeds the
/// sum.
pub proof fn lemma_deposit_le_sum(s: Seq<InvestorRecord>, i: int)
    requires
        0 <= i < s.len(),
        forall|j: int| 0 <= j < s.len() ==> s[j].deposit_amount >= 0,
    ensures
        s[i].deposit_amount <= sum_deposits(s),
    decreases i,
{
    assert(forall|j: int|
        0 <= j < s.drop_first().len() ==> s.drop_first()[j].deposit_amount >= 0);
    if i == 0 {
        lemma_sum_nonneg(s.drop_first());
    } else {
        lemma_deposit_le_sum(s.drop_first(), i - 1);
    }
}

/// When `a` already has a record, a deposit is an in-place update of its
/// first record.
pub proof fn lemma_upsert_found(s: Seq<InvestorRecord>, a: Address, amount: i128, i: int)
    requires
        0 <= i < s.len(),
        s[i].addr == a,
        forall|j: int| 0 <= j < i ==> s[j].addr != a,
    ensures
        upsert_deposit(s, a, amount) =~= s.update(
            i,
            (InvestorRecord {
                addr: a,
                deposit_amount: (s[i].deposit_amount + amount) as i128,
            }),
        ),
    decreases i,
{
    if i == 0 {
        assert(s.first().addr == a);
    } else {
        assert(s.first().addr != a);
        assert(s.drop_first()[i - 1].addr == a);
        lemma_upsert_found(s.drop_first(), a, amount, i - 1);
    }
}

/// When `a` has no record, a deposit appends a fresh record.
pub proof fn lemma_upsert_absent(s: Seq<InvestorRecord>, a: Address, amount: i128)
    requires
        !has_investor(s, a),
    ensures
        upsert_deposit(s, a, amount) =~= s.push(
            (InvestorRecord { addr: a, deposit_amount: amount }),
        ),
    decreases s.len(),
{
    if s.len() > 0 {
        assert(s.first().addr != a) by {
            if s.first().addr == a {
                assert(s[0].addr == a);
            }
        }
        assert(!has_investor(s.drop_first(), a)) by {
            if has_investor(s.drop_first(), a) {
                let k = choose|k: int|
                    0 <= k < s.drop_first().len() && s.drop_first()[k].addr == a;
                assert(s[k + 1].addr == a);
            }
        }
        lemma_upsert_absent(s.drop_first(), a, amount);
    }
}

/// The recorded deposit of `a` is the amount at its first occurrence.
pub proof fn lemma_deposit_of_found(s: Seq<InvestorRecord>, a: Address, i: int)
    requires
        0 <= i < s.len(),
        s[i].addr == a,
        forall|j: int| 0 <= j < i ==> s[j].addr != a,
    ensures
        deposit_of(s, a) == s[i].deposit_amount as int,
    decreases i,
{
    if i == 0 {
        assert(s.first().addr == a);
    } else {
        assert(s.first().addr != a);
        assert(s.drop_first()[i - 1].addr == a);
        lemma_deposit_of_found(s.drop_first(), a, i - 1);
    }
}

/// An address with no record has a recorded deposit of 0.
pub proof fn lemma_deposit_of_absent(s: Seq<InvestorRecord>, a: Address)
    requires
        !has_investor(s, a),
    ensures
        deposit_of(s, a) == 0,
    decreases s.len(),
{
    if s.len() > 0 {
        assert(s.first().addr != a) by {
            if s.first().addr == a {
                assert(s[0].addr == a);
            }
        }
        assert(!has_investor(s.drop_first(), a)) by {
            if has_investor(s.drop_first(), a) {
                let k = choose|k: int|
                    0 <= k < s.drop_first().len() && s.drop_first()[k].addr == a;
                assert(s[k + 1].addr == a);
            }
        }
        lemma_deposit_of_absent(s.drop_first(), a);
    }
}

/// Law: deposits are idempotent on membership and additive on amounts. A
/// second deposit by the same address adds no entry to the registry — the
/// registry's addresses are exactly those after the first deposit — and the
/// address's recorded deposit accumulates both amounts.
pub proof fn lemma_repeated_deposit(s: Seq<InvestorRecord>, a: Address, amt1: i128, amt2: i128)
    requires
        distinct_addrs(investor_addrs(s)),
        forall|j: int| 0 <= j < s.len() ==> (#[trigger] s[j]).deposit_amount >= 0,
        0 <= amt1,
        0 <= amt2,
        deposit_of(s, a) + amt1 + amt2 <= i128::MAX,
    ensures
        investor_addrs(upsert_deposit(upsert_deposit(s, a, amt1), a, amt2)) == investor_addrs(
            upsert_deposit(s, a, amt1),
        ),
        deposit_of(upsert_deposit(upsert_deposit(s, a, amt1), a, amt2), a) == deposit_of(s, a)
            + amt1 + amt2,
{
    let s1 = upsert_deposit(s, a, amt1);
    let s2 = upsert_deposit(s1, a, amt2);
    if has_investor(s, a) {
        let i = choose|i: int| 0 <= i < s.len() && s[i].addr == a;
        assert forall|j: int| 0 <= j < i implies s[j].addr != a by {
            if s[j].addr == a {
                assert(investor_addrs(s)[j] == a);
                assert(investor_addrs(s)[i] == a);
            }
        }
        lemma_deposit_of_found(s, a, i);
        lemma_upsert_found(s, a, amt1, i);
        assert(s1[i].addr == a);
        lemma_deposit_of_found(s1, a, i);
        lemma_upsert_found(s1, a, amt2, i);
        assert(s2[i].addr == a);
        lemma_deposit_of_found(s2, a, i);
        assert(investor_addrs(s2) =~= investor_addrs(s1));
    } else {
        lemma_deposit_of_absent(s, a);
        lemma_upsert_absent(s, a, amt1);
        let i = s.len() as int;
        assert(s1[i].addr == a);
        assert(forall|j: int| 0 <= j < i ==> (#[trigger] s1[j]).addr != a);
        lemma_deposit_of_found(s1, a, i);
        lemma_upsert_found(s1, a, amt2, i);
        assert(s2[i].addr == a);
        lemma_deposit_of_found(s2, a, i);
        assert(investor_addrs(s2) =~= investor_addrs(s1));
    }
}

/// The total amount of a transfer plan.
pub open spec fn sum_transfers(s: Seq<Transfer>) -> int
    decreases s.len(),
{
    if s.len() == 0 {
        0
    } else {
        sum_transfers(s.drop_last()) + s.last().amount
    }
}

/// The sum of the investors' truncated percentages of total deposits.
pub open spec fn pct_sum(s: Seq<InvestorRecord>, total_deposited: int) -> int
    decreases s.len(),
{
    if s.len() == 0 {
        0
    } else {
        pct_sum(s.drop_last(), total_deposited) + s.last().deposit_amount * 100 / total_deposited
    }
}

/// Dividing two non-negative parts truncates at least as much as dividing
/// their sum: `a / d + b / d <= (a + b) / d`.
proof fn lemma_div_sum_le(a: int, b: int, d: int)
    requires
        0 <= a,
        0 <= b,
        0 < d,
    ensures
        a / d + b / d <= (a + b) / d,
{
    lemma_fundamental_div_mod(a, d);
    lemma_fundamental_div_mod(b, d);
    lemma_mod_bound(a, d);
    lemma_mod_bound(b, d);
    assert(d * (a / d) + d * (b / d) == d * (a / d + b / d)) by (nonlinear_arith);
    lemma_div_is_ordered(d * (a / d + b / d), a + b, d);
    lemma_div_multiples_vanish(a / d + b / d, d);
}

/// The truncated percentages sum to at most the truncated percentage of the
/// summed deposits.
proof fn lemma_pct_sum_le(s: Seq<InvestorRecord>, total_deposited: int)
    requires
        forall|j: int| 0 <= j < s.len() ==> (#[trigger] s[j]).deposit_amount >= 0,
        0 < total_deposited,
    ensures
        0 <= pct_sum(s, total_deposited),
        pct_sum(s, total_deposited) <= sum_deposits(s) * 100 / total_deposited,
    decreases s.len(),
{
    if s.len() == 0 {
        lemma_div_of0(total_deposited);
    } else {
        let rest = s.drop_last();
        assert(forall|j: int| 0 <= j < rest.len() ==> (#[trigger] rest[j]).deposit_amount >= 0);
        lemma_pct_sum_le(rest, total_deposited);
        lemma_sum_nonneg(rest);
        let d_last = s.last().deposit_amount as int;
        lemma_div_pos_is_pos(d_last * 100, total_deposited);
        assert(rest.push(s.last()) =~= s);
        lemma_sum_push(rest, s.last());
        lemma_div_sum_le(sum_deposits(rest) * 100, d_last * 100, total_deposited);
    }
}

/// Each payout is a truncated percentage of the remaining balance, so a
/// whole plan pays at most `remaining * pct_sum / 100`.
proof fn lemma_payout_sum_le(s: Seq<InvestorRecord>, total_deposited: int, remaining: int)
    requires
        forall|j: int|
            0 <= j < s.len() ==> 0 <= (#[trigger] s[j]).deposit_amount <= total_deposited,
        0 < total_deposited <= MAX_POOL_AMOUNT as int,
        0 <= remaining <= MAX_POOL_AMOUNT as int,
    ensures
        0 <= sum_transfers(payout_plan(s, total_deposited, remaining)),
        sum_transfers(payout_plan(s, total_deposited, remaining)) <= remaining * pct_sum(
            s,
            total_deposited,
        ) / 100,
    decreases s.len(),
{
    if s.len() == 0 {
        lemma_div_of0(100);
    } else {
        let rest = s.drop_last();
        assert(forall|j: int|
            0 <= j < rest.len() ==> 0 <= (#[trigger] rest[j]).deposit_amount <= total_deposited);
        lemma_payout_sum_le(rest, total_deposited, remaining);
        let p = s.last().deposit_amount * 100 / total_deposited;
        lemma_div_pos_is_pos(s.last().deposit_amount * 100, total_deposited);
        lemma_div_is_ordered(
            s.last().deposit_amount * 100,
            total_deposited * 100,
            total_deposited,
        );
        lemma_div_multiples_vanish(100, total_deposited);
        assert(p <= 100);
        lemma_pct_sum_le(rest, total_deposited);
        let payout = remaining * p / 100;
        assert(0 <= remaining * p <= remaining * 100) by (nonlinear_arith)
            requires
                0 <= remaining,
                0 <= p <= 100,
        ;
        lemma_div_pos_is_pos(remaining * p, 100);
        lemma_div_is_ordered(remaining * p, remaining * 100, 100);
        lemma_div_multiples_vanish(remaining, 100);
        assert(payout <= remaining);
        assert(remaining * pct_sum(rest, total_deposited) + remaining * p == remaining * pct_sum(
            s,
            total_deposited,
        )) by (nonlinear_arith)
            requires
                pct_sum(s, total_deposited) == pct_sum(rest, total_deposited) + p,
        ;
        assert(0 <= remaining * pct_sum(rest, total_deposited)) by (nonlinear_arith)
            requires
                0 <= remaining,
                0 <= pct_sum(rest, total_deposited),
        ;
        lemma_div_sum_le(remaining * pct_sum(rest, total_deposited), remaining * p, 100);
        if payout > 0 {
            assert(payout_plan(s, total_deposited, remaining).drop_last() =~= payout_plan(
                rest,
                total_deposited,
                remaining,
            ));
        } else {
            lemma_div_is_ordered(
                remaining * pct_sum(rest, total_deposited),
                remaining * pct_sum(s, total_deposited),
                100,
            );
        }
    }
}

/// Law: the residual distribution never pays out more than the remaining
/// balance. The double truncation can leave dust in the fund but can never
/// overdraw it.
pub proof fn lemma_payouts_within_remaining(
    investors: Seq<InvestorRecord>,
    total_deposited: int,
    remaining: int,
)
    requires
        forall|j: int|
            0 <= j < investors.len() ==> (#[trigger] investors[j]).deposit_amount >= 0,
        sum_deposits(investors) == total_deposited,
        total_deposited <= MAX_POOL_AMOUNT as int,
        0 <= remaining <= MAX_POOL_AMOUNT as int,
    ensures
        sum_transfers(payout_plan(investors, total_deposited, remaining)) <= remaining,
{
    if total_deposited <= 0 {
        assert(sum_transfers(payout_plan(investors, total_deposited, remaining)) == 0);
    } else {
        assert forall|j: int|
            0 <= j < investors.len() implies 0 <= (#[trigger] investors[j]).deposit_amount
            <= total_deposited by {
            lemma_deposit_le_sum(investors, j);
        }
        lemma_pct_sum_le(investors, total_deposited);
        lemma_payout_sum_le(investors, total_deposited, remaining);
        lemma_div_multiples_vanish(100, total_deposited);
        assert(pct_sum(investors, total_deposited) <= 100);
        assert(remaining * pct_sum(investors, total_deposited) <= remaining * 100)
            by (nonlinear_arith)
            requires
                0 <= remaining,
                pct_sum(investors, total_deposited) <= 100,
        ;
        lemma_div_is_ordered(
            remaining * pct_sum(investors, total_deposited),
            remaining * 100,
            100,
        );
        lemma_div_multiples_vanish(remaining, 100);
    }
}

/// The sum of the traders' allocation percentages.
pub open spec fn alloc_sum(s: Seq<TraderRecord>) -> int
    decreases s.len(),
{
    if s.len() == 0 {
        0
    } else {
        alloc_sum(s.drop_last()) + s.last().allocation_percent
    }
}

/// Each fee transfer is a truncated allocation share of the total fee, so
/// a whole plan pays at most `total_fee * alloc_sum / 100`.
proof fn lemma_fee_sum_le(s: Seq<TraderRecord>, total_fee: int)
    requires
        forall|j: int|
            0 <= j < s.len() ==> 0 <= (#[trigger] s[j]).allocation_percent <= 100,
        0 <= total_fee <= MAX_POOL_AMOUNT as int,
    ensures
        0 <= sum_transfers(fee_plan(s, total_fee)),
        0 <= alloc_sum(s),
        sum_transfers(fee_plan(s, total_fee)) <= total_fee * alloc_sum(s) / 100,
    decreases s.len(),
{
    if s.len() == 0 {
        lemma_div_of0(100);
    } else {
        let rest = s.drop_last();
        assert(forall|j: int|
            0 <= j < rest.len() ==> 0 <= (#[trigger] rest[j]).allocation_percent <= 100);
        lemma_fee_sum_le(rest, total_fee);
        let a = s.last().allocation_percent as int;
        let share = total_fee * a / 100;
        assert(0 <= total_fee * a <= total_fee * 100) by (nonlinear_arith)
            requires
                0 <= total_fee,
                0 <= a <= 100,
        ;
        lemma_div_pos_is_pos(total_fee * a, 100);
        lemma_div_is_ordered(total_fee * a, total_fee * 100, 100);
        lemma_div_multiples_vanish(total_fee, 100);
        assert(share <= total_fee);
        assert(total_fee * alloc_sum(rest) + total_fee * a == total_fee * alloc_sum(s))
            by (nonlinear_arith)
            requires
                alloc_sum(s) == alloc_sum(rest) + a,
        ;
        assert(0 <= total_fee * alloc_sum(rest)) by (nonlinear_arith)
            requires
                0 <= total_fee,
                0 <= alloc_sum(rest),
        ;
        lemma_div_sum_le(total_fee * alloc_sum(rest), total_fee * a, 100);
        if share > 0 {
            assert(fee_plan(s, total_fee).drop_last() =~= fee_plan(rest, total_fee));
        } else {
            lemma_div_is_ordered(
                total_fee * alloc_sum(rest),
                total_fee * alloc_sum(s),
                100,
            );
        }
    }
}

/// Law: as long as the traders' allocation percentages sum to at most 100,
/// the fee transfers pay out at most the total performance fee; every
/// truncation remainder and every unallocated share stays in the fund for
/// the residual distribution.
pub proof fn lemma_fees_within_total_fee(s: Seq<TraderRecord>, total_fee: int)
    requires
        forall|j: int|
            0 <= j < s.len() ==> 0 <= (#[trigger] s[j]).allocation_percent <= 100,
        alloc_sum(s) <= 100,
        0 <= total_fee <= MAX_POOL_AMOUNT as int,
    ensures
        sum_transfers(fee_plan(s, total_fee)) <= total_fee,
{
    lemma_fee_sum_le(s, total_fee);
    assert(total_fee * alloc_sum(s) <= total_fee * 100) by (nonlinear_arith)
        requires
            0 <= total_fee,
            alloc_sum(s) <= 100,
    ;
    lemma_div_is_ordered(total_fee * alloc_sum(s), total_fee * 100, 100);
    lemma_div_multiples_vanish(total_fee, 100);
}

/// A total fee of zero produces no fee transfer for any trader registry.
pub proof fn lemma_fee_plan_zero(traders: Seq<TraderRecord>)
    ensures
        fee_plan(traders, 0) == Seq::<Transfer>::empty(),
    decreases traders.len(),
{
    if traders.len() > 0 {
        lemma_fee_plan_zero(traders.drop_last());
        assert(0 * traders.last().allocation_percent == 0);
    }
    assert(fee_plan(traders, 0) =~= Seq::<Transfer>::empty());
}

/// Law: a fund whose balance does not exceed its total deposits has no
/// realized profit, so settlement produces no performance-fee transfer at
/// all; only the residual distribution runs.
pub proof fn lemma_no_profit_no_fees(
    traders: Seq<TraderRecord>,
    balance: int,
    total_deposited: int,
    fee_percent: int,
)
    requires
        balance <= total_deposited,
    ensures
        total_fee_of(balance, total_deposited, fee_percent) == 0,
        fee_plan(traders, total_fee_of(balance, total_deposited, fee_percent)) == Seq::<
            Transfer,
        >::empty(),
{
    lemma_fee_plan_zero(traders);
}

} // verus!
