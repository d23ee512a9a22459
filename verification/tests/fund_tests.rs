use stellar_fund::Address;
use stellar_fund::AlphaFund;
use stellar_fund::FundError;
use stellar_fund::FundState;

fn addr(id: u64) -> Address {
    Address { id }
}

/// A fresh fund with the given fee percent, managed by address 1 and
/// denominated in token address 9.
fn new_fund(fee_percent: i128) -> AlphaFund {
    let mut slot: Option<AlphaFund> = None;
    AlphaFund::create(&mut slot, addr(1), fee_percent, addr(9)).unwrap();
    slot.unwrap()
}

#[test]
fn test_create_fund() {
    let manager = addr(1);
    let token = addr(9);
    let mut slot: Option<AlphaFund> = None;
    AlphaFund::create(&mut slot, manager, 10, token).unwrap();
    let fund = slot.unwrap();
    assert_eq!(fund.state, FundState::OpenToInvestors);
    assert_eq!(fund.manager, manager);
}

#[test]
fn test_add_investor() {
    let mut fund = new_fund(10);
    let investor = addr(2);
    fund.add_investor(investor, 100).unwrap();
    let investors = fund.get_investors();
    assert_eq!(investors.len(), 1);
    assert_eq!(investors[0], investor);
    assert_eq!(fund.investor_deposit(investor), 100);
}

#[test]
fn test_add_multiple_investors() {
    let mut fund = new_fund(10);
    let investor1 = addr(2);
    let investor2 = addr(3);
    fund.add_investor(investor1, 200).unwrap();
    fund.add_investor(investor2, 300).unwrap();
    let investors = fund.get_investors();
    assert_eq!(investors.len(), 2);
    assert_eq!(investors[0], investor1);
    assert_eq!(investors[1], investor2);
    assert_eq!(fund.investor_deposit(investor1), 200);
    assert_eq!(fund.investor_deposit(investor2), 300);
}

#[test]
fn test_close_fund() {
    let mut fund = new_fund(10);
    let investor = addr(2);
    fund.add_investor(investor, 100).unwrap();
    let settlement = fund.close_fund(addr(1), 100, 50).unwrap();
    assert_eq!(fund.state, FundState::Closed);
    assert_eq!(settlement.investor_payouts.len(), 1);
    assert_eq!(settlement.investor_payouts[0].to, investor);
    assert_eq!(settlement.investor_payouts[0].amount, 50);
}

#[test]
fn test_create_rejects_fee_out_of_range() {
    let mut slot: Option<AlphaFund> = None;
    let r = AlphaFund::create(&mut slot, addr(1), 100, addr(9));
    assert_eq!(r, Err(FundError::InvalidParameter));
    assert!(slot.is_none());
    let r = AlphaFund::create(&mut slot, addr(1), 250, addr(9));
    assert_eq!(r, Err(FundError::InvalidParameter));
    assert!(slot.is_none());
    let r = AlphaFund::create(&mut slot, addr(1), -1, addr(9));
    assert_eq!(r, Err(FundError::InvalidParameter));
    assert!(slot.is_none());
}

#[test]
fn test_create_accepts_fee_bounds() {
    let fund = new_fund(0);
    assert_eq!(fund.performance_fee_percent, 0);
    let fund = new_fund(99);
    assert_eq!(fund.performance_fee_percent, 99);
}

#[test]
fn test_create_initial_registries() {
    let fund = new_fund(10);
    let traders = fund.get_traders();
    assert_eq!(traders.len(), 1);
    assert_eq!(traders[0], addr(1));
    assert_eq!(fund.trader_allocation(addr(1)), 0);
    assert!(fund.get_investors().is_empty());
    assert_eq!(fund.total_deposited, 0);
    assert_eq!(fund.token, addr(9));
}

#[test]
fn test_create_only_once() {
    let mut slot: Option<AlphaFund> = None;
    AlphaFund::create(&mut slot, addr(1), 10, addr(9)).unwrap();
    let r = AlphaFund::create(&mut slot, addr(4), 20, addr(8));
    assert_eq!(r, Err(FundError::AlreadyInitialized));
    let fund = slot.unwrap();
    assert_eq!(fund.manager, addr(1));
    assert_eq!(fund.performance_fee_percent, 10);
}

#[test]
fn test_deposit_accumulates_without_duplicate() {
    let mut fund = new_fund(10);
    let investor = addr(2);
    fund.add_investor(investor, 100).unwrap();
    fund.add_investor(investor, 50).unwrap();
    let investors = fund.get_investors();
    assert_eq!(investors.len(), 1);
    assert_eq!(investors[0], investor);
    assert_eq!(fund.investor_deposit(investor), 150);
    assert_eq!(fund.total_deposited, 150);
}

#[test]
fn test_add_investor_rejects_negative_deposit() {
    let mut fund = new_fund(10);
    let r = fund.add_investor(addr(2), -5);
    assert_eq!(r, Err(FundError::InvalidParameter));
    assert!(fund.get_investors().is_empty());
    assert_eq!(fund.total_deposited, 0);
}

#[test]
fn test_add_investor_rejects_closed_fund() {
    let mut fund = new_fund(10);
    fund.close_fund(addr(1), 0, 0).unwrap();
    let r = fund.add_investor(addr(2), 100);
    assert_eq!(r, Err(FundError::AlreadyClosed));
    assert!(fund.get_investors().is_empty());
}

#[test]
fn test_close_fund_twice() {
    let mut fund = new_fund(10);
    fund.add_investor(addr(2), 100).unwrap();
    fund.close_fund(addr(1), 100, 100).unwrap();
    assert_eq!(fund.state, FundState::Closed);
    let r = fund.close_fund(addr(1), 100, 100);
    assert!(matches!(r, Err(FundError::AlreadyClosed)));
    assert_eq!(fund.state, FundState::Closed);
}

#[test]
fn test_close_fund_unauthorized() {
    let mut fund = new_fund(10);
    fund.add_investor(addr(2), 100).unwrap();
    let r = fund.close_fund(addr(7), 100, 100);
    assert!(matches!(r, Err(FundError::Unauthorized)));
    assert_eq!(fund.state, FundState::OpenToInvestors);
    assert_eq!(fund.total_deposited, 100);
}

#[test]
fn test_zero_profit_produces_no_fees() {
    let mut fund = new_fund(10);
    fund.add_investor(addr(2), 100).unwrap();
    let settlement = fund.close_fund(addr(1), 100, 100).unwrap();
    assert!(settlement.fee_transfers.is_empty());
    assert_eq!(settlement.investor_payouts.len(), 1);
    assert_eq!(settlement.investor_payouts[0].amount, 100);
}

#[test]
fn test_proportional_distribution() {
    let mut fund = new_fund(10);
    let a = addr(2);
    let b = addr(3);
    fund.add_investor(a, 200).unwrap();
    fund.add_investor(b, 300).unwrap();
    let payouts = fund.residual_payouts(50);
    assert_eq!(payouts.len(), 2);
    assert_eq!(payouts[0].to, a);
    assert_eq!(payouts[0].amount, 20);
    assert_eq!(payouts[1].to, b);
    assert_eq!(payouts[1].amount, 30);
    assert_eq!(payouts[0].amount + payouts[1].amount, 50);
}

#[test]
fn test_truncation_loss_distribution() {
    let mut fund = new_fund(10);
    let a = addr(2);
    let b = addr(3);
    fund.add_investor(a, 1).unwrap();
    fund.add_investor(b, 2).unwrap();
    let payouts = fund.residual_payouts(10);
    assert_eq!(payouts.len(), 2);
    assert_eq!(payouts[0].to, a);
    assert_eq!(payouts[0].amount, 3);
    assert_eq!(payouts[1].to, b);
    assert_eq!(payouts[1].amount, 6);
    assert_eq!(payouts[0].amount + payouts[1].amount, 9);
}

#[test]
fn test_end_to_end_settlement() {
    let mut fund = new_fund(10);
    let investor = addr(2);
    fund.add_investor(investor, 100).unwrap();
    let settlement = fund.close_fund(addr(1), 120, 120).unwrap();
    assert!(settlement.fee_transfers.is_empty());
    assert_eq!(settlement.investor_payouts.len(), 1);
    assert_eq!(settlement.investor_payouts[0].to, investor);
    assert_eq!(settlement.investor_payouts[0].amount, 120);
    assert_eq!(fund.state, FundState::Closed);
}

#[test]
fn test_close_empty_fund() {
    let mut fund = new_fund(10);
    let settlement = fund.close_fund(addr(1), 0, 0).unwrap();
    assert!(settlement.fee_transfers.is_empty());
    assert!(settlement.investor_payouts.is_empty());
    assert_eq!(fund.state, FundState::Closed);
}

#[test]
fn test_fees_skip_zero_allocation_traders() {
    let mut fund = new_fund(10);
    fund.add_investor(addr(2), 100).unwrap();
    let fees = fund.performance_fees(120);
    assert!(fees.is_empty());
}
