use contract_a::codec::encode;
use contract_a::codec::BalanceExt;
use contract_a::contract::CallbackError;
use contract_a::contract::ContractA;
use contract_a::contract::Method;
use contract_a::contract::BASE_GAS;
use contract_a::contract::NO_DEPOSIT;
use contract_a::contract::ONE_NEAR;
use contract_a::outcome::FollowupAction;
use contract_a::outcome::Outcome;
use contract_a::outcome::Policy;

fn alice() -> Vec<u8> {
    b"alice_near".to_vec()
}

fn carol() -> Vec<u8> {
    b"carol".to_vec()
}

fn payload(account: &[u8], balance: u128) -> Vec<u8> {
    encode(&BalanceExt { account_id: account.to_vec(), balance })
}

fn run_callback(results: Vec<Outcome>) -> Result<FollowupAction, CallbackError> {
    let mut contract = ContractA::default();
    contract.callback_promise_result(&alice(), &alice(), results, &Policy::default())
}

fn expect_value(r: Result<FollowupAction, CallbackError>, wanted: &str) {
    match r.expect("the callback must accept one outcome") {
        FollowupAction::Value(s) => assert_eq!(s, wanted),
        FollowupAction::Transfer(_) => panic!("expected a plain value, got a transfer"),
    }
}

#[test]
fn pending_outcome_is_not_ready() {
    expect_value(run_callback(vec![Outcome::Pending]), "not ready");
}

#[test]
fn failed_outcome_reports_the_failure() {
    // end-to-end: the peer call fails, the continuation reports it and no
    // transfer or fatal error comes out
    expect_value(run_callback(vec![Outcome::Failure]), "err call failed");
}

#[test]
fn garbage_payload_is_reported_not_fatal() {
    expect_value(
        run_callback(vec![Outcome::Success(b"oops".to_vec())]),
        "can't get balance from wallet",
    );
}

#[test]
fn low_balance_triggers_the_transfer() {
    // end-to-end: the peer reports one unit, the continuation sends two
    let r = run_callback(vec![Outcome::Success(payload(b"carol", ONE_NEAR))]);
    match r.expect("the callback must accept one outcome") {
        FollowupAction::Transfer(t) => {
            assert_eq!(t.receiver_id, carol());
            assert_eq!(t.amount, 2 * ONE_NEAR);
        }
        FollowupAction::Value(s) => panic!("expected a transfer, got {:?}", s),
    }
}

#[test]
fn balance_at_the_threshold_is_full() {
    // the boundary: exactly fifteen units must not trigger a transfer
    let r = run_callback(vec![Outcome::Success(payload(b"carol", 15 * ONE_NEAR))]);
    expect_value(r, "wallet is full");
}

#[test]
fn high_balance_is_full() {
    // end-to-end: the peer reports twenty units, nothing is sent
    let r = run_callback(vec![Outcome::Success(payload(b"carol", 20 * ONE_NEAR))]);
    expect_value(r, "wallet is full");
}

#[test]
fn zero_outcomes_fail_the_call() {
    assert_eq!(run_callback(vec![]).unwrap_err(), CallbackError::WrongResultCount);
}

#[test]
fn two_outcomes_fail_the_call() {
    let r = run_callback(vec![Outcome::Pending, Outcome::Failure]);
    assert_eq!(r.unwrap_err(), CallbackError::WrongResultCount);
}

#[test]
fn foreign_caller_is_refused() {
    let mut contract = ContractA::default();
    let r = contract.callback_promise_result(
        &alice(),
        &carol(),
        vec![Outcome::Pending],
        &Policy::default(),
    );
    assert_eq!(r.unwrap_err(), CallbackError::CallerNotSelf);
}

#[test]
fn call_plan_describes_both_steps() {
    let mut contract = ContractA::default();
    let plan = contract.call_balance_ext(b"challenge9-b.3ugen.testnet".to_vec(), alice());
    assert_eq!(plan.query.receiver_id, b"challenge9-b.3ugen.testnet".to_vec());
    assert!(matches!(plan.query.method, Method::GetBalance));
    assert_eq!(plan.query.deposit, NO_DEPOSIT);
    assert_eq!(plan.query.gas, BASE_GAS);
    assert_eq!(plan.callback.receiver_id, alice());
    assert!(matches!(plan.callback.method, Method::CallbackPromiseResult));
    assert_eq!(plan.callback.deposit, NO_DEPOSIT);
    assert_eq!(plan.callback.gas, BASE_GAS);
}

#[test]
fn transfer_amount_is_two_units() {
    let contract = ContractA::default();
    let t = contract.transfer_amount(b"challenge9-b.3ugen.testnet".to_vec());
    assert_eq!(t.receiver_id, b"challenge9-b.3ugen.testnet".to_vec());
    assert_eq!(t.amount, 2 * ONE_NEAR);
}

#[test]
fn update_balance_reports_zero() {
    let mut contract = ContractA::default();
    assert_eq!(contract.update_balance(carol()), 0);
}

#[test]
fn the_default_policy_matches_the_deployment() {
    let p = Policy::default();
    assert_eq!(p.threshold, 15 * ONE_NEAR);
    assert_eq!(p.transfer_amount, 2 * ONE_NEAR);
}
