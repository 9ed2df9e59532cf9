//! The actor itself: the entry points that describe remote calls and
//! transfers, and the privileged continuation that reacts to a delivered
//! outcome.
//!
//! Nothing here performs an outside effect. A call graph or a transfer is
//! returned as a plain description for the host scheduler to carry out, and
//! the continuation receives the delivered outcomes as plain values; this is
//! what keeps every decision in this crate a function from values to values.

use crate::codec::bytes_eq;
use crate::outcome::process_outcome;
use crate::outcome::spec_process;
use crate::outcome::FollowupAction;
use crate::outcome::Outcome;
use crate::outcome::Policy;
use crate::outcome::TransferAction;
use vstd::prelude::*;

verus! {

/// The ledger's base denomination.
pub const ONE_NEAR: u128 = 1_000_000_000_000_000_000_000_000;

/// The deposit attached to a query call: none.
pub const NO_DEPOSIT: u128 = 0;

/// The execution budget granted to each remote invocation.
pub const BASE_GAS: u64 = 2_428_055_156_040;

/// The method a described call invokes: the peer's balance report or this
/// actor's own continuation.
#[derive(Clone, Copy, PartialEq, Eq, Structural)]
pub enum Method {
    GetBalance,
    CallbackPromiseResult,
}

/// One remote invocation for the host scheduler to perform.
pub struct RemoteCall {
    pub receiver_id: Vec<u8>,
    pub method: Method,
    pub deposit: u128,
    pub gas: u64,
}

/// A two-step call graph: query the peer, and hand the delivered outcome to
/// this actor's own continuation.
pub struct CallPlan {
    pub query: RemoteCall,
    pub callback: RemoteCall,
}

/// Why a continuation invocation was refused instead of processed.
#[derive(Clone, Copy, Debug, PartialEq, Eq, Structural)]
pub enum CallbackError {
    /// The continuation is privileged: only the actor itself may invoke it.
    CallerNotSelf,
    /// A continuation consumes exactly one delivered outcome.
    WrongResultCount,
}

/// The actor. It holds no state of its own: the ledger balance lives with the
/// host, and every entry point is a pure decision.
pub struct ContractA {}

impl Default for ContractA {
    fn default() -> (c: Self)
        ensures
            c == (ContractA {  }),
    {
        ContractA {  }
    }
}

impl Default for Policy {
    /// The deployed configuration: a wallet is full at fifteen base units,
    /// and two base units are sent to one found below that.
    fn default() -> (p: Policy)
        ensures
            p.threshold == 15 * ONE_NEAR,
            p.transfer_amount == 2 * ONE_NEAR,
    {
        Policy { threshold: 15 * ONE_NEAR, transfer_amount: 2 * ONE_NEAR }
    }
}

/// The continuation surface this actor exposes for chained self-calls: the
/// host invokes it once the peer's answer is available.
pub trait ExtSelf {
    fn callback_promise_result() -> bool;
}

impl ContractA {
    /// No stored balance adjustment happens here: always zero.
    #[allow(unused_variables)]
    pub fn update_balance(&mut self, account_id: Vec<u8>) -> (b: u128)
        ensures
            b == 0,
            *final(self) == *old(self),
    {
        0
    }

    /// Describes the two-step call graph: a zero-deposit, budgeted query of
    /// the peer's balance method, continued by this actor's own privileged
    /// continuation with no deposit and the same budget.
    pub fn call_balance_ext(
        &mut self,
        receiver_id: Vec<u8>,
        current_account_id: Vec<u8>,
    ) -> (plan: CallPlan)
        requires
            receiver_id@.len() > 0,
        ensures
            *final(self) == *old(self),
            plan.query.receiver_id@ == receiver_id@,
            plan.query.method == Method::GetBalance,
            plan.query.deposit == NO_DEPOSIT,
            plan.query.gas == BASE_GAS,
            plan.callback.receiver_id@ == current_account_id@,
            plan.callback.method == Method::CallbackPromiseResult,
            plan.callback.deposit == NO_DEPOSIT,
            plan.callback.gas == BASE_GAS,
    {
        CallPlan {
            query: RemoteCall {
                receiver_id,
                method: Method::GetBalance,
                deposit: NO_DEPOSIT,
                gas: BASE_GAS,
            },
            callback: RemoteCall {
                receiver_id: current_account_id,
                method: Method::CallbackPromiseResult,
                deposit: NO_DEPOSIT,
                gas: BASE_GAS,
            },
        }
    }

    /// Describes an unconditional transfer of twice the base unit to `to`.
    /// Whether the actor's disposable balance covers it is the host ledger's
    /// affair, surfaced there as a runtime failure, not pre-checked here.
    pub fn transfer_amount(&self, to: Vec<u8>) -> (t: TransferAction)
        ensures
            t.receiver_id@ == to@,
            t.amount == 2 * ONE_NEAR,
    {
        let amount: u128 = 2 * ONE_NEAR;
        TransferAction { receiver_id: to, amount }
    }

    /// The privileged continuation. The host must invoke it on the actor's
    /// own behalf — any other caller identity is refused — and must deliver
    /// exactly one outcome; any other count is refused. A permitted
    /// invocation classifies the outcome and applies the policy.
    pub fn callback_promise_result(
        &mut self,
        current_account_id: &Vec<u8>,
        predecessor_account_id: &Vec<u8>,
        results: Vec<Outcome>,
        policy: &Policy,
    ) -> (r: Result<FollowupAction, CallbackError>)
        ensures
            *final(self) == *old(self),
            predecessor_account_id@ != current_account_id@ ==> (r matches Err(e) && e
                == CallbackError::CallerNotSelf),
            predecessor_account_id@ == current_account_id@ && results@.len() != 1 ==> (r matches Err(e)
                && e == CallbackError::WrongResultCount),
            predecessor_account_id@ == current_account_id@ && results@.len() == 1 ==> (r matches Ok(a)
                && a@ == spec_process(results@[0]@, *policy)),
    {
        if !bytes_eq(predecessor_account_id, current_account_id) {
            return Err(CallbackError::CallerNotSelf);
        }
        if results.len() != 1 {
            return Err(CallbackError::WrongResultCount);
        }
        let outcome = &results[0];
        Ok(process_outcome(outcome, policy))
    }
}

} // verus!
