//! Classification of a delivered call outcome and the threshold decision.
//!
//! Each invocation of the continuation consumes exactly one [`Outcome`] and
//! produces exactly one [`FollowupAction`]: either a plain informational value
//! or a single requested value transfer, never both. A pending or failed
//! outcome and an undecodable payload are handled as data, not as faults.

use crate::codec::decodable;
use crate::codec::decode;
use crate::codec::decoded;
use crate::codec::is_encoding_of;
use crate::codec::lemma_encode_injective;
use crate::codec::RecordView;
use vstd::prelude::*;

verus! {

/// The delivered result of a previously issued remote call: the host hands
/// exactly one of these to the continuation.
pub enum Outcome {
    /// The remote call has not finished.
    Pending,
    /// The remote call finished and returned this payload.
    Success(Vec<u8>),
    /// The remote call failed.
    Failure,
}

/// Mathematical model of an [`Outcome`].
pub enum OutcomeView {
    Pending,
    Success(Seq<u8>),
    Failure,
}

impl View for Outcome {
    type V = OutcomeView;

    open spec fn view(&self) -> OutcomeView {
        match self {
            Outcome::Pending => OutcomeView::Pending,
            Outcome::Success(payload) => OutcomeView::Success(payload@),
            Outcome::Failure => OutcomeView::Failure,
        }
    }
}

/// A single requested value transfer, handed to the host to perform.
#[derive(Debug)]
pub struct TransferAction {
    pub receiver_id: Vec<u8>,
    pub amount: u128,
}

/// Mathematical model of a [`TransferAction`].
#[verifier::ext_equal]
pub struct TransferView {
    pub receiver_id: Seq<u8>,
    pub amount: u128,
}

impl View for TransferAction {
    type V = TransferView;

    open spec fn view(&self) -> TransferView {
        TransferView { receiver_id: self.receiver_id@, amount: self.amount }
    }
}

/// What one continuation invocation produces: a plain informational value or
/// one new transfer request — exactly one of the two.
#[derive(Debug)]
pub enum FollowupAction {
    Value(String),
    Transfer(TransferAction),
}

/// Mathematical model of a [`FollowupAction`].
pub enum ActionView {
    Value(Seq<char>),
    Transfer(TransferView),
}

impl View for FollowupAction {
    type V = ActionView;

    open spec fn view(&self) -> ActionView {
        match self {
            FollowupAction::Value(s) => ActionView::Value(s@),
            FollowupAction::Transfer(t) => ActionView::Transfer(t@),
        }
    }
}

/// The continuation's decision policy. The amounts are configuration, not
/// hidden constants, so the decision logic can be examined in isolation.
#[derive(Clone, Copy, PartialEq, Eq, Structural)]
pub struct Policy {
    /// A reported balance at or above this is considered full.
    pub threshold: u128,
    /// The amount sent to an account found below the threshold.
    pub transfer_amount: u128,
}

/// The action the continuation owes for a given outcome under a given policy.
pub open spec fn spec_process(o: OutcomeView, p: Policy) -> ActionView {
    match o {
        OutcomeView::Pending => ActionView::Value("not ready"@),
        OutcomeView::Failure => ActionView::Value("err call failed"@),
        OutcomeView::Success(payload) => {
            if decodable(payload) {
                let r = decoded(payload);
                if r.balance < p.threshold {
                    ActionView::Transfer(
                        TransferView { receiver_id: r.account_id, amount: p.transfer_amount },
                    )
                } else {
                    ActionView::Value("wallet is full"@)
                }
            } else {
                ActionView::Value("can't get balance from wallet"@)
            }
        },
    }
}

/// Classifies one outcome and applies the threshold policy.
pub fn process_outcome(outcome: &Outcome, policy: &Policy) -> (action: FollowupAction)
    ensures
        action@ == spec_process(outcome@, *policy),
{
    match outcome {
        Outcome::Pending => FollowupAction::Value("not ready".to_owned()),
        Outcome::Failure => FollowupAction::Value("err call failed".to_owned()),
        Outcome::Success(payload) => {
            match decode(payload) {
                Ok(record) => {
                    if record.balance < policy.threshold {
                        FollowupAction::Transfer(
                            TransferAction {
                                receiver_id: record.account_id,
                                amount: policy.transfer_amount,
                            },
                        )
                    } else {
                        FollowupAction::Value("wallet is full".to_owned())
                    }
                },
                Err(_) => FollowupAction::Value("can't get balance from wallet".to_owned()),
            }
        },
    }
}

/// A payload that no valid record encodes is reported as unreadable: the
/// continuation yields the fixed informational value and never a transfer.
pub proof fn lemma_undecodable_payload_reported(payload: Seq<u8>, p: Policy)
    requires
        !decodable(payload),
    ensures
        spec_process(OutcomeView::Success(payload), p) == ActionView::Value(
            "can't get balance from wallet"@,
        ),
{
}

/// The threshold decision: a successfully decoded balance below the policy's
/// threshold yields a transfer of exactly the policy's amount to the decoded
/// account; a balance at or above the threshold yields the wallet-is-full
/// value and no transfer.
pub proof fn lemma_threshold_decision(payload: Seq<u8>, r: RecordView, p: Policy)
    requires
        is_encoding_of(payload, r),
    ensures
        r.balance < p.threshold ==> spec_process(OutcomeView::Success(payload), p)
            == ActionView::Transfer(
            TransferView { receiver_id: r.account_id, amount: p.transfer_amount },
        ),
        r.balance >= p.threshold ==> spec_process(OutcomeView::Success(payload), p)
            == ActionView::Value("wallet is full"@),
{
    assert(decodable(payload));
    assert(is_encoding_of(payload, decoded(payload)));
    lemma_encode_injective(r, decoded(payload));
}

/// A pending outcome always yields the not-ready value and a failed outcome
/// always yields the call-failed value, whatever the policy.
pub proof fn lemma_terminal_outcomes(p: Policy)
    ensures
        spec_process(OutcomeView::Pending, p) == ActionView::Value("not ready"@),
        spec_process(OutcomeView::Failure, p) == ActionView::Value("err call failed"@),
{
}

} // verus!
