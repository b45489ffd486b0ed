//! What replicas answer, and what an instance passes on to its clients.
use timely::progress::Antichain;
use vstd::prelude::*;

use crate::command::OpenTelemetryContext;
use crate::frontier::{antichain_elements, Frontier};
use crate::ids::{GlobalId, Uuid};

verus! {

/// The answer to a peek.
#[derive(Debug)]
pub enum PeekResponse<P> {
    /// The rows that were asked for.
    Rows(P),
    /// Why there are no rows.
    Error(String),
    /// The peek was given up.
    Canceled,
}

/// The answer to a peek.
#[verifier::ext_equal]
pub enum PeekResponseModel<P> {
    /// The rows that were asked for.
    Rows(P),
    /// Why there are no rows.
    Error(Seq<char>),
    /// The peek was given up.
    Canceled,
}

impl<P> View for PeekResponse<P> {
    type V = PeekResponseModel<P>;

    open spec fn view(&self) -> PeekResponseModel<P> {
        match self {
            PeekResponse::Rows(rows) => PeekResponseModel::Rows(*rows),
            PeekResponse::Error(text) => PeekResponseModel::Error(text@),
            PeekResponse::Canceled => PeekResponseModel::Canceled,
        }
    }
}

/// The updates of a subscription from one frontier up to another.
#[derive(Debug)]
pub struct SubscribeBatch<P> {
    /// The frontier that the batch starts at.
    pub lower: Antichain<u64>,
    /// The frontier that the batch ends at.
    pub upper: Antichain<u64>,
    /// The updates with their times and multiplicities, or why there are none.
    pub updates: Result<Vec<(u64, P, i64)>, String>,
}

/// The updates of a subscription from one frontier up to another.
#[verifier::ext_equal]
pub struct SubscribeBatchModel<P> {
    /// The frontier that the batch starts at.
    pub lower: Frontier,
    /// The frontier that the batch ends at.
    pub upper: Frontier,
    /// The updates with their times and multiplicities, or why there are none.
    pub updates: Result<Seq<(u64, P, i64)>, Seq<char>>,
}

/// The updates of a batch, or why there are none.
pub open spec fn updates_model<P>(updates: Result<Vec<(u64, P, i64)>, String>) -> Result<
    Seq<(u64, P, i64)>,
    Seq<char>,
> {
    match updates {
        Ok(updates) => Ok(updates@),
        Err(text) => Err(text@),
    }
}

impl<P> View for SubscribeBatch<P> {
    type V = SubscribeBatchModel<P>;

    open spec fn view(&self) -> SubscribeBatchModel<P> {
        SubscribeBatchModel {
            lower: antichain_elements(self.lower),
            upper: antichain_elements(self.upper),
            updates: updates_model(self.updates),
        }
    }
}

/// The answer to a subscription.
#[derive(Debug)]
pub enum SubscribeResponse<P> {
    /// Updates.
    Batch(SubscribeBatch<P>),
    /// The subscription ended before it was complete, at this frontier.
    DroppedAt(Antichain<u64>),
}

/// The answer to a subscription.
#[verifier::ext_equal]
pub enum SubscribeResponseModel<P> {
    /// Updates.
    Batch(SubscribeBatchModel<P>),
    /// The subscription ended before it was complete, at this frontier.
    DroppedAt(Frontier),
}

impl<P> View for SubscribeResponse<P> {
    type V = SubscribeResponseModel<P>;

    open spec fn view(&self) -> SubscribeResponseModel<P> {
        match self {
            SubscribeResponse::Batch(batch) => SubscribeResponseModel::Batch(batch@),
            SubscribeResponse::DroppedAt(frontier) => SubscribeResponseModel::DroppedAt(
                antichain_elements(*frontier),
            ),
        }
    }
}

/// What a replica says.
#[derive(Debug)]
pub enum ComputeResponse<P> {
    /// The write frontiers of collections.
    FrontierUppers(Vec<(GlobalId, Antichain<u64>)>),
    /// The answer to a peek.
    PeekResponse(Uuid, PeekResponse<P>, OpenTelemetryContext<P>),
    /// The answer to a subscription.
    SubscribeResponse(GlobalId, SubscribeResponse<P>),
}

/// What a replica says.
#[verifier::ext_equal]
pub enum ComputeResponseModel<P> {
    /// The write frontiers of collections.
    FrontierUppers(Seq<(u64, Frontier)>),
    /// The answer to a peek.
    PeekResponse(u128, PeekResponseModel<P>, OpenTelemetryContext<P>),
    /// The answer to a subscription.
    SubscribeResponse(u64, SubscribeResponseModel<P>),
}

impl<P> View for ComputeResponse<P> {
    type V = ComputeResponseModel<P>;

    open spec fn view(&self) -> ComputeResponseModel<P> {
        match self {
            ComputeResponse::FrontierUppers(uppers) => ComputeResponseModel::FrontierUppers(
                crate::command::uppers_model(uppers@),
            ),
            ComputeResponse::PeekResponse(uuid, response, context) =>
                ComputeResponseModel::PeekResponse(*uuid, response@, *context),
            ComputeResponse::SubscribeResponse(id, response) =>
                ComputeResponseModel::SubscribeResponse(*id, response@),
        }
    }
}

/// What an instance tells its clients.
#[derive(Debug)]
pub enum ComputeControllerResponse<P> {
    /// The answer to a peek.
    PeekResponse(Uuid, PeekResponse<P>, OpenTelemetryContext<P>),
    /// The answer to a subscription.
    SubscribeResponse(GlobalId, SubscribeResponse<P>),
}

/// What an instance tells its clients.
#[verifier::ext_equal]
pub enum ControllerResponseModel<P> {
    /// The answer to a peek.
    PeekResponse(u128, PeekResponseModel<P>, OpenTelemetryContext<P>),
    /// The answer to a subscription.
    SubscribeResponse(u64, SubscribeResponseModel<P>),
}

impl<P> View for ComputeControllerResponse<P> {
    type V = ControllerResponseModel<P>;

    open spec fn view(&self) -> ControllerResponseModel<P> {
        match self {
            ComputeControllerResponse::PeekResponse(uuid, response, context) =>
                ControllerResponseModel::PeekResponse(*uuid, response@, *context),
            ComputeControllerResponse::SubscribeResponse(id, response) =>
                ControllerResponseModel::SubscribeResponse(*id, response@),
        }
    }
}

/// A response that may be absent.
pub open spec fn response_option<P>(response: Option<ComputeControllerResponse<P>>) -> Option<
    ControllerResponseModel<P>,
> {
    match response {
        Some(response) => Some(response@),
        None => None,
    }
}

} // verus!
