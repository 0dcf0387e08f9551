//! The decisions of the asset storage: what an asset worker does with each lifecycle request
//! it receives, when it stops, and what happens to a load request when it is enqueued.
//!
//! The worker itself (its thread, the channel, the files and the lifecyclers) runs around
//! these functions: it receives, asks `worker_step` what to do, does it, and repeats.
use vstd::prelude::*;
use crate::asset_3l14::AssetLoadError;

verus! {

/// The kind of a lifecycle request sent to the asset workers.
#[derive(Clone, Copy, PartialEq, Eq, Structural, Debug)]
pub enum LifecycleRequestKind {
    /// Stop the workers, after failing or dropping whatever is still queued.
    StopWorkers,
    /// Load an asset from its built file.
    LoadFileBacked,
    /// Load an asset from data handed over with the request.
    LoadFromMemory,
    /// Release an asset handle whose last reference went away.
    Drop,
}

/// Where an asset worker is in its life.
#[derive(Clone, Copy, PartialEq, Eq, Structural, Debug)]
pub enum WorkerPhase {
    /// Waiting for requests and serving them.
    Serving,
    /// A stop was requested: the requests still queued are failed or dropped.
    Draining,
    /// The worker has finished.
    Stopped,
}

/// How the worker waits for its next request.
#[derive(Clone, Copy, PartialEq, Eq, Structural, Debug)]
pub enum ReceiveMode {
    /// Block until a request arrives or the channel closes.
    Blocking,
    /// Take a request only if one is already queued.
    Immediate,
    /// Receive nothing more.
    Finished,
}

/// What the worker does with a request.
#[derive(Clone, Copy, PartialEq, Eq, Structural, Debug)]
pub enum WorkerAction {
    /// Nothing.
    Nothing,
    /// Open the asset's built file (then ask `asset_file_opened`).
    OpenAssetFile,
    /// Hand the data to the asset type's lifecycler to load.
    Load,
    /// Release the asset handle.
    DropHandle,
    /// Tell the asset type's lifecycler that the load failed with this error.
    Fail(AssetLoadError),
}

/// How a worker in `phase` waits for its next request.
pub open spec fn spec_receive_mode(phase: WorkerPhase) -> ReceiveMode {
    match phase {
        WorkerPhase::Serving => ReceiveMode::Blocking,
        WorkerPhase::Draining => ReceiveMode::Immediate,
        WorkerPhase::Stopped => ReceiveMode::Finished,
    }
}

/// The next phase and the action of a worker in `phase` that received `request` (`None`
/// when the channel gave no request: it closed, or, while draining, it is empty).
pub open spec fn spec_worker_step(phase: WorkerPhase, request: Option<LifecycleRequestKind>) -> (WorkerPhase, WorkerAction) {
    match (phase, request) {
        (WorkerPhase::Stopped, _) => (WorkerPhase::Stopped, WorkerAction::Nothing),
        (_, None) => (WorkerPhase::Stopped, WorkerAction::Nothing),
        (_, Some(LifecycleRequestKind::Drop)) => (phase, WorkerAction::DropHandle),
        (_, Some(LifecycleRequestKind::StopWorkers)) => (WorkerPhase::Draining, WorkerAction::Nothing),
        (WorkerPhase::Serving, Some(LifecycleRequestKind::LoadFileBacked)) => (WorkerPhase::Serving, WorkerAction::OpenAssetFile),
        (WorkerPhase::Serving, Some(LifecycleRequestKind::LoadFromMemory)) => (WorkerPhase::Serving, WorkerAction::Load),
        (WorkerPhase::Draining, Some(_)) => (WorkerPhase::Draining, WorkerAction::Fail(AssetLoadError::Shutdown)),
    }
}

/// How a worker in `phase` waits for its next request.
pub fn receive_mode(phase: WorkerPhase) -> (r: ReceiveMode)
    ensures
        r == spec_receive_mode(phase),
{
    match phase {
        WorkerPhase::Serving => ReceiveMode::Blocking,
        WorkerPhase::Draining => ReceiveMode::Immediate,
        WorkerPhase::Stopped => ReceiveMode::Finished,
    }
}

/// The next phase and the action of a worker in `phase` that received `request`.
pub fn worker_step(phase: WorkerPhase, request: Option<LifecycleRequestKind>) -> (r: (WorkerPhase, WorkerAction))
    ensures
        r == spec_worker_step(phase, request),
{
    match phase {
        WorkerPhase::Stopped => (WorkerPhase::Stopped, WorkerAction::Nothing),
        _ => match request {
            None => (WorkerPhase::Stopped, WorkerAction::Nothing),
            Some(LifecycleRequestKind::Drop) => (phase, WorkerAction::DropHandle),
            Some(LifecycleRequestKind::StopWorkers) => (WorkerPhase::Draining, WorkerAction::Nothing),
            Some(kind) => match phase {
                WorkerPhase::Serving => match kind {
                    LifecycleRequestKind::LoadFileBacked => (WorkerPhase::Serving, WorkerAction::OpenAssetFile),
                    _ => (WorkerPhase::Serving, WorkerAction::Load),
                },
                _ => (WorkerPhase::Draining, WorkerAction::Fail(AssetLoadError::Shutdown)),
            },
        },
    }
}

/// What a serving worker does once it tried to open an asset's built file: load it, or
/// fail the load with `Fetch`. The worker keeps serving either way.
pub fn asset_file_opened(opened: bool) -> (r: WorkerAction)
    ensures
        opened ==> r == WorkerAction::Load,
        !opened ==> r == WorkerAction::Fail(AssetLoadError::Fetch),
{
    if opened {
        WorkerAction::Load
    } else {
        WorkerAction::Fail(AssetLoadError::Fetch)
    }
}

/// Once a stop is requested the worker never goes back to serving and never loads an
/// asset: every later load request is failed with `Shutdown`.
pub proof fn lemma_no_load_after_stop(phase: WorkerPhase, request: Option<LifecycleRequestKind>)
    requires
        phase != WorkerPhase::Serving,
    ensures
        spec_worker_step(phase, request).0 != WorkerPhase::Serving,
        spec_worker_step(phase, request).1 != WorkerAction::Load,
        spec_worker_step(phase, request).1 != WorkerAction::OpenAssetFile,
        phase == WorkerPhase::Draining && (request == Some(LifecycleRequestKind::LoadFileBacked)
            || request == Some(LifecycleRequestKind::LoadFromMemory))
            ==> spec_worker_step(phase, request).1 == WorkerAction::Fail(AssetLoadError::Shutdown),
{
}

/// A running worker releases every handle it is asked to drop, before and after a stop,
/// so no handle is leaked by shutting down.
pub proof fn lemma_drops_always_served(phase: WorkerPhase)
    requires
        phase != WorkerPhase::Stopped,
    ensures
        spec_worker_step(phase, Some(LifecycleRequestKind::Drop)) == (phase, WorkerAction::DropHandle),
{
}

/// A worker only stops when its channel gives nothing, and once stopped it receives
/// nothing more.
pub proof fn lemma_stops_only_when_channel_empty(phase: WorkerPhase, request: Option<LifecycleRequestKind>)
    ensures
        phase != WorkerPhase::Stopped && spec_worker_step(phase, request).0 == WorkerPhase::Stopped ==> request is None,
        spec_receive_mode(WorkerPhase::Stopped) == ReceiveMode::Finished,
        spec_worker_step(WorkerPhase::Stopped, request) == (WorkerPhase::Stopped, WorkerAction::Nothing),
{
}

/// What `enqueue_load` does with a new load request.
#[derive(Clone, Copy, PartialEq, Eq, Structural, Debug)]
pub enum EnqueuePlan {
    /// Mark the asset pending, announce a reload if its handle already existed, and send
    /// the request to the workers.
    Send { notify_reload: bool },
    /// Mark the asset unavailable with this error.
    Reject(AssetLoadError),
}

/// What `enqueue_load` does with a request for an asset whose type has a lifecycler
/// (`lifecycler_registered`) and whose handle already existed (`pre_existed`).
pub fn enqueue_plan(lifecycler_registered: bool, pre_existed: bool) -> (r: EnqueuePlan)
    ensures
        lifecycler_registered ==> r == (EnqueuePlan::Send { notify_reload: pre_existed }),
        !lifecycler_registered ==> r == EnqueuePlan::Reject(AssetLoadError::LifecyclerNotRegistered),
{
    if lifecycler_registered {
        EnqueuePlan::Send { notify_reload: pre_existed }
    } else {
        EnqueuePlan::Reject(AssetLoadError::LifecyclerNotRegistered)
    }
}

/// The error an asset gets when sending its load request to the workers failed (the
/// workers are gone), or none when it was sent.
pub fn request_send_outcome(sent: bool) -> (r: Option<AssetLoadError>)
    ensures
        sent ==> r is None,
        !sent ==> r == Some(AssetLoadError::Shutdown),
{
    if sent {
        None
    } else {
        Some(AssetLoadError::Shutdown)
    }
}

} // verus!
