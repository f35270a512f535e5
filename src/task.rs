use crate::barrier::Barrier;
use tokio::sync::mpsc::UnboundedSender;
use tokio::task::JoinHandle;
use vstd::prelude::*;

verus! {

/// tokio's unbounded channel sender, the channel that carries barriers into an actor;
/// opaque here.
#[verifier::external_type_specification]
#[verifier::external_body]
#[verifier::reject_recursive_types(T)]
pub struct ExUnboundedSender<T>(UnboundedSender<T>);

/// tokio's handle of a spawned task, which owns an actor's execution; opaque here.
#[verifier::external_type_specification]
#[verifier::external_body]
#[verifier::reject_recursive_types(T)]
pub struct ExJoinHandle<T>(JoinHandle<T>);

/// tokio's error of a task that did not finish, which awaiting a `JoinHandle` yields;
/// opaque here.
#[verifier::external_type_specification]
#[verifier::external_body]
pub struct ExJoinError(tokio::task::JoinError);

/// Relies on tokio's `UnboundedSender::send`: it queues the barrier, or fails when the
/// receiving half is closed. Whether it fails depends on the receiver alone, so
/// nothing is promised of the result.
#[verifier::external_body]
pub(crate) fn send_barrier(tx: &UnboundedSender<Barrier>, barrier: Barrier) -> (sent: bool) {
    tx.send(barrier).is_ok()
}

/// Relies on tokio's `JoinHandle::abort`: asks the runtime to cancel the task.
#[verifier::external_body]
pub(crate) fn abort_task(handle: &JoinHandle<()>) {
    handle.abort()
}

} // verus!
