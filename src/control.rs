//! The facade handed to the user's handlers: the listens last published and a
//! queue of tasks for the service.
use vstd::prelude::*;
use crate::event::ServiceTask;
use crate::multiaddr::Multiaddr;
use crate::types::{Priority, ProtocolId, SessionId, TargetProtocol, TargetSession};

verus! {

/// What handlers see of the service, and how they ask it for work.
pub struct ServiceContext {
    listens: Vec<Multiaddr>,
    tasks: Vec<(Priority, ServiceTask)>,
}

impl ServiceContext {
    /// The tasks queued, oldest first.
    pub closed spec fn queued(&self) -> Seq<(Priority, ServiceTask)> {
        self.tasks@
    }

    /// The listens last published.
    pub closed spec fn listen_view(&self) -> Seq<Multiaddr> {
        self.listens@
    }

    pub fn new() -> (r: ServiceContext)
        ensures
            r.queued().len() == 0,
            r.listen_view().len() == 0,
    {
        ServiceContext { listens: Vec::new(), tasks: Vec::new() }
    }

    /// The listens last published.
    pub fn listens(&self) -> (r: &Vec<Multiaddr>)
        ensures
            r@ == self.listen_view(),
    {
        &self.listens
    }

    /// Publishes the current listens.
    pub fn update_listens(&mut self, listens: Vec<Multiaddr>)
        ensures
            final(self).listen_view() == listens@,
            final(self).queued() == old(self).queued(),
    {
        self.listens = listens;
    }

    /// Queues a task at `priority`.
    pub fn send(&mut self, priority: Priority, task: ServiceTask)
        ensures
            final(self).queued() == old(self).queued().push((priority, task)),
            final(self).listen_view() == old(self).listen_view(),
    {
        self.tasks.push((priority, task));
    }

    /// Queues a message on `proto_id` for the target sessions.
    pub fn send_message(&mut self, target: TargetSession, proto_id: ProtocolId, data: bytes::Bytes)
        ensures
            final(self).queued() == old(self).queued().push(
                (Priority::Normal, ServiceTask::ProtocolMessage { target, proto_id, data }),
            ),
            final(self).listen_view() == old(self).listen_view(),
    {
        self.send(Priority::Normal, ServiceTask::ProtocolMessage { target, proto_id, data });
    }

    /// Queues a dial.
    pub fn dial(&mut self, address: Multiaddr, target: TargetProtocol)
        ensures
            final(self).queued() == old(self).queued().push(
                (Priority::High, ServiceTask::Dial { address, target }),
            ),
            final(self).listen_view() == old(self).listen_view(),
    {
        self.send(Priority::High, ServiceTask::Dial { address, target });
    }

    /// Queues a listen.
    pub fn listen(&mut self, address: Multiaddr)
        ensures
            final(self).queued() == old(self).queued().push((Priority::High, ServiceTask::Listen { address })),
            final(self).listen_view() == old(self).listen_view(),
    {
        self.send(Priority::High, ServiceTask::Listen { address });
    }

    /// Queues the closing of a session.
    pub fn disconnect(&mut self, session_id: SessionId)
        ensures
            final(self).queued() == old(self).queued().push(
                (Priority::High, ServiceTask::Disconnect { session_id }),
            ),
            final(self).listen_view() == old(self).listen_view(),
    {
        self.send(Priority::High, ServiceTask::Disconnect { session_id });
    }

    /// Queues a shutdown; `quick` does not wait for sessions to drain.
    pub fn shutdown(&mut self, quick: bool)
        ensures
            final(self).queued() == old(self).queued().push((Priority::High, ServiceTask::Shutdown(quick))),
            final(self).listen_view() == old(self).listen_view(),
    {
        self.send(Priority::High, ServiceTask::Shutdown(quick));
    }

    /// Hands over the queued tasks, oldest first, and empties the queue.
    pub fn take_tasks(&mut self) -> (r: Vec<(Priority, ServiceTask)>)
        ensures
            r@ == old(self).queued(),
            final(self).queued().len() == 0,
            final(self).listen_view() == old(self).listen_view(),
    {
        let mut r: Vec<(Priority, ServiceTask)> = Vec::new();
        std::mem::swap(&mut r, &mut self.tasks);
        r
    }
}

} // verus!
