//! Tests for the delivery guarantees: per-mailbox FIFO order, at-most-once
//! delivery, name overwriting, and id monotonicity.

use fluxion::foreign::NoDelegate;
use fluxion::ident::Identifier;
use fluxion::mailbox::Mailbox;
use fluxion::messages::{Actor, ActorContext, Handler, Message};
use fluxion::system::System;

#[derive(Clone, Debug, PartialEq, Eq)]
struct Tag(u64);

#[derive(Clone, Debug, PartialEq, Eq)]
struct Stamped {
    tag: u64,
    order: u64,
}

impl Message for Tag {
    type Response = Stamped;
}

/// Answers each message with the order in which it was handled.
struct SequencingActor {
    next_order: u64,
}

impl Actor for SequencingActor {
    type Error = String;

    fn initialize(&mut self) -> Result<(), String> {
        Ok(())
    }

    fn deinitialize(&mut self) -> Result<(), String> {
        Ok(())
    }
}

impl Handler<Tag> for SequencingActor {
    fn handle(&mut self, _context: &ActorContext, message: Tag) -> Stamped {
        let order = self.next_order;
        self.next_order += 1;
        Stamped {
            tag: message.0,
            order,
        }
    }
}

fn sequencing_system() -> System<SequencingActor, Tag, NoDelegate> {
    System::new(b"s".to_vec(), NoDelegate)
}

#[test]
fn fifo_per_mailbox() {
    let mut sys = sequencing_system();
    let id = sys.add(SequencingActor { next_order: 0 }).expect("add must succeed");
    let mut tickets = Vec::new();
    for k in 0..10u64 {
        tickets.push(sys.post(id, Tag(k)).expect("post to live actor"));
    }
    // Drive the mailbox to the end.
    for _ in 0..10 {
        sys.step_actor(id);
    }
    // The k-th message sent was handled k-th and carries its own tag.
    for (k, t) in tickets.into_iter().enumerate() {
        let stamped = sys
            .take_response(t)
            .expect("response must be recorded")
            .expect("handled while running");
        assert_eq!(stamped.tag, k as u64);
        assert_eq!(stamped.order, k as u64);
    }
}

#[test]
fn drain_actor_resolves_in_order() {
    let mut sys = sequencing_system();
    let id = sys.add(SequencingActor { next_order: 0 }).expect("add must succeed");
    let mut tickets = Vec::new();
    for k in 0..7u64 {
        tickets.push(sys.post(id, Tag(k)).expect("post to live actor"));
    }
    sys.drain_actor(id);
    for (k, t) in tickets.into_iter().enumerate() {
        let stamped = sys
            .take_response(t)
            .expect("drained tickets are resolved")
            .expect("handled while running");
        assert_eq!(stamped.order, k as u64);
    }
    // Draining an empty mailbox or a missing actor changes nothing.
    sys.drain_actor(id);
    sys.drain_actor(id + 1);
}

#[test]
fn request_handles_earlier_messages_first() {
    let mut sys = sequencing_system();
    let id = sys.add(SequencingActor { next_order: 0 }).expect("add must succeed");
    let early = sys.post(id, Tag(100)).expect("post to live actor");
    // The awaited request drives the queued message first, in order.
    let reply = sys.request(id, Tag(200)).expect("live actor answers");
    assert_eq!(reply, Stamped { tag: 200, order: 1 });
    assert_eq!(
        sys.take_response(early),
        Some(Ok(Stamped { tag: 100, order: 0 }))
    );
}

#[test]
fn at_most_once_delivery() {
    let mut sys = sequencing_system();
    let id = sys.add(SequencingActor { next_order: 0 }).expect("add must succeed");
    for k in 0..5u64 {
        sys.post(id, Tag(k)).expect("post to live actor");
    }
    // Driving the mailbox further than its length invokes nothing twice:
    // the handler ran exactly once per message.
    for _ in 0..20 {
        sys.step_actor(id);
    }
    let reply = sys.request(id, Tag(99)).expect("live actor answers");
    assert_eq!(reply.order, 5);
}

#[test]
fn take_response_is_one_shot() {
    let mut sys = sequencing_system();
    let id = sys.add(SequencingActor { next_order: 0 }).expect("add must succeed");
    let t = sys.post(id, Tag(1)).expect("post to live actor");
    sys.step_actor(id);
    assert!(sys.take_response(t).is_some());
    // The resolution was handed out; the ticket is gone.
    assert!(sys.take_response(t).is_none());
}

#[test]
fn name_overwrite_keeps_both_alive() {
    let mut sys = sequencing_system();
    let id1 = sys
        .add_named(b"n".to_vec(), SequencingActor { next_order: 0 })
        .expect("add_named must succeed");
    let id2 = sys
        .add_named(b"n".to_vec(), SequencingActor { next_order: 0 })
        .expect("add_named must succeed");
    assert_ne!(id1, id2);
    assert_eq!(sys.get_actor_id(&b"n".to_vec()), Some(id2));
    assert!(sys.get_local(id1).is_some());
    assert!(sys.get_local(id2).is_some());
}

#[test]
fn id_monotonicity_across_adds() {
    let mut sys = sequencing_system();
    let mut previous: Option<u64> = None;
    for k in 0..20u64 {
        let id = if k % 2 == 0 {
            sys.add(SequencingActor { next_order: 0 }).expect("add must succeed")
        } else {
            sys.add_named(format!("a{}", k).into_bytes(), SequencingActor { next_order: 0 })
                .expect("add_named must succeed")
        };
        if let Some(p) = previous {
            assert!(p < id);
        }
        previous = Some(id);
    }
}

#[test]
fn ids_survive_kill_without_reuse() {
    let mut sys = sequencing_system();
    let a = sys.add(SequencingActor { next_order: 0 }).expect("add must succeed");
    sys.kill(a);
    let b = sys.add(SequencingActor { next_order: 0 }).expect("add must succeed");
    assert!(a < b);
}

#[test]
fn get_local_and_get_agree() {
    let mut sys = sequencing_system();
    let id = sys.add(SequencingActor { next_order: 0 }).expect("add must succeed");
    assert!(sys.get_local(id).is_some());
    assert!(sys.get(&Identifier::Local(id)).is_some());
    assert!(sys.get(&Identifier::Local(id + 1)).is_none());
}

#[derive(Clone, Debug, PartialEq, Eq)]
struct WhoAmI;

#[derive(Clone, Debug, PartialEq, Eq)]
struct Whereabouts {
    id: u64,
    system: Vec<u8>,
}

impl Message for WhoAmI {
    type Response = Whereabouts;
}

struct IntrospectiveActor;

impl Actor for IntrospectiveActor {
    type Error = String;

    fn initialize(&mut self) -> Result<(), String> {
        Ok(())
    }

    fn deinitialize(&mut self) -> Result<(), String> {
        Ok(())
    }
}

impl Handler<WhoAmI> for IntrospectiveActor {
    fn handle(&mut self, context: &ActorContext, _message: WhoAmI) -> Whereabouts {
        Whereabouts {
            id: context.id(),
            system: context.system_id().clone(),
        }
    }
}

#[test]
fn context_carries_id_and_system() {
    let mut sys: System<IntrospectiveActor, WhoAmI, NoDelegate> =
        System::new(b"node-a".to_vec(), NoDelegate);
    let first = sys.add(IntrospectiveActor).expect("add must succeed");
    let second = sys.add(IntrospectiveActor).expect("add must succeed");
    let seen = sys.request(second, WhoAmI).expect("live actor answers");
    assert_eq!(
        seen,
        Whereabouts {
            id: second,
            system: b"node-a".to_vec()
        }
    );
    let seen = sys.request(first, WhoAmI).expect("live actor answers");
    assert_eq!(seen.id, first);
}

#[test]
fn mailbox_is_fifo() {
    let mut mb: Mailbox<u64> = Mailbox::new(3);
    assert_eq!(mb.len(), 0);
    assert!(mb.has_room());
    mb.push_back(1);
    mb.push_back(2);
    mb.push_back(3);
    assert_eq!(mb.len(), 3);
    assert!(!mb.has_room());
    assert_eq!(mb.pop_front(), Some(1));
    assert_eq!(mb.pop_front(), Some(2));
    mb.push_back(4);
    assert_eq!(mb.pop_front(), Some(3));
    assert_eq!(mb.pop_front(), Some(4));
    assert_eq!(mb.pop_front(), None);
}
