//! End-to-end scenarios: echo, named lookup, kill, shutdown draining,
//! initialization failure, and the foreign miss with a no-op delegate.

use fluxion::errors::{ActorError, ActorInitError, SendError};
use fluxion::foreign::{ForeignMessage, NoDelegate};
use fluxion::handle::MessageSender;
use fluxion::ident::Identifier;
use fluxion::messages::{Actor, ActorContext, Handler, Message, WireMessage};
use fluxion::system::System;

#[derive(Clone, Debug, PartialEq, Eq)]
struct Echo(String);

#[derive(Clone, Debug, PartialEq, Eq)]
struct EchoReply(String);

impl Message for Echo {
    type Response = EchoReply;
}

impl WireMessage for Echo {
    fn encode(&self) -> Option<Vec<u8>> {
        Some(self.0.as_bytes().to_vec())
    }

    fn decode(bytes: &Vec<u8>) -> Option<Echo> {
        String::from_utf8(bytes.clone()).ok().map(Echo)
    }

    fn encode_response(response: &EchoReply) -> Option<Vec<u8>> {
        Some(response.0.as_bytes().to_vec())
    }

    fn decode_response(bytes: &Vec<u8>) -> Option<EchoReply> {
        String::from_utf8(bytes.clone()).ok().map(EchoReply)
    }
}

struct EchoActor {
    handled: usize,
}

impl Actor for EchoActor {
    type Error = String;

    fn initialize(&mut self) -> Result<(), String> {
        Ok(())
    }

    fn deinitialize(&mut self) -> Result<(), String> {
        Ok(())
    }
}

impl Handler<Echo> for EchoActor {
    fn handle(&mut self, _context: &ActorContext, message: Echo) -> EchoReply {
        self.handled += 1;
        EchoReply(message.0)
    }
}

struct FailingActor;

impl Actor for FailingActor {
    type Error = ActorError<String>;

    fn initialize(&mut self) -> Result<(), ActorError<String>> {
        Err(ActorError::CustomError(String::from("boom")))
    }

    fn deinitialize(&mut self) -> Result<(), ActorError<String>> {
        Ok(())
    }
}

impl Handler<Echo> for FailingActor {
    fn handle(&mut self, _context: &ActorContext, message: Echo) -> EchoReply {
        EchoReply(message.0)
    }
}

fn echo_system() -> System<EchoActor, Echo, NoDelegate> {
    System::new(b"s".to_vec(), NoDelegate)
}

#[test]
fn echo() {
    let mut sys = echo_system();
    let id = sys.add(EchoActor { handled: 0 }).expect("add must succeed");
    let reply = sys.request(id, Echo(String::from("hi"))).expect("live actor answers");
    assert_eq!(reply, EchoReply(String::from("hi")));
}

#[test]
fn named_lookup() {
    let mut sys = echo_system();
    let id = sys
        .add_named(b"w".to_vec(), EchoActor { handled: 0 })
        .expect("add_named must succeed");
    assert_eq!(id, 0);
    assert_eq!(sys.get_actor_id(&b"w".to_vec()), Some(0));
    let sender = sys
        .get(&Identifier::LocalNamed(b"w".to_vec()))
        .expect("named lookup resolves");
    let reply = sender
        .send(&mut sys, Echo(String::from("ping")))
        .expect("send to live actor succeeds");
    assert_eq!(reply, EchoReply(String::from("ping")));
}

#[test]
fn lookup_with_own_prefix_is_local() {
    let mut sys = echo_system();
    let id = sys
        .add_named(b"w".to_vec(), EchoActor { handled: 0 })
        .expect("add_named must succeed");
    let by_name = sys
        .get(&Identifier::ForeignNamed(b"s".to_vec(), b"w".to_vec()))
        .expect("own prefix resolves locally");
    assert!(matches!(by_name, MessageSender::Local(_)));
    let by_id = sys
        .get(&Identifier::Foreign(b"s".to_vec(), id))
        .expect("own prefix with id resolves locally");
    assert!(matches!(by_id, MessageSender::Local(_)));
}

#[test]
fn kill_makes_actor_gone() {
    let mut sys = echo_system();
    let id = sys.add(EchoActor { handled: 0 }).expect("add must succeed");
    // An outstanding send: queued but not yet driven when the kill lands.
    let ticket = sys.post(id, Echo(String::from("late"))).expect("post to live actor");
    sys.kill(id);
    assert!(sys.get_local(id).is_none());
    assert_eq!(sys.take_response(ticket), Some(Err(SendError::NoResponse)));
    // A send after the kill finds the actor gone.
    assert_eq!(
        sys.request(id, Echo(String::from("more"))),
        Err(SendError::ActorGone)
    );
}

#[test]
fn kill_is_idempotent() {
    let mut sys = echo_system();
    let id = sys.add(EchoActor { handled: 0 }).expect("add must succeed");
    sys.kill(id);
    sys.kill(id);
    sys.kill(12345);
}

#[test]
fn kill_leaves_stale_name_as_miss() {
    let mut sys = echo_system();
    let id = sys
        .add_named(b"w".to_vec(), EchoActor { handled: 0 })
        .expect("add_named must succeed");
    sys.kill(id);
    // The binding is left in place but lookup re-verifies liveness.
    assert_eq!(sys.get_actor_id(&b"w".to_vec()), None);
    assert!(sys.get(&Identifier::LocalNamed(b"w".to_vec())).is_none());
}

#[test]
fn shutdown_drains() {
    let mut sys = echo_system();
    let mut ids = Vec::new();
    for _ in 0..100 {
        ids.push(sys.add(EchoActor { handled: 0 }).expect("add must succeed"));
    }
    let mut tickets = Vec::new();
    for &id in &ids {
        for k in 0..10 {
            tickets.push(
                sys.post(id, Echo(format!("m{}", k)))
                    .expect("post to live actor"),
            );
        }
    }
    let count = sys.shutdown();
    assert_eq!(count, 100);
    // Every in-flight send has a resolution: its response arrived before
    // the shutdown acknowledgement.
    for t in tickets {
        match sys.take_response(t) {
            Some(Ok(_)) => {}
            other => panic!("ticket left pending or dropped: {:?}", other),
        }
    }
    for &id in &ids {
        assert!(sys.get_local(id).is_none());
    }
    // A second shutdown is a no-op.
    assert_eq!(sys.shutdown(), 0);
}

#[test]
fn post_shutdown_operations_fail() {
    let mut sys = echo_system();
    let id = sys.add(EchoActor { handled: 0 }).expect("add must succeed");
    sys.shutdown();
    assert_eq!(
        sys.request(id, Echo(String::from("x"))),
        Err(SendError::ActorGone)
    );
    assert!(matches!(
        sys.add(EchoActor { handled: 0 }),
        Err(ActorInitError::SystemGone)
    ));
    assert!(sys.get_local(id).is_none());
    assert_eq!(sys.get_actor_id(&b"w".to_vec()), None);
}

#[test]
fn init_failure_keeps_actor_out() {
    let mut sys: System<FailingActor, Echo, NoDelegate> = System::new(b"s".to_vec(), NoDelegate);
    match sys.add(FailingActor) {
        Err(ActorInitError::Custom(e)) => {
            assert_eq!(e, ActorError::CustomError(String::from("boom")));
        }
        other => panic!("expected the actor's own error, got {:?}", other.is_ok()),
    }
    assert!(sys.get_local(0).is_none());
}

#[test]
fn ids_unique_and_increasing_after_failure() {
    let mut sys = echo_system();
    let a = sys.add(EchoActor { handled: 0 }).expect("add must succeed");
    let b = sys.add(EchoActor { handled: 0 }).expect("add must succeed");
    let c = sys
        .add_named(b"n".to_vec(), EchoActor { handled: 0 })
        .expect("add_named must succeed");
    assert!(a < b && b < c);
}

#[test]
fn foreign_miss_with_noop_delegate() {
    let sys = echo_system();
    let target = Identifier::parse(b"otherhost:x").expect("well-formed identifier");
    assert!(sys.get(&target).is_none());
}

#[test]
fn foreign_send_maps_transport_fault() {
    let mut sys = echo_system();
    let target = Identifier::Foreign(b"otherhost".to_vec(), 3);
    // The no-op delegate fails every round trip with fault code 0.
    assert_eq!(
        sys.request_foreign(&target, Echo(String::from("x"))),
        Err(SendError::Transport(0))
    );
}

#[test]
fn relay_foreign_delivers_locally() {
    let mut sys = echo_system();
    let id = sys
        .add_named(b"w".to_vec(), EchoActor { handled: 0 })
        .expect("add_named must succeed");
    // An envelope addressed with our own prefix is stripped and enqueued.
    let env = ForeignMessage::new(
        Identifier::ForeignNamed(b"s".to_vec(), b"w".to_vec()),
        b"hello".to_vec(),
    );
    let ticket = sys
        .relay_foreign(env)
        .expect("local relay is accepted")
        .expect("local relay yields a ticket");
    sys.step_actor(id);
    assert_eq!(
        sys.take_response(ticket),
        Some(Ok(EchoReply(String::from("hello"))))
    );
}

#[test]
fn relay_foreign_misses_unknown_target() {
    let mut sys = echo_system();
    let env = ForeignMessage::new(
        Identifier::LocalNamed(b"nobody".to_vec()),
        b"hello".to_vec(),
    );
    assert_eq!(sys.relay_foreign(env), Err(SendError::ActorGone));
}

#[test]
fn relay_foreign_forwards_or_fails_outward() {
    let mut sys = echo_system();
    let env = ForeignMessage::new(Identifier::Foreign(b"other".to_vec(), 1), b"x".to_vec());
    // The no-op delegate cannot forward; the fault maps to Transport.
    assert_eq!(sys.relay_foreign(env), Err(SendError::Transport(0)));
}

#[test]
fn pop_target_strips_prefix() {
    let env = ForeignMessage::new(
        Identifier::Foreign(b"s".to_vec(), 8),
        b"p".to_vec(),
    );
    assert_eq!(env.get_target(), &Identifier::Foreign(b"s".to_vec(), 8));
    let popped = env.pop_target();
    assert_eq!(popped.target, Identifier::Local(8));
    assert_eq!(popped.payload, b"p".to_vec());
    let named = ForeignMessage::new(
        Identifier::ForeignNamed(b"s".to_vec(), b"w".to_vec()),
        b"p".to_vec(),
    );
    assert_eq!(named.pop_target().target, Identifier::LocalNamed(b"w".to_vec()));
}
