//! The system facade: it composes the registry (dense id allocation and
//! name binding), the per-actor supervisors, the response log, and the
//! foreign delegate into one value.
//!
//! The registry invariants: ids are unique and strictly increasing within a
//! system and are never reused, even after a kill; every response ticket is
//! either queued in exactly one mailbox or resolved in the response log,
//! never both; name bindings always point below the allocation frontier,
//! though they may outlive their actor and are re-verified on lookup.

use vstd::prelude::*;

use crate::errors::SendError;
use crate::foreign::{pop_shape, Delegate, ForeignMessage};
use crate::handle::{LocalHandle, MessageSender};
use crate::ident::{spec_is_foreign, IdentShape, Identifier};
use crate::messages::{Actor, Handler, Message, WireMessage};
use crate::policy::SupervisorErrorPolicy;
use crate::supervisor::{
    env_is_message,
    env_ticket,
    ActorSupervisor,
    StepOutcome,
    SupervisorMessage,
};

verus! {

/// The advisory mailbox capacity a system uses when none is configured.
pub const DEFAULT_MAILBOX_CAPACITY: usize = 64;

/// The shutdown timeout, in milliseconds, that an asynchronous embedding
/// should grant each actor before abandoning it.
pub const DEFAULT_SHUTDOWN_TIMEOUT_MS: u64 = 5000;

/// The lifecycle of a system: operations are accepted while it is
/// operating; after `shutdown` returns it is drained for good.
#[derive(Debug, Clone, Copy, PartialEq, Eq)]
pub enum SystemPhase {
    /// Accepting operations.
    Operating,
    /// Shut down; adds and lookups fail, sends find no actor.
    Drained,
}

/// Looks a key up in a sequence of pairs; the last binding wins.
pub open spec fn lookup_key<V>(s: Seq<(u64, V)>, key: u64) -> Option<V>
    decreases s.len(),
{
    if s.len() == 0 {
        None
    } else if s.last().0 == key {
        Some(s.last().1)
    } else {
        lookup_key(s.drop_last(), key)
    }
}

/// Looks a name up in a sequence of name bindings; the last binding wins.
pub open spec fn lookup_name(s: Seq<(Seq<u8>, u64)>, name: Seq<u8>) -> Option<u64>
    decreases s.len(),
{
    if s.len() == 0 {
        None
    } else if s.last().0 == name {
        Some(s.last().1)
    } else {
        lookup_name(s.drop_last(), name)
    }
}

/// Whether every name in a binding sequence is bound at most once.
pub open spec fn names_unique(s: Seq<(Seq<u8>, u64)>) -> bool {
    forall|a: int, b: int| 0 <= a < b < s.len() ==> (#[trigger] s[a]).0 != (#[trigger] s[b]).0
}

/// Replacing a binding, keeping its name, keeps the names unique.
pub proof fn lemma_unique_update(s: Seq<(Seq<u8>, u64)>, i: int, p: (Seq<u8>, u64))
    requires
        names_unique(s),
        0 <= i < s.len(),
        s[i].0 == p.0,
    ensures
        names_unique(s.update(i, p)),
{
    let t = s.update(i, p);
    assert forall|a: int, b: int| 0 <= a < b < t.len() implies (#[trigger] t[a]).0 != (
    #[trigger] t[b]).0 by {
        assert(t[a].0 == s[a].0);
        assert(t[b].0 == s[b].0);
        assert(s[a].0 != s[b].0);
    }
}

/// Appending a binding of a fresh name keeps the names unique.
pub proof fn lemma_unique_push(s: Seq<(Seq<u8>, u64)>, p: (Seq<u8>, u64))
    requires
        names_unique(s),
        forall|j: int| 0 <= j < s.len() ==> (#[trigger] s[j]).0 != p.0,
    ensures
        names_unique(s.push(p)),
{
    let t = s.push(p);
    assert forall|a: int, b: int| 0 <= a < b < t.len() implies (#[trigger] t[a]).0 != (
    #[trigger] t[b]).0 by {
        if b < t.len() - 1 {
            assert(s[a].0 != s[b].0);
        } else {
            assert(t[a].0 == s[a].0);
            assert(s[a].0 != p.0);
        }
    }
}

/// A host for actors: owns the registry, the supervisors, the response
/// log, and the foreign delegate.
pub struct System<A, M: Message, D> {
    system_id: Vec<u8>,
    delegate: D,
    phase: SystemPhase,
    next_id: u64,
    next_ticket: u64,
    capacity: usize,
    policy: SupervisorErrorPolicy,
    supervisors: Vec<ActorSupervisor<A, M>>,
    names: Vec<(Vec<u8>, u64)>,
    completions: Vec<(u64, Option<M::Response>)>,
}

impl<A: Actor, M: Message, D> System<A, M, D> {
    /// The id of this system.
    pub closed spec fn sys_id(&self) -> Seq<u8> {
        self.system_id@
    }

    /// The delegate injected at construction.
    pub closed spec fn delegate_spec(&self) -> D {
        self.delegate
    }

    /// Whether the system still accepts operations.
    pub closed spec fn operating(&self) -> bool {
        self.phase is Operating
    }

    /// The next actor id to be allocated.
    pub closed spec fn fresh_id(&self) -> u64 {
        self.next_id
    }

    /// The next response ticket to be allocated.
    pub closed spec fn fresh_ticket(&self) -> u64 {
        self.next_ticket
    }

    /// The advisory mailbox capacity for new actors.
    pub closed spec fn capacity_spec(&self) -> usize {
        self.capacity
    }

    /// The error policy given to new actors.
    pub closed spec fn policy_spec(&self) -> SupervisorErrorPolicy {
        self.policy
    }

    /// The live supervisors, in order of allocation.
    pub closed spec fn sups(&self) -> Seq<ActorSupervisor<A, M>> {
        self.supervisors@
    }

    /// The name index: `(name, id)` bindings in binding order.
    pub closed spec fn bindings(&self) -> Seq<(Seq<u8>, u64)> {
        self.names@.map_values(|p: (Vec<u8>, u64)| (p.0@, p.1))
    }

    /// The response log: each resolved ticket with its outcome; `None`
    /// stands for a response channel dropped without a response.
    pub closed spec fn completions_view(&self) -> Seq<(u64, Option<M::Response>)> {
        self.completions@
    }

    /// Whether an actor with this id is live.
    pub open spec fn live(&self, id: u64) -> bool {
        exists|i: int|
            0 <= i < self.sups().len() && (#[trigger] self.sups()[i]).id_spec() == id
    }

    /// What the name index, re-verified against the live set, answers for a
    /// name.
    pub open spec fn actor_id_of(&self, name: Seq<u8>) -> Option<u64> {
        match lookup_name(self.bindings(), name) {
            Some(id) => if self.live(id) {
                Some(id)
            } else {
                None
            },
            None => None,
        }
    }

    /// The resolution of a ticket in the response log.
    pub open spec fn resolution(&self, ticket: u64) -> Option<Option<M::Response>> {
        lookup_key(self.completions_view(), ticket)
    }

    /// Whether a ticket is still queued in some mailbox.
    pub open spec fn ticket_queued(&self, ticket: u64) -> bool {
        exists|i: int|
            0 <= i < self.sups().len() && (#[trigger] self.sups()[i]).tickets().contains(ticket)
    }

    /// Whether indices denote a queued envelope.
    pub open spec fn tidx_ok(&self, i: int, k: int) -> bool {
        0 <= i < self.sups().len() && 0 <= k < self.sups()[i].tickets().len()
    }

    /// The ticket queued at mailbox `i`, position `k`.
    pub open spec fn ticket_at(&self, i: int, k: int) -> u64 {
        self.sups()[i].tickets()[k]
    }

    /// The ticket resolved at position `c` of the response log.
    pub open spec fn comp_key(&self, c: int) -> u64 {
        self.completions_view()[c].0
    }

    /// Actor ids are strictly increasing in allocation order and below the
    /// allocation frontier.
    pub open spec fn ids_wf(&self) -> bool {
        &&& forall|i: int, j: int|
            0 <= i < j < self.sups().len() ==> #[trigger] self.sups()[i].id_spec()
                < #[trigger] self.sups()[j].id_spec()
        &&& forall|i: int|
            0 <= i < self.sups().len() ==> (#[trigger] self.sups()[i]).id_spec()
                < self.fresh_id()
    }

    /// Every supervisor is still running, carries the context of its own id
    /// and this system, and queues message envelopes only.
    pub open spec fn sups_wf(&self) -> bool {
        forall|i: int|
            0 <= i < self.sups().len() ==> {
                let s = #[trigger] self.sups()[i];
                &&& s.context_spec().id_spec() == s.id_spec()
                &&& s.context_spec().system_id_spec() == self.sys_id()
                &&& s.running()
                &&& s.only_messages()
            }
    }

    /// Names are bound at most once, and always below the allocation
    /// frontier.
    pub open spec fn names_wf(&self) -> bool {
        &&& names_unique(self.bindings())
        &&& forall|i: int|
            0 <= i < self.bindings().len() ==> (#[trigger] self.bindings()[i]).1
                < self.fresh_id()
    }

    /// Every ticket is below the ticket frontier and appears at most once:
    /// the queued tickets are pairwise distinct, the resolved tickets are
    /// pairwise distinct, and no ticket is both queued and resolved.
    pub open spec fn tickets_wf(&self) -> bool {
        &&& forall|i: int, k: int|
            self.tidx_ok(i, k) ==> #[trigger] self.ticket_at(i, k) < self.fresh_ticket()
        &&& forall|i: int, k: int, i2: int, k2: int|
            #![trigger self.ticket_at(i, k), self.ticket_at(i2, k2)]
            self.tidx_ok(i, k) && self.tidx_ok(i2, k2) && (i != i2 || k != k2)
                ==> self.ticket_at(i, k) != self.ticket_at(i2, k2)
        &&& forall|c: int|
            0 <= c < self.completions_view().len() ==> #[trigger] self.comp_key(c)
                < self.fresh_ticket()
        &&& forall|c: int, c2: int|
            #![trigger self.comp_key(c), self.comp_key(c2)]
            0 <= c < c2 < self.completions_view().len() ==> self.comp_key(c) != self.comp_key(c2)
        &&& forall|i: int, k: int, c: int|
            #![trigger self.ticket_at(i, k), self.comp_key(c)]
            self.tidx_ok(i, k) && 0 <= c < self.completions_view().len() ==> self.ticket_at(i, k)
                != self.comp_key(c)
    }

    /// The system invariant, established by the constructor and preserved
    /// by every operation.
    pub open spec fn wf(&self) -> bool {
        &&& self.ids_wf()
        &&& self.sups_wf()
        &&& self.names_wf()
        &&& self.tickets_wf()
        &&& (self.operating() || (self.sups().len() == 0 && self.bindings().len() == 0))
    }

    /// Constructs a fresh operating system with the given id and delegate,
    /// the default mailbox capacity, and the default error policy.
    pub fn new(system_id: Vec<u8>, delegate: D) -> (r: System<A, M, D>)
        ensures
            r.wf(),
            r.sys_id() == system_id@,
            r.delegate_spec() == delegate,
            r.operating(),
            r.fresh_id() == 0,
            r.fresh_ticket() == 0,
            r.sups().len() == 0,
            r.bindings().len() == 0,
            r.completions_view().len() == 0,
            r.capacity_spec() == DEFAULT_MAILBOX_CAPACITY,
            r.policy_spec() == crate::policy::initial_policy(),
    {
        Self::new_with_config(
            system_id,
            delegate,
            DEFAULT_MAILBOX_CAPACITY,
            SupervisorErrorPolicy::default(),
        )
    }

    /// Constructs a fresh operating system with an explicit mailbox
    /// capacity and error policy.
    pub fn new_with_config(
        system_id: Vec<u8>,
        delegate: D,
        capacity: usize,
        policy: SupervisorErrorPolicy,
    ) -> (r: System<A, M, D>)
        ensures
            r.wf(),
            r.sys_id() == system_id@,
            r.delegate_spec() == delegate,
            r.operating(),
            r.fresh_id() == 0,
            r.fresh_ticket() == 0,
            r.sups().len() == 0,
            r.bindings().len() == 0,
            r.completions_view().len() == 0,
            r.capacity_spec() == capacity,
            r.policy_spec() == policy,
    {
        let r = System {
            system_id,
            delegate,
            phase: SystemPhase::Operating,
            next_id: 0,
            next_ticket: 0,
            capacity,
            policy,
            supervisors: Vec::new(),
            names: Vec::new(),
            completions: Vec::new(),
        };
        proof {
            assert(r.bindings() =~= Seq::<(Seq<u8>, u64)>::empty());
        }
        r
    }

    /// This system's id.
    pub fn get_id(&self) -> (r: &Vec<u8>)
        ensures
            r@ == self.sys_id(),
    {
        &self.system_id
    }

    /// A reference to the delegate.
    pub fn get_delegate(&self) -> (r: &D)
        ensures
            *r == self.delegate_spec(),
    {
        &self.delegate
    }

    /// Whether the system still accepts operations.
    pub fn is_operating(&self) -> (r: bool)
        ensures
            r == self.operating(),
    {
        match self.phase {
            SystemPhase::Operating => true,
            SystemPhase::Drained => false,
        }
    }

    /// Finds the position of the supervisor with the given id.
    fn find_index(&self, id: u64) -> (r: Option<usize>)
        ensures
            match r {
                Some(i) => i < self.sups().len() && self.sups()[i as int].id_spec() == id,
                None => !self.live(id),
            },
    {
        let n: usize = self.supervisors.len();
        let mut i: usize = 0;
        while i < n
            invariant
                0 <= i <= n,
                n == self.sups().len(),
                forall|j: int| 0 <= j < i ==> (#[trigger] self.sups()[j]).id_spec() != id,
            decreases n - i,
        {
            if self.supervisors[i].id() == id {
                return Some(i);
            }
            i = i + 1;
        }
        None
    }
}

/// A name found at position `i`, with no later binding of the same name,
/// is what lookup answers.
pub proof fn lemma_lookup_name_found(s: Seq<(Seq<u8>, u64)>, name: Seq<u8>, i: int)
    requires
        0 <= i < s.len(),
        s[i].0 == name,
        forall|j: int| i < j < s.len() ==> (#[trigger] s[j]).0 != name,
    ensures
        lookup_name(s, name) == Some(s[i].1),
    decreases s.len(),
{
    if i == s.len() - 1 {
    } else {
        assert(s.last().0 != name);
        assert(s.drop_last()[i] == s[i]);
        lemma_lookup_name_found(s.drop_last(), name, i);
    }
}

/// Replacing the binding at `i` (keeping its name) does not change what any
/// other name resolves to.
pub proof fn lemma_lookup_name_update_other(
    s: Seq<(Seq<u8>, u64)>,
    i: int,
    p: (Seq<u8>, u64),
    other: Seq<u8>,
)
    requires
        0 <= i < s.len(),
        s[i].0 == p.0,
        other != p.0,
    ensures
        lookup_name(s.update(i, p), other) == lookup_name(s, other),
    decreases s.len(),
{
    let t = s.update(i, p);
    if i == s.len() - 1 {
        assert(t.last() == p);
        assert(t.drop_last() =~= s.drop_last());
    } else {
        assert(t.last() == s.last());
        assert(t.drop_last() =~= s.drop_last().update(i, p));
        assert(s.drop_last()[i] == s[i]);
        lemma_lookup_name_update_other(s.drop_last(), i, p, other);
    }
}

/// A ticket resolved nowhere in `s` has no resolution.
pub proof fn lemma_lookup_key_absent<V>(s: Seq<(u64, V)>, key: u64)
    requires
        forall|j: int| 0 <= j < s.len() ==> (#[trigger] s[j]).0 != key,
    ensures
        lookup_key(s, key) == None::<V>,
    decreases s.len(),
{
    if s.len() > 0 {
        lemma_lookup_key_absent(s.drop_last(), key);
    }
}

/// A key that resolves was recorded somewhere.
pub proof fn lemma_lookup_key_some_exists<V>(s: Seq<(u64, V)>, key: u64)
    requires
        lookup_key(s, key) is Some,
    ensures
        exists|c: int| 0 <= c < s.len() && (#[trigger] s[c]).0 == key,
    decreases s.len(),
{
    if s.len() > 0 {
        if s.last().0 == key {
            assert(s[s.len() - 1].0 == key);
        } else {
            lemma_lookup_key_some_exists(s.drop_last(), key);
            let c = choose|c: int|
                0 <= c < s.drop_last().len() && (#[trigger] s.drop_last()[c]).0 == key;
            assert(s[c].0 == key);
        }
    }
}

/// A key found at position `i`, with no later entry of the same key, is
/// what lookup answers.
pub proof fn lemma_lookup_key_found<V>(s: Seq<(u64, V)>, key: u64, i: int)
    requires
        0 <= i < s.len(),
        s[i].0 == key,
        forall|j: int| i < j < s.len() ==> (#[trigger] s[j]).0 != key,
    ensures
        lookup_key(s, key) == Some(s[i].1),
    decreases s.len(),
{
    if i == s.len() - 1 {
    } else {
        assert(s.last().0 != key);
        assert(s.drop_last()[i] == s[i]);
        lemma_lookup_key_found(s.drop_last(), key, i);
    }
}

/// Appending entries of other keys does not change what a key resolves to.
pub proof fn lemma_lookup_key_append_other<V>(s: Seq<(u64, V)>, ext: Seq<(u64, V)>, key: u64)
    requires
        forall|j: int| 0 <= j < ext.len() ==> (#[trigger] ext[j]).0 != key,
    ensures
        lookup_key(s + ext, key) == lookup_key(s, key),
    decreases ext.len(),
{
    if ext.len() == 0 {
        assert(s + ext =~= s);
    } else {
        assert((s + ext).last() == ext.last());
        assert((s + ext).drop_last() =~= s + ext.drop_last());
        assert forall|j: int| 0 <= j < ext.drop_last().len() implies (
        #[trigger] ext.drop_last()[j]).0 != key by {
            assert(ext.drop_last()[j] == ext[j]);
        }
        lemma_lookup_key_append_other(s, ext.drop_last(), key);
    }
}

impl<A: Actor, M: Message, D> System<A, M, D> {
    /// How a successful `add` extends a system: the returned id is the old
    /// allocation frontier, the frontier moves by one, and one fresh
    /// supervisor with an empty mailbox is appended; nothing else changes.
    pub open spec fn add_rel(pre: Self, post: Self, id: u64) -> bool {
        &&& id == pre.fresh_id()
        &&& post.fresh_id() == pre.fresh_id() + 1
        &&& post.sups().len() == pre.sups().len() + 1
        &&& post.sups().drop_last() == pre.sups()
        &&& post.sups().last().id_spec() == id
        &&& post.sups().last().msgs().len() == 0
        &&& post.sys_id() == pre.sys_id()
        &&& post.fresh_ticket() == pre.fresh_ticket()
        &&& post.completions_view() == pre.completions_view()
        &&& post.operating()
    }

    /// Ticket well-formedness only depends on the mailboxes, the response
    /// log, and the ticket frontier.
    pub proof fn lemma_tickets_wf_preserved(pre: Self, post: Self)
        requires
            pre.tickets_wf(),
            post.sups() == pre.sups(),
            post.completions_view() == pre.completions_view(),
            post.fresh_ticket() == pre.fresh_ticket(),
        ensures
            post.tickets_wf(),
    {
        assert forall|i: int, k: int| post.tidx_ok(i, k) implies pre.tidx_ok(i, k) && (
        #[trigger] post.ticket_at(i, k)) == pre.ticket_at(i, k) by {}
        assert forall|c: int|
            0 <= c < post.completions_view().len() implies (#[trigger] post.comp_key(c))
                == pre.comp_key(c) by {}
    }

    /// Removing the supervisor at position `i` and appending its queued
    /// tickets to the response log preserves the system invariant; its
    /// actor's id is no longer live, and no other id changes.
    pub proof fn lemma_wf_after_remove(
        pre: Self,
        post: Self,
        i: int,
        ext: Seq<(u64, Option<M::Response>)>,
    )
        requires
            pre.wf(),
            0 <= i < pre.sups().len(),
            post.sups() == pre.sups().remove(i),
            post.completions_view() == pre.completions_view() + ext,
            ext.len() == pre.sups()[i].tickets().len(),
            forall|k: int|
                0 <= k < ext.len() ==> (#[trigger] ext[k]).0 == pre.sups()[i].tickets()[k],
            post.bindings() == pre.bindings(),
            post.fresh_id() == pre.fresh_id(),
            post.fresh_ticket() == pre.fresh_ticket(),
            post.sys_id() == pre.sys_id(),
            post.operating(),
        ensures
            post.wf(),
            !post.live(pre.sups()[i].id_spec()),
            forall|x: u64|
                x != pre.sups()[i].id_spec() ==> (post.live(x) == pre.live(x)),
    {
        let plen = pre.completions_view().len() as int;
        let id = pre.sups()[i].id_spec();
        assert forall|x: int| 0 <= x < post.sups().len() implies #[trigger] post.sups()[x]
            == pre.sups()[(if x < i {
            x
        } else {
            x + 1
        })] by {}
        assert forall|x: u64| x != id implies post.live(x) == pre.live(x) by {
            if post.live(x) {
                let w = choose|w: int|
                    0 <= w < post.sups().len() && (#[trigger] post.sups()[w]).id_spec() == x;
                if w < i {
                    assert(pre.sups()[w].id_spec() == x);
                } else {
                    assert(pre.sups()[w + 1].id_spec() == x);
                }
            }
            if pre.live(x) {
                let w = choose|w: int|
                    0 <= w < pre.sups().len() && (#[trigger] pre.sups()[w]).id_spec() == x;
                assert(w != i);
                if w < i {
                    assert(post.sups()[w].id_spec() == x);
                } else {
                    assert(post.sups()[w - 1].id_spec() == x);
                }
            }
        }
        assert(!post.live(id)) by {
            if post.live(id) {
                let w = choose|w: int|
                    0 <= w < post.sups().len() && (#[trigger] post.sups()[w]).id_spec() == id;
                if w < i {
                    assert(pre.sups()[w].id_spec() < pre.sups()[i].id_spec());
                } else {
                    assert(pre.sups()[i].id_spec() < pre.sups()[w + 1].id_spec());
                }
            }
        }
        assert(post.ids_wf()) by {
            assert forall|a: int, b: int| 0 <= a < b < post.sups().len() implies (
            #[trigger] post.sups()[a]).id_spec() < (#[trigger] post.sups()[b]).id_spec() by {
                let ma: int = if a < i {
                    a
                } else {
                    a + 1
                };
                let mb: int = if b < i {
                    b
                } else {
                    b + 1
                };
                assert(ma < mb);
                assert(pre.sups()[ma].id_spec() < pre.sups()[mb].id_spec());
            }
            assert forall|a: int| 0 <= a < post.sups().len() implies (
            #[trigger] post.sups()[a]).id_spec() < post.fresh_id() by {
                let ma: int = if a < i {
                    a
                } else {
                    a + 1
                };
                assert(pre.sups()[ma].id_spec() < pre.fresh_id());
            }
        }
        assert(post.sups_wf()) by {
            assert forall|a: int| 0 <= a < post.sups().len() implies {
                let s = #[trigger] post.sups()[a];
                &&& s.context_spec().id_spec() == s.id_spec()
                &&& s.context_spec().system_id_spec() == post.sys_id()
                &&& s.running()
                &&& s.only_messages()
            } by {
                let ma: int = if a < i {
                    a
                } else {
                    a + 1
                };
                assert(post.sups()[a] == pre.sups()[ma]);
            }
        }
        assert forall|x: int, k: int| post.tidx_ok(x, k) implies {
            let mx = if x < i {
                x
            } else {
                x + 1
            };
            &&& pre.tidx_ok(mx, k)
            &&& mx != i
            &&& #[trigger] post.ticket_at(x, k) == pre.ticket_at(mx, k)
        } by {}
        assert forall|c: int| 0 <= c < post.completions_view().len() implies #[trigger]
            post.comp_key(c) == (if c < plen {
            pre.comp_key(c)
        } else {
            pre.ticket_at(i, c - plen)
        }) by {
            if c < plen {
                assert(post.completions_view()[c] == pre.completions_view()[c]);
            } else {
                assert(post.completions_view()[c] == ext[c - plen]);
            }
        }
        assert(post.tickets_wf()) by {
            assert forall|x: int, k: int| post.tidx_ok(x, k) implies (
            #[trigger] post.ticket_at(x, k)) < post.fresh_ticket() by {
                let mx: int = if x < i {
                    x
                } else {
                    x + 1
                };
                assert(pre.ticket_at(mx, k) < pre.fresh_ticket());
            }
            assert forall|x: int, k: int, x2: int, k2: int|
                #![trigger post.ticket_at(x, k), post.ticket_at(x2, k2)]
                post.tidx_ok(x, k) && post.tidx_ok(x2, k2) && (x != x2 || k != k2)
                    implies post.ticket_at(x, k) != post.ticket_at(x2, k2) by {
                let mx: int = if x < i {
                    x
                } else {
                    x + 1
                };
                let mx2: int = if x2 < i {
                    x2
                } else {
                    x2 + 1
                };
                assert(mx != mx2 || k != k2);
                assert(pre.ticket_at(mx, k) != pre.ticket_at(mx2, k2));
            }
            assert forall|c: int| 0 <= c < post.completions_view().len() implies (
            #[trigger] post.comp_key(c)) < post.fresh_ticket() by {
                if c < plen {
                    assert(pre.comp_key(c) < pre.fresh_ticket());
                } else {
                    assert(pre.tidx_ok(i, c - plen));
                    assert(pre.ticket_at(i, c - plen) < pre.fresh_ticket());
                }
            }
            assert forall|c: int, c2: int|
                #![trigger post.comp_key(c), post.comp_key(c2)]
                0 <= c < c2 < post.completions_view().len() implies post.comp_key(c)
                    != post.comp_key(c2) by {
                if c2 < plen {
                    assert(pre.comp_key(c) != pre.comp_key(c2));
                } else if c < plen {
                    assert(pre.tidx_ok(i, c2 - plen));
                    assert(pre.ticket_at(i, c2 - plen) != pre.comp_key(c));
                } else {
                    assert(pre.tidx_ok(i, c - plen) && pre.tidx_ok(i, c2 - plen));
                    assert(pre.ticket_at(i, c - plen) != pre.ticket_at(i, c2 - plen));
                }
            }
            assert forall|x: int, k: int, c: int|
                #![trigger post.ticket_at(x, k), post.comp_key(c)]
                post.tidx_ok(x, k) && 0 <= c < post.completions_view().len() implies
                post.ticket_at(x, k) != post.comp_key(c) by {
                let mx: int = if x < i {
                    x
                } else {
                    x + 1
                };
                assert(pre.tidx_ok(mx, k));
                if c < plen {
                    assert(pre.ticket_at(mx, k) != pre.comp_key(c));
                } else {
                    assert(pre.tidx_ok(i, c - plen));
                    assert(mx != i);
                    assert(pre.ticket_at(mx, k) != pre.ticket_at(i, c - plen));
                }
            }
        }
        assert(post.wf());
    }

    /// Runs the actor's `initialize` hook, re-invoking it as the policy
    /// action allows.  `None` is success; `Some(e)` is the error of the
    /// last failing attempt.
    fn run_initialize(actor: &mut A, action: &crate::policy::PolicyAction) -> (r: Option<
        A::Error,
    >) {
        let allowed: u64 = action.attempts_allowed();
        let mut attempt: u64 = 0;
        let mut out: Option<A::Error> = None;
        while attempt < allowed
            invariant
                attempt > 0 ==> out is Some,
            decreases allowed - attempt,
        {
            match actor.initialize() {
                Ok(_) => {
                    return None;
                },
                Err(e) => {
                    out = Some(e);
                },
            }
            attempt = attempt + 1;
        }
        out
    }

    /// Finds the position of a name in the name index.
    fn find_name_index(&self, name: &Vec<u8>) -> (r: Option<usize>)
        ensures
            match r {
                Some(i) => i < self.bindings().len() && self.bindings()[i as int].0 == name@,
                None => forall|j: int|
                    0 <= j < self.bindings().len() ==> (#[trigger] self.bindings()[j]).0
                        != name@,
            },
    {
        let n: usize = self.names.len();
        let mut i: usize = 0;
        while i < n
            invariant
                0 <= i <= n,
                n == self.names@.len(),
                n == self.bindings().len(),
                forall|j: int| 0 <= j < i ==> (#[trigger] self.bindings()[j]).0 != name@,
            decreases n - i,
        {
            if bytes_eq(&self.names[i].0, name) {
                proof {
                    assert(self.bindings()[i as int].0 == self.names@[i as int].0@);
                }
                return Some(i);
            }
            proof {
                assert(self.bindings()[i as int].0 == self.names@[i as int].0@);
            }
            i = i + 1;
        }
        None
    }

    /// Adds an actor: runs `initialize` under the system's default policy,
    /// and on success allocates the next dense id and installs a
    /// supervisor with the default mailbox capacity.  The id is never
    /// reused, even after the actor is killed.
    pub fn add(&mut self, actor: A) -> (r: Result<u64, crate::errors::ActorInitError<A::Error>>)
        requires
            old(self).wf(),
            old(self).fresh_id() < u64::MAX,
        ensures
            final(self).wf(),
            final(self).sys_id() == old(self).sys_id(),
            final(self).delegate_spec() == old(self).delegate_spec(),
            final(self).operating() == old(self).operating(),
            final(self).capacity_spec() == old(self).capacity_spec(),
            final(self).policy_spec() == old(self).policy_spec(),
            final(self).bindings() == old(self).bindings(),
            final(self).completions_view() == old(self).completions_view(),
            match r {
                Ok(id) => {
                    &&& old(self).operating()
                    &&& Self::add_rel(*old(self), *final(self), id)
                    &&& final(self).live(id)
                    &&& forall|x: u64|
                        final(self).live(x) <==> (old(self).live(x) || x == id)
                },
                Err(crate::errors::ActorInitError::SystemGone) => !old(self).operating()
                    && *final(self) == *old(self),
                Err(crate::errors::ActorInitError::Custom(_)) => {
                    &&& old(self).operating()
                    &&& final(self).sups() == old(self).sups()
                    &&& final(self).fresh_id() == old(self).fresh_id()
                    &&& final(self).fresh_ticket() == old(self).fresh_ticket()
                },
            },
    {
        let capacity = self.capacity;
        let policy = self.policy;
        self.add_with_policy(actor, capacity, policy)
    }

    /// Adds an actor with a per-actor mailbox capacity and error policy in
    /// place of the system defaults.  `initialize` runs under the given
    /// policy's `initialize` action before any registry state changes.
    pub fn add_with_policy(
        &mut self,
        actor: A,
        capacity: usize,
        policy: SupervisorErrorPolicy,
    ) -> (r: Result<u64, crate::errors::ActorInitError<A::Error>>)
        requires
            old(self).wf(),
            old(self).fresh_id() < u64::MAX,
        ensures
            final(self).wf(),
            final(self).sys_id() == old(self).sys_id(),
            final(self).delegate_spec() == old(self).delegate_spec(),
            final(self).operating() == old(self).operating(),
            final(self).capacity_spec() == old(self).capacity_spec(),
            final(self).policy_spec() == old(self).policy_spec(),
            final(self).bindings() == old(self).bindings(),
            final(self).completions_view() == old(self).completions_view(),
            match r {
                Ok(id) => {
                    &&& old(self).operating()
                    &&& Self::add_rel(*old(self), *final(self), id)
                    &&& final(self).live(id)
                    &&& forall|x: u64|
                        final(self).live(x) <==> (old(self).live(x) || x == id)
                },
                Err(crate::errors::ActorInitError::SystemGone) => !old(self).operating()
                    && *final(self) == *old(self),
                Err(crate::errors::ActorInitError::Custom(_)) => {
                    &&& old(self).operating()
                    &&& final(self).sups() == old(self).sups()
                    &&& final(self).fresh_id() == old(self).fresh_id()
                    &&& final(self).fresh_ticket() == old(self).fresh_ticket()
                },
            },
    {
        if !self.is_operating() {
            return Err(crate::errors::ActorInitError::SystemGone);
        }
        let mut actor = actor;
        match Self::run_initialize(&mut actor, &policy.initialize) {
            Some(e) => Err(crate::errors::ActorInitError::Custom(e)),
            None => {
                let ghost pre = *self;
                let id: u64 = self.next_id;
                self.next_id = id + 1;
                let sys_id_copy = vstd::slice::slice_to_vec(self.system_id.as_slice());
                let sup: ActorSupervisor<A, M> = ActorSupervisor::new(
                    actor,
                    id,
                    sys_id_copy,
                    capacity,
                    policy,
                );
                self.supervisors.push(sup);
                proof {
                    let post = *self;
                    assert(post.sups().drop_last() =~= pre.sups());
                    assert(post.sups().last().tickets().len() == 0);
                    assert forall|i: int| 0 <= i < pre.sups().len() implies post.sups()[i]
                        == pre.sups()[i] by {
                        assert(post.sups().drop_last()[i] == pre.sups()[i]);
                    }
                    assert forall|x: u64| post.live(x) implies (pre.live(x) || x == id) by {
                        let i = choose|i: int|
                            0 <= i < post.sups().len() && (#[trigger] post.sups()[i]).id_spec()
                                == x;
                        if i < pre.sups().len() {
                            assert(pre.sups()[i].id_spec() == x);
                        }
                    }
                    assert forall|x: u64| (pre.live(x) || x == id) implies post.live(x) by {
                        if pre.live(x) {
                            let i = choose|i: int|
                                0 <= i < pre.sups().len() && (#[trigger] pre.sups()[i]).id_spec()
                                    == x;
                            assert(post.sups()[i].id_spec() == x);
                        } else {
                            assert(post.sups()[post.sups().len() - 1].id_spec() == x);
                        }
                    }
                    assert forall|i: int, k: int| post.tidx_ok(i, k) implies pre.tidx_ok(i, k)
                        && #[trigger] post.ticket_at(i, k) == pre.ticket_at(i, k) by {
                        assert(post.sups()[i] == pre.sups()[i]);
                    }
                    assert(post.bindings() =~= pre.bindings());
                    assert(post.completions_view() =~= pre.completions_view());
                    assert forall|c: int|
                        0 <= c < post.completions_view().len() implies #[trigger] post.comp_key(
                            c,
                        ) == pre.comp_key(c) by {}
                    assert(post.ids_wf());
                    assert(post.sups_wf());
                    assert(post.names_wf());
                    assert(post.tickets_wf());
                    assert(post.wf());
                }
                Ok(id)
            },
        }
    }

    /// Adds an actor and binds a name to its id.  An existing binding of
    /// the same name is silently overwritten; the displaced actor stays
    /// live.  On an error the actor is not added and no name is bound.
    pub fn add_named(&mut self, name: Vec<u8>, actor: A) -> (r: Result<
        u64,
        crate::errors::ActorInitError<A::Error>,
    >)
        requires
            old(self).wf(),
            old(self).fresh_id() < u64::MAX,
        ensures
            final(self).wf(),
            final(self).sys_id() == old(self).sys_id(),
            final(self).delegate_spec() == old(self).delegate_spec(),
            final(self).operating() == old(self).operating(),
            final(self).capacity_spec() == old(self).capacity_spec(),
            final(self).policy_spec() == old(self).policy_spec(),
            final(self).completions_view() == old(self).completions_view(),
            match r {
                Ok(id) => {
                    &&& old(self).operating()
                    &&& Self::add_rel(*old(self), *final(self), id)
                    &&& final(self).live(id)
                    &&& forall|x: u64|
                        final(self).live(x) <==> (old(self).live(x) || x == id)
                    &&& lookup_name(final(self).bindings(), name@) == Some(id)
                    &&& forall|n: Seq<u8>|
                        n != name@ ==> #[trigger] lookup_name(final(self).bindings(), n)
                            == lookup_name(old(self).bindings(), n)
                },
                Err(crate::errors::ActorInitError::SystemGone) => !old(self).operating()
                    && *final(self) == *old(self),
                Err(crate::errors::ActorInitError::Custom(_)) => {
                    &&& old(self).operating()
                    &&& final(self).sups() == old(self).sups()
                    &&& final(self).fresh_id() == old(self).fresh_id()
                    &&& final(self).fresh_ticket() == old(self).fresh_ticket()
                    &&& final(self).bindings() == old(self).bindings()
                },
            },
    {
        match self.add(actor) {
            Err(e) => Err(e),
            Ok(id) => {
                let ghost mid = *self;
                match self.find_name_index(&name) {
                    Some(i) => {
                        proof {
                            assert forall|j: int|
                                i < j < mid.bindings().len() implies (
                            #[trigger] mid.bindings()[j]).0 != name@ by {
                                assert(mid.bindings()[i as int].0 != mid.bindings()[j].0);
                            }
                        }
                        self.names[i] = (name, id);
                        proof {
                            let post = *self;
                            assert(post.bindings() =~= mid.bindings().update(
                                i as int,
                                (name@, id),
                            ));
                            assert forall|x: int|
                                0 <= x < post.bindings().len() implies (
                            #[trigger] post.bindings()[x]).0 == mid.bindings()[x].0 by {
                                if x != i {
                                    assert(post.bindings()[x] == mid.bindings()[x]);
                                }
                            }
                            assert forall|j: int|
                                i < j < post.bindings().len() implies (
                            #[trigger] post.bindings()[j]).0 != name@ by {}
                            lemma_lookup_name_found(post.bindings(), name@, i as int);
                            assert forall|nm: Seq<u8>| nm != name@ implies #[trigger] lookup_name(
                                post.bindings(),
                                nm,
                            ) == lookup_name(mid.bindings(), nm) by {
                                lemma_lookup_name_update_other(
                                    mid.bindings(),
                                    i as int,
                                    (name@, id),
                                    nm,
                                );
                            }
                            Self::lemma_tickets_wf_preserved(mid, post);
                            lemma_unique_update(mid.bindings(), i as int, (name@, id));
                            assert(names_unique(post.bindings()));
                            assert forall|x: int|
                                0 <= x < post.bindings().len() implies (
                            #[trigger] post.bindings()[x]).1 < post.fresh_id() by {
                                if x != i {
                                    assert(post.bindings()[x] == mid.bindings()[x]);
                                }
                            }
                            assert(post.wf());
                        }
                        Ok(id)
                    },
                    None => {
                        self.names.push((name, id));
                        proof {
                            let post = *self;
                            assert(post.bindings() =~= mid.bindings().push((name@, id)));
                            lemma_lookup_name_found(
                                post.bindings(),
                                name@,
                                post.bindings().len() - 1,
                            );
                            assert forall|nm: Seq<u8>| nm != name@ implies #[trigger] lookup_name(
                                post.bindings(),
                                nm,
                            ) == lookup_name(mid.bindings(), nm) by {
                                assert(post.bindings().drop_last() =~= mid.bindings());
                            }
                            Self::lemma_tickets_wf_preserved(mid, post);
                            lemma_unique_push(mid.bindings(), (name@, id));
                            assert(names_unique(post.bindings()));
                            assert forall|x: int|
                                0 <= x < post.bindings().len() implies (
                            #[trigger] post.bindings()[x]).1 < post.fresh_id() by {
                                if x < post.bindings().len() - 1 {
                                    assert(post.bindings()[x] == mid.bindings()[x]);
                                }
                            }
                            assert(post.wf());
                        }
                        Ok(id)
                    },
                }
            },
        }
    }

    /// Retrieves an actor's id by its name, re-verifying that the id still
    /// resolves to a live actor: a stale binding left by a kill is a miss.
    pub fn get_actor_id(&self, name: &Vec<u8>) -> (r: Option<u64>)
        ensures
            r == self.actor_id_of(name@),
    {
        let n: usize = self.names.len();
        let mut i: usize = n;
        proof {
            assert(self.bindings().take(n as int) =~= self.bindings());
        }
        while i > 0
            invariant
                0 <= i <= n,
                n == self.names@.len(),
                lookup_name(self.bindings(), name@) == lookup_name(
                    self.bindings().take(i as int),
                    name@,
                ),
            decreases i,
        {
            i = i - 1;
            if bytes_eq(&self.names[i].0, name) {
                proof {
                    let t = self.bindings().take(i + 1);
                    assert(t.last() == self.bindings()[i as int]);
                    assert(t.last().0 == name@);
                }
                let id: u64 = self.names[i].1;
                match self.find_index(id) {
                    Some(_) => {
                        return Some(id);
                    },
                    None => {
                        return None;
                    },
                }
            }
            proof {
                let t = self.bindings().take(i + 1);
                assert(t.last() == self.bindings()[i as int]);
                assert(t.last().0 != name@);
                assert(t.drop_last() =~= self.bindings().take(i as int));
            }
        }
        proof {
            assert(self.bindings().take(0) =~= Seq::<(Seq<u8>, u64)>::empty());
        }
        None
    }
}

/// Removing an entry with another key does not change what a key resolves
/// to.
pub proof fn lemma_lookup_key_remove<V>(s: Seq<(u64, V)>, idx: int, key: u64)
    requires
        0 <= idx < s.len(),
        s[idx].0 != key,
    ensures
        lookup_key(s.remove(idx), key) == lookup_key(s, key),
    decreases s.len(),
{
    let t = s.remove(idx);
    if idx == s.len() - 1 {
        assert(t =~= s.drop_last());
    } else {
        assert(t.last() == s.last());
        if s.last().0 == key {
        } else {
            assert(t.drop_last() =~= s.drop_last().remove(idx));
            assert(s.drop_last()[idx] == s[idx]);
            lemma_lookup_key_remove(s.drop_last(), idx, key);
        }
    }
}

/// Appending a pair resolves its own key to its value and leaves every
/// other key as it was.
pub proof fn lemma_lookup_key_push<V>(s: Seq<(u64, V)>, p: (u64, V), key: u64)
    ensures
        key == p.0 ==> lookup_key(s.push(p), key) == Some(p.1),
        key != p.0 ==> lookup_key(s.push(p), key) == lookup_key(s, key),
{
    assert(s.push(p).drop_last() =~= s);
}

impl<A: Actor, M: Message, D> System<A, M, D> {
    /// The position of the live actor with the given id.
    pub open spec fn index_of(&self, id: u64) -> int {
        choose|i: int| 0 <= i < self.sups().len() && (#[trigger] self.sups()[i]).id_spec() == id
    }

    /// A position holding the id of a live actor is the position the id
    /// resolves to: ids are unique.
    pub proof fn lemma_live_index(s: Self, id: u64, i: int)
        requires
            s.wf(),
            0 <= i < s.sups().len(),
            s.sups()[i].id_spec() == id,
        ensures
            s.live(id),
            s.index_of(id) == i,
    {
        assert(s.live(id));
        let j = s.index_of(id);
        assert(s.sups()[j].id_spec() == id);
        if j < i {
            assert(s.sups()[j].id_spec() < s.sups()[i].id_spec());
        } else if j > i {
            assert(s.sups()[i].id_spec() < s.sups()[j].id_spec());
        }
    }

    /// Enqueues a message for the actor with the given id, allocating a
    /// fresh response ticket.  Fails with `ActorGone` exactly when no actor
    /// with that id is live (in particular, always after shutdown).
    pub fn post(&mut self, id: u64, message: M) -> (r: Result<u64, SendError>)
        requires
            old(self).wf(),
            old(self).fresh_ticket() < u64::MAX,
        ensures
            final(self).wf(),
            final(self).sys_id() == old(self).sys_id(),
            final(self).delegate_spec() == old(self).delegate_spec(),
            final(self).operating() == old(self).operating(),
            final(self).capacity_spec() == old(self).capacity_spec(),
            final(self).policy_spec() == old(self).policy_spec(),
            final(self).bindings() == old(self).bindings(),
            final(self).completions_view() == old(self).completions_view(),
            final(self).fresh_id() == old(self).fresh_id(),
            final(self).sups().len() == old(self).sups().len(),
            forall|x: u64| final(self).live(x) == old(self).live(x),
            match r {
                Ok(t) => {
                    &&& old(self).live(id)
                    &&& t == old(self).fresh_ticket()
                    &&& final(self).fresh_ticket() == old(self).fresh_ticket() + 1
                    &&& old(self).resolution(t) == None::<Option<M::Response>>
                    &&& final(self).resolution(t) == None::<Option<M::Response>>
                    &&& ({
                        let i = old(self).index_of(id);
                        &&& final(self).sups()[i].id_spec() == id
                        &&& final(self).index_of(id) == i
                        &&& final(self).sups()[i].msgs() == old(self).sups()[i].msgs().push(
                            SupervisorMessage::Message(t, message),
                        )
                        &&& final(self).sups()[i].tickets() == old(self).sups()[i].tickets().push(
                            t,
                        )
                        &&& forall|j: int|
                            0 <= j < old(self).sups().len() && j != i
                                ==> final(self).sups()[j] == old(self).sups()[j]
                    })
                },
                Err(SendError::ActorGone) => !old(self).live(id) && *final(self) == *old(self),
                Err(_) => false,
            },
    {
        match self.find_index(id) {
            None => Err(SendError::ActorGone),
            Some(i) => {
                let ghost pre = *self;
                let t: u64 = self.next_ticket;
                self.next_ticket = t + 1;
                let sup = &mut self.supervisors[i];
                sup.post_message(t, message);
                proof {
                    let post = *self;
                    let gi = pre.index_of(id);
                    assert(pre.sups()[i as int].id_spec() == id);
                    Self::lemma_live_index(pre, id, i as int);
                    assert(gi == i as int);
                    assert(post.sups()[i as int].tickets() =~= pre.sups()[
                        i as int
                    ].tickets().push(t));
                    assert(post.bindings() =~= pre.bindings());
                    assert(post.completions_view() =~= pre.completions_view());
                    assert forall|x: u64| post.live(x) == pre.live(x) by {
                        if post.live(x) {
                            let w = choose|w: int|
                                0 <= w < post.sups().len() && (
                                #[trigger] post.sups()[w]).id_spec() == x;
                            assert(pre.sups()[w].id_spec() == x);
                        }
                        if pre.live(x) {
                            let w = choose|w: int|
                                0 <= w < pre.sups().len() && (
                                #[trigger] pre.sups()[w]).id_spec() == x;
                            assert(post.sups()[w].id_spec() == x);
                        }
                    }
                    assert forall|c: int|
                        0 <= c < post.completions_view().len() implies (
                    #[trigger] post.comp_key(c)) == pre.comp_key(c) && pre.comp_key(c)
                        < pre.fresh_ticket() by {}
                    assert forall|x: int, k: int| post.tidx_ok(x, k) implies {
                        &&& (x == i as int && k == pre.sups()[i as int].tickets().len())
                            || (pre.tidx_ok(x, k) && #[trigger] post.ticket_at(x, k)
                            == pre.ticket_at(x, k))
                        &&& post.ticket_at(x, k) <= t
                    } by {
                        if x == i as int {
                            if k < pre.sups()[i as int].tickets().len() {
                                assert(post.ticket_at(x, k) == pre.ticket_at(x, k));
                                assert(pre.ticket_at(x, k) < pre.fresh_ticket());
                            } else {
                                assert(post.ticket_at(x, k) == t);
                            }
                        } else {
                            assert(post.sups()[x] == pre.sups()[x]);
                            assert(post.ticket_at(x, k) == pre.ticket_at(x, k));
                            assert(pre.ticket_at(x, k) < pre.fresh_ticket());
                        }
                    }
                    assert(pre.resolution(t) == None::<Option<M::Response>>) by {
                        assert forall|c: int|
                            0 <= c < pre.completions_view().len() implies (
                        #[trigger] pre.completions_view()[c]).0 != t by {
                            assert(pre.comp_key(c) < pre.fresh_ticket());
                        }
                        lemma_lookup_key_absent(pre.completions_view(), t);
                    }
                    assert(post.tickets_wf()) by {
                        assert forall|x: int, k: int, x2: int, k2: int|
                            #![trigger post.ticket_at(x, k), post.ticket_at(x2, k2)]
                            post.tidx_ok(x, k) && post.tidx_ok(x2, k2) && (x != x2 || k != k2)
                                implies post.ticket_at(x, k) != post.ticket_at(x2, k2) by {
                            if pre.tidx_ok(x, k) && pre.tidx_ok(x2, k2) {
                            } else if pre.tidx_ok(x, k) {
                                assert(post.ticket_at(x, k) == pre.ticket_at(x, k)
                                    < pre.fresh_ticket());
                            } else if pre.tidx_ok(x2, k2) {
                                assert(post.ticket_at(x2, k2) == pre.ticket_at(x2, k2)
                                    < pre.fresh_ticket());
                            }
                        }
                    }
                    assert(post.wf());
                    assert(post.sups()[i as int].id_spec() == id);
                    Self::lemma_live_index(post, id, i as int);
                }
                Ok(t)
            },
        }
    }

    /// Processes the front envelope of the actor's mailbox, if the actor is
    /// live and has one: its handler runs and the response is recorded
    /// under the envelope's ticket.  Every other actor, and every already
    /// recorded resolution, is untouched.
    pub fn step_actor(&mut self, id: u64) -> (r: StepOutcome) where A: Handler<M>
        requires
            old(self).wf(),
        ensures
            final(self).wf(),
            final(self).sys_id() == old(self).sys_id(),
            final(self).delegate_spec() == old(self).delegate_spec(),
            final(self).operating() == old(self).operating(),
            final(self).capacity_spec() == old(self).capacity_spec(),
            final(self).policy_spec() == old(self).policy_spec(),
            final(self).bindings() == old(self).bindings(),
            final(self).fresh_id() == old(self).fresh_id(),
            final(self).fresh_ticket() == old(self).fresh_ticket(),
            final(self).sups().len() == old(self).sups().len(),
            forall|x: u64| final(self).live(x) == old(self).live(x),
            !old(self).live(id) ==> *final(self) == *old(self) && r == StepOutcome::Idle,
            old(self).live(id) ==> ({
                let i = old(self).index_of(id);
                &&& final(self).sups()[i].id_spec() == id
                &&& final(self).index_of(id) == i
                &&& forall|j: int|
                    0 <= j < old(self).sups().len() && j != i ==> final(self).sups()[j] == old(
                        self,
                    ).sups()[j]
                &&& (old(self).sups()[i].msgs().len() == 0 ==> *final(self) == *old(self) && r
                    == StepOutcome::Idle)
                &&& (old(self).sups()[i].msgs().len() > 0 ==> {
                    let t = env_ticket(old(self).sups()[i].msgs()[0]);
                    &&& r == StepOutcome::Handled
                    &&& final(self).sups()[i].msgs() == old(self).sups()[i].msgs().drop_first()
                    &&& final(self).sups()[i].tickets() == old(self).sups()[
                        i
                    ].tickets().drop_first()
                    &&& final(self).completions_view().len() == old(
                        self,
                    ).completions_view().len() + 1
                    &&& final(self).completions_view().drop_last() == old(
                        self,
                    ).completions_view()
                    &&& final(self).completions_view().last().0 == t
                    &&& final(self).completions_view().last().1 is Some
                    &&& final(self).resolution(t) == Some(
                        final(self).completions_view().last().1,
                    )
                    &&& forall|tk: u64|
                        tk != t ==> #[trigger] final(self).resolution(tk) == old(
                            self,
                        ).resolution(tk)
                })
            }),
    {
        match self.find_index(id) {
            None => StepOutcome::Idle,
            Some(i) => {
                let ghost pre = *self;
                if self.supervisors[i].queue_len() == 0 {
                    proof {
                        Self::lemma_live_index(pre, id, i as int);
                    }
                    return StepOutcome::Idle;
                }
                let sup = &mut self.supervisors[i];
                let outcome = sup.step(&mut self.completions);
                proof {
                    let post = *self;
                    assert(pre.sups()[i as int].id_spec() == id);
                    Self::lemma_live_index(pre, id, i as int);
                    let front = pre.sups()[i as int].msgs()[0];
                    assert(env_is_message(front));
                    let t = env_ticket(front);
                    assert(post.sups()[i as int].tickets() =~= pre.sups()[
                        i as int
                    ].tickets().drop_first());
                    assert(post.bindings() =~= pre.bindings());
                    assert forall|x: u64| post.live(x) == pre.live(x) by {
                        if post.live(x) {
                            let w = choose|w: int|
                                0 <= w < post.sups().len() && (
                                #[trigger] post.sups()[w]).id_spec() == x;
                            assert(pre.sups()[w].id_spec() == x);
                        }
                        if pre.live(x) {
                            let w = choose|w: int|
                                0 <= w < pre.sups().len() && (
                                #[trigger] pre.sups()[w]).id_spec() == x;
                            assert(post.sups()[w].id_spec() == x);
                        }
                    }
                    assert(pre.tidx_ok(i as int, 0));
                    assert(t == pre.ticket_at(i as int, 0));
                    assert(t < pre.fresh_ticket());
                    assert forall|x: int, k: int| post.tidx_ok(x, k) implies {
                        &&& #[trigger] post.ticket_at(x, k) == pre.ticket_at(
                            x,
                            (if x == i as int {
                                k + 1
                            } else {
                                k
                            }),
                        )
                        &&& pre.tidx_ok(
                            x,
                            (if x == i as int {
                                k + 1
                            } else {
                                k
                            }),
                        )
                    } by {
                        if x != i as int {
                            assert(post.sups()[x] == pre.sups()[x]);
                        }
                    }
                    assert(post.completions_view() == pre.completions_view().push(
                        post.completions_view().last(),
                    )) by {
                        assert(post.completions_view().drop_last() =~= pre.completions_view());
                        assert(post.completions_view() =~= post.completions_view().drop_last().push(
                            post.completions_view().last(),
                        ));
                    }
                    assert forall|c: int|
                        0 <= c < pre.completions_view().len() implies (
                    #[trigger] pre.comp_key(c)) == post.comp_key(c) && pre.comp_key(c)
                        < pre.fresh_ticket() by {
                        assert(post.completions_view()[c] == pre.completions_view()[c]);
                    }
                    assert(post.comp_key(post.completions_view().len() - 1) == t);
                    lemma_lookup_key_push(
                        pre.completions_view(),
                        post.completions_view().last(),
                        t,
                    );
                    assert forall|tk: u64| tk != t implies #[trigger] post.resolution(tk)
                        == pre.resolution(tk) by {
                        lemma_lookup_key_push(
                            pre.completions_view(),
                            post.completions_view().last(),
                            tk,
                        );
                    }
                    assert(post.tickets_wf()) by {
                        assert forall|c: int|
                            0 <= c < post.completions_view().len() implies (
                        #[trigger] post.comp_key(c)) < post.fresh_ticket() by {
                            if c < post.completions_view().len() - 1 {
                                assert(post.comp_key(c) == pre.comp_key(c));
                                assert(pre.comp_key(c) < pre.fresh_ticket());
                            } else {
                                assert(post.comp_key(c) == t);
                            }
                        }
                        assert forall|x: int, k: int| post.tidx_ok(x, k) implies (
                        #[trigger] post.ticket_at(x, k)) < post.fresh_ticket() by {
                            let s: int = if x == i as int {
                                k + 1
                            } else {
                                k
                            };
                            assert(post.ticket_at(x, k) == pre.ticket_at(x, s));
                            assert(pre.tidx_ok(x, s));
                        }
                        assert forall|x: int, k: int, x2: int, k2: int|
                            #![trigger post.ticket_at(x, k), post.ticket_at(x2, k2)]
                            post.tidx_ok(x, k) && post.tidx_ok(x2, k2) && (x != x2 || k != k2)
                                implies post.ticket_at(x, k) != post.ticket_at(x2, k2) by {
                            let s: int = if x == i as int {
                                k + 1
                            } else {
                                k
                            };
                            let s2: int = if x2 == i as int {
                                k2 + 1
                            } else {
                                k2
                            };
                            assert(post.ticket_at(x, k) == pre.ticket_at(x, s));
                            assert(post.ticket_at(x2, k2) == pre.ticket_at(x2, s2));
                            assert(x != x2 || s != s2);
                            assert(pre.ticket_at(x, s) != pre.ticket_at(x2, s2));
                        }
                        assert forall|x: int, k: int, c: int|
                            #![trigger post.ticket_at(x, k), post.comp_key(c)]
                            post.tidx_ok(x, k) && 0 <= c < post.completions_view().len() implies
                            post.ticket_at(x, k) != post.comp_key(c) by {
                            let s: int = if x == i as int {
                                k + 1
                            } else {
                                k
                            };
                            assert(post.ticket_at(x, k) == pre.ticket_at(x, s));
                            assert(pre.tidx_ok(x, s));
                            if c < post.completions_view().len() - 1 {
                                assert(post.comp_key(c) == pre.comp_key(c));
                                assert(pre.ticket_at(x, s) != pre.comp_key(c));
                            } else {
                                assert(post.comp_key(c) == t);
                                assert(pre.tidx_ok(i as int, 0));
                                assert(x != i as int || s != 0);
                                assert(pre.ticket_at(x, s) != pre.ticket_at(i as int, 0));
                            }
                        }
                        assert forall|c: int, c2: int|
                            #![trigger post.comp_key(c), post.comp_key(c2)]
                            0 <= c < c2 < post.completions_view().len() implies post.comp_key(c)
                                != post.comp_key(c2) by {
                            if c2 < post.completions_view().len() - 1 {
                                assert(pre.comp_key(c) != pre.comp_key(c2));
                            } else {
                                assert(post.comp_key(c2) == t);
                                assert(post.comp_key(c) == pre.comp_key(c));
                                assert(pre.tidx_ok(i as int, 0));
                                assert(pre.ticket_at(i as int, 0) != pre.comp_key(c));
                            }
                        }
                    }
                    assert(post.wf());
                    assert(post.sups()[i as int].id_spec() == id);
                    Self::lemma_live_index(post, id, i as int);
                }
                outcome
            },
        }
    }

    /// Sends a message to a live actor and drives that actor's supervisor
    /// until the response arrives: all earlier envelopes in the mailbox are
    /// processed first, in arrival order.  Fails with `ActorGone` exactly
    /// when the target is not live; a live target always answers.
    pub fn request(&mut self, id: u64, message: M) -> (r: Result<M::Response, SendError>) where
        A: Handler<M>
        requires
            old(self).wf(),
            old(self).fresh_ticket() < u64::MAX,
        ensures
            final(self).wf(),
            final(self).sys_id() == old(self).sys_id(),
            final(self).delegate_spec() == old(self).delegate_spec(),
            final(self).operating() == old(self).operating(),
            final(self).capacity_spec() == old(self).capacity_spec(),
            final(self).policy_spec() == old(self).policy_spec(),
            final(self).bindings() == old(self).bindings(),
            final(self).fresh_id() == old(self).fresh_id(),
            final(self).sups().len() == old(self).sups().len(),
            forall|x: u64| final(self).live(x) == old(self).live(x),
            !old(self).live(id) ==> r == Err::<M::Response, SendError>(SendError::ActorGone)
                && *final(self) == *old(self),
            old(self).live(id) ==> r is Ok,
            forall|tk: u64|
                old(self).resolution(tk) is Some ==> #[trigger] final(self).resolution(tk)
                    == old(self).resolution(tk),
    {
        let ghost orig = *old(self);
        match self.post(id, message) {
            Err(e) => Err(e),
            Ok(t) => {
                proof {
                    let i = orig.index_of(id);
                    assert(self.index_of(id) == i);
                    assert(self.sups()[i].tickets() == orig.sups()[i].tickets().push(t));
                    assert(self.sups()[i].tickets().contains(t)) by {
                        assert(self.sups()[i].tickets().last() == t);
                    }
                }
                loop
                    invariant
                        orig == *old(self),
                        self.wf(),
                        self.live(id),
                        self.sys_id() == orig.sys_id(),
                        self.delegate_spec() == orig.delegate_spec(),
                        self.operating() == orig.operating(),
                        self.capacity_spec() == orig.capacity_spec(),
                        self.policy_spec() == orig.policy_spec(),
                        self.bindings() == orig.bindings(),
                        self.fresh_id() == orig.fresh_id(),
                        self.sups().len() == orig.sups().len(),
                        orig.live(id),
                        orig.resolution(t) == None::<Option<M::Response>>,
                        forall|x: u64| self.live(x) == orig.live(x),
                        match self.resolution(t) {
                            Some(x) => x is Some,
                            None => self.sups()[self.index_of(id)].tickets().contains(t),
                        },
                        forall|tk: u64|
                            orig.resolution(tk) is Some ==> #[trigger] self.resolution(tk)
                                == orig.resolution(tk),
                    decreases self.sups()[self.index_of(id)].msgs().len(),
                {
                    let ghost loop_pre = *self;
                    match self.take_response(t) {
                        Some(Ok(resp)) => {
                            return Ok(resp);
                        },
                        Some(Err(_)) => {
                            proof {
                                assert(false);
                            }
                            return Err(SendError::NoResponse);
                        },
                        None => {},
                    }
                    proof {
                        let i = loop_pre.index_of(id);
                        assert(loop_pre.sups()[i].tickets().contains(t));
                        assert(loop_pre.sups()[i].tickets().len() > 0);
                        assert(loop_pre.sups()[i].msgs().len() > 0);
                    }
                    self.step_actor(id);
                    proof {
                        let i = loop_pre.index_of(id);
                        let post = *self;
                        assert(post.index_of(id) == i);
                        let front_t = env_ticket(loop_pre.sups()[i].msgs()[0]);
                        assert(front_t == loop_pre.ticket_at(i, 0));
                        if front_t == t {
                            assert(post.resolution(t) == Some(
                                post.completions_view().last().1,
                            ));
                        } else {
                            assert(post.resolution(t) == loop_pre.resolution(t));
                            let k = choose|k: int|
                                0 <= k < loop_pre.sups()[i].tickets().len() && loop_pre.sups()[
                                    i
                                ].tickets()[k] == t;
                            assert(loop_pre.ticket_at(i, k) == t);
                            assert(k != 0);
                            assert(post.sups()[i].tickets()[k - 1] == t);
                            assert(post.sups()[i].tickets().contains(t));
                        }
                        assert forall|tk: u64|
                            orig.resolution(tk) is Some implies #[trigger] post.resolution(tk)
                                == orig.resolution(tk) by {
                            assert(loop_pre.resolution(tk) == orig.resolution(tk));
                            if tk == front_t {
                                assert(loop_pre.tidx_ok(i, 0));
                                assert forall|c: int|
                                    0 <= c < loop_pre.completions_view().len() implies (
                                #[trigger] loop_pre.completions_view()[c]).0 != front_t by {
                                    assert(loop_pre.ticket_at(i, 0) != loop_pre.comp_key(c));
                                }
                                lemma_lookup_key_absent(loop_pre.completions_view(), front_t);
                                assert(loop_pre.resolution(tk) is None);
                                assert(false);
                            }
                        }
                    }
                }
            },
        }
    }

    /// Processes every envelope currently queued for the actor, in arrival
    /// order: the k-th queued message is handled k-th, and its response is
    /// recorded k-th in the response log.  Messages posted by one caller in
    /// order therefore resolve in that same order.
    pub fn drain_actor(&mut self, id: u64) where A: Handler<M>
        requires
            old(self).wf(),
        ensures
            final(self).wf(),
            final(self).sys_id() == old(self).sys_id(),
            final(self).delegate_spec() == old(self).delegate_spec(),
            final(self).operating() == old(self).operating(),
            final(self).capacity_spec() == old(self).capacity_spec(),
            final(self).policy_spec() == old(self).policy_spec(),
            final(self).bindings() == old(self).bindings(),
            final(self).fresh_id() == old(self).fresh_id(),
            final(self).fresh_ticket() == old(self).fresh_ticket(),
            final(self).sups().len() == old(self).sups().len(),
            forall|x: u64| final(self).live(x) == old(self).live(x),
            !old(self).live(id) ==> *final(self) == *old(self),
            old(self).live(id) ==> ({
                let i = old(self).index_of(id);
                let queued = old(self).sups()[i].tickets();
                let plen = old(self).completions_view().len();
                &&& final(self).sups()[i].msgs().len() == 0
                &&& forall|j: int|
                    0 <= j < old(self).sups().len() && j != i ==> final(self).sups()[j] == old(
                        self,
                    ).sups()[j]
                &&& final(self).completions_view().len() == plen + queued.len()
                &&& final(self).completions_view().take(plen as int) == old(
                    self,
                ).completions_view()
                &&& forall|k: int|
                    0 <= k < queued.len() ==> (#[trigger] final(self).completions_view()[plen + k]).0
                        == queued[k] && final(self).completions_view()[plen + k].1 is Some
            }),
    {
        match self.find_index(id) {
            None => {},
            Some(idx) => {
                let ghost orig = *self;
                let ghost i = orig.index_of(id);
                let ghost queued = orig.sups()[i].tickets();
                let ghost plen = orig.completions_view().len();
                proof {
                    Self::lemma_live_index(orig, id, idx as int);
                    assert(self.completions_view().take(plen as int) =~= orig.completions_view());
                }
                loop
                    invariant
                        orig == *old(self),
                        self.wf(),
                        orig.wf(),
                        orig.live(id),
                        i == orig.index_of(id),
                        queued == orig.sups()[i].tickets(),
                        plen == orig.completions_view().len(),
                        self.live(id),
                        self.index_of(id) == i,
                        self.sys_id() == orig.sys_id(),
                        self.delegate_spec() == orig.delegate_spec(),
                        self.operating() == orig.operating(),
                        self.capacity_spec() == orig.capacity_spec(),
                        self.policy_spec() == orig.policy_spec(),
                        self.bindings() == orig.bindings(),
                        self.fresh_id() == orig.fresh_id(),
                        self.fresh_ticket() == orig.fresh_ticket(),
                        self.sups().len() == orig.sups().len(),
                        forall|x: u64| self.live(x) == orig.live(x),
                        forall|j: int|
                            0 <= j < orig.sups().len() && j != i ==> self.sups()[j]
                                == orig.sups()[j],
                        self.sups()[i].msgs() == orig.sups()[i].msgs().skip(
                            queued.len() - self.sups()[i].msgs().len(),
                        ),
                        self.sups()[i].msgs().len() <= queued.len(),
                        self.completions_view().len() == plen + queued.len() - self.sups()[
                            i
                        ].msgs().len(),
                        self.completions_view().take(plen as int) == orig.completions_view(),
                        forall|k: int|
                            0 <= k < queued.len() - self.sups()[i].msgs().len() ==> (
                            #[trigger] self.completions_view()[plen + k]).0 == queued[k]
                                && self.completions_view()[plen + k].1 is Some,
                    decreases self.sups()[i].msgs().len(),
                {
                    let ghost loop_pre = *self;
                    let more = match self.find_index(id) {
                        Some(cur) => self.supervisors[cur].queue_len() > 0,
                        None => false,
                    };
                    if !more {
                        proof {
                            assert(loop_pre.sups()[i].msgs().len() == 0);
                        }
                        return ;
                    }
                    let ghost p = queued.len() - loop_pre.sups()[i].msgs().len();
                    self.step_actor(id);
                    proof {
                        let post = *self;
                        let front = loop_pre.sups()[i].msgs()[0];
                        assert(front == orig.sups()[i].msgs().skip(p)[0]);
                        assert(front == orig.sups()[i].msgs()[p]);
                        assert(env_ticket(front) == queued[p]) by {
                            assert(queued[p] == env_ticket(orig.sups()[i].msgs()[p]));
                        }
                        assert(post.sups()[i].msgs() =~= orig.sups()[i].msgs().skip(p + 1));
                        assert(post.completions_view().take(plen as int) =~= loop_pre
                            .completions_view().take(plen as int)) by {
                            assert(post.completions_view().drop_last()
                                == loop_pre.completions_view());
                            assert forall|c: int| 0 <= c < plen implies post.completions_view()[c]
                                == loop_pre.completions_view()[c] by {
                                assert(post.completions_view().drop_last()[c]
                                    == post.completions_view()[c]);
                            }
                        }
                        assert forall|k: int|
                            0 <= k < queued.len() - post.sups()[i].msgs().len() implies (
                        #[trigger] post.completions_view()[plen + k]).0 == queued[k]
                            && post.completions_view()[plen + k].1 is Some by {
                            if k < p {
                                assert(post.completions_view()[plen + k]
                                    == loop_pre.completions_view()[plen + k]) by {
                                    assert(post.completions_view().drop_last()[plen + k]
                                        == post.completions_view()[plen + k]);
                                }
                            } else {
                                assert(plen + k == post.completions_view().len() - 1);
                                assert(post.completions_view()[plen + k]
                                    == post.completions_view().last());
                            }
                        }
                    }
                }
            },
        }
    }

    /// Hands out the resolution of a ticket, removing it from the response
    /// log: the response, `NoResponse` if the actor went away before
    /// responding, or nothing if the ticket is still pending.
    pub fn take_response(&mut self, ticket: u64) -> (r: Option<Result<M::Response, SendError>>)
        requires
            old(self).wf(),
        ensures
            final(self).wf(),
            final(self).sys_id() == old(self).sys_id(),
            final(self).delegate_spec() == old(self).delegate_spec(),
            final(self).operating() == old(self).operating(),
            final(self).capacity_spec() == old(self).capacity_spec(),
            final(self).policy_spec() == old(self).policy_spec(),
            final(self).bindings() == old(self).bindings(),
            final(self).fresh_id() == old(self).fresh_id(),
            final(self).fresh_ticket() == old(self).fresh_ticket(),
            final(self).sups() == old(self).sups(),
            forall|x: u64| final(self).live(x) == old(self).live(x),
            match old(self).resolution(ticket) {
                None => r is None && *final(self) == *old(self),
                Some(None) => r == Some(Err::<M::Response, SendError>(SendError::NoResponse)),
                Some(Some(resp)) => r == Some(Ok::<M::Response, SendError>(resp)),
            },
            old(self).resolution(ticket) is Some ==> final(self).resolution(ticket)
                == None::<Option<M::Response>>,
            forall|tk: u64|
                tk != ticket ==> #[trigger] final(self).resolution(tk) == old(self).resolution(
                    tk,
                ),
    {
        let n: usize = self.completions.len();
        let mut i: usize = n;
        proof {
            assert(self.completions_view().take(n as int) =~= self.completions_view());
        }
        while i > 0
            invariant
                0 <= i <= n,
                *self == *old(self),
                self.wf(),
                n == self.completions_view().len(),
                lookup_key(self.completions_view(), ticket) == lookup_key(
                    self.completions_view().take(i as int),
                    ticket,
                ),
            decreases i,
        {
            i = i - 1;
            proof {
                let t = self.completions_view().take(i + 1);
                assert(t.last() == self.completions_view()[i as int]);
                assert(t.drop_last() =~= self.completions_view().take(i as int));
            }
            if self.completions[i].0 == ticket {
                let ghost pre = *self;
                let entry = self.completions.remove(i);
                proof {
                    let post = *self;
                    assert(post.bindings() =~= pre.bindings());
                    assert(post.sups() == pre.sups());
                    assert forall|x: u64| post.live(x) == pre.live(x) by {
                        if post.live(x) {
                            let w = choose|w: int|
                                0 <= w < post.sups().len() && (
                                #[trigger] post.sups()[w]).id_spec() == x;
                            assert(pre.sups()[w].id_spec() == x);
                        }
                        if pre.live(x) {
                            let w = choose|w: int|
                                0 <= w < pre.sups().len() && (
                                #[trigger] pre.sups()[w]).id_spec() == x;
                            assert(post.sups()[w].id_spec() == x);
                        }
                    }
                    assert(pre.resolution(ticket) == Some(entry.1));
                    assert forall|c: int|
                        0 <= c < post.completions_view().len() implies #[trigger] post.comp_key(
                            c,
                        ) == (if c < i as int {
                            pre.comp_key(c)
                        } else {
                            pre.comp_key(c + 1)
                        }) by {
                        assert(post.completions_view() == pre.completions_view().remove(
                            i as int,
                        ));
                        if c < i as int {
                            assert(post.completions_view()[c] == pre.completions_view()[c]);
                        } else {
                            assert(post.completions_view()[c] == pre.completions_view()[c + 1]);
                        }
                    }
                    assert forall|c: int|
                        0 <= c < post.completions_view().len() implies (
                    #[trigger] post.completions_view()[c]).0 != ticket by {
                        if c < i as int {
                            assert(pre.comp_key(c) != pre.comp_key(i as int));
                        } else {
                            assert(pre.comp_key(c + 1) != pre.comp_key(i as int));
                        }
                    }
                    lemma_lookup_key_absent(post.completions_view(), ticket);
                    assert forall|tk: u64| tk != ticket implies #[trigger] post.resolution(tk)
                        == pre.resolution(tk) by {
                        lemma_lookup_key_remove(pre.completions_view(), i as int, tk);
                    }
                    assert(post.tickets_wf()) by {
                        assert forall|c: int|
                            0 <= c < post.completions_view().len() implies (
                        #[trigger] post.comp_key(c)) < post.fresh_ticket() by {
                            let pc: int = if c < i as int {
                                c
                            } else {
                                c + 1
                            };
                            assert(post.comp_key(c) == pre.comp_key(pc));
                            assert(pre.comp_key(pc) < pre.fresh_ticket());
                        }
                        assert forall|x: int, k: int, x2: int, k2: int|
                            #![trigger post.ticket_at(x, k), post.ticket_at(x2, k2)]
                            post.tidx_ok(x, k) && post.tidx_ok(x2, k2) && (x != x2 || k != k2)
                                implies post.ticket_at(x, k) != post.ticket_at(x2, k2) by {
                            assert(post.ticket_at(x, k) == pre.ticket_at(x, k));
                            assert(post.ticket_at(x2, k2) == pre.ticket_at(x2, k2));
                            assert(pre.tidx_ok(x, k) && pre.tidx_ok(x2, k2));
                            assert(pre.ticket_at(x, k) != pre.ticket_at(x2, k2));
                        }
                        assert forall|x: int, k: int| post.tidx_ok(x, k) implies (
                        #[trigger] post.ticket_at(x, k)) < post.fresh_ticket() by {
                            assert(post.ticket_at(x, k) == pre.ticket_at(x, k));
                            assert(pre.tidx_ok(x, k));
                        }
                        assert forall|x: int, k: int, c: int|
                            #![trigger post.ticket_at(x, k), post.comp_key(c)]
                            post.tidx_ok(x, k) && 0 <= c < post.completions_view().len() implies
                            post.ticket_at(x, k) != post.comp_key(c) by {
                            let pc: int = if c < i as int {
                                c
                            } else {
                                c + 1
                            };
                            assert(post.comp_key(c) == pre.comp_key(pc));
                            assert(post.ticket_at(x, k) == pre.ticket_at(x, k));
                            assert(pre.tidx_ok(x, k));
                            assert(pre.ticket_at(x, k) != pre.comp_key(pc));
                        }
                        assert forall|c: int, c2: int|
                            #![trigger post.comp_key(c), post.comp_key(c2)]
                            0 <= c < c2 < post.completions_view().len() implies post.comp_key(c)
                                != post.comp_key(c2) by {
                            let pc: int = if c < i as int {
                                c
                            } else {
                                c + 1
                            };
                            let pc2: int = if c2 < i as int {
                                c2
                            } else {
                                c2 + 1
                            };
                            assert(post.comp_key(c) == pre.comp_key(pc));
                            assert(post.comp_key(c2) == pre.comp_key(pc2));
                            assert(pc < pc2);
                            assert(pre.comp_key(pc) != pre.comp_key(pc2));
                        }
                    }
                    assert(post.wf());
                }
                match entry.1 {
                    Some(resp) => {
                        return Some(Ok(resp));
                    },
                    None => {
                        return Some(Err(SendError::NoResponse));
                    },
                }
            }
        }
        proof {
            assert(self.completions_view().take(0) =~= Seq::<(u64, Option<M::Response>)>::empty());
        }
        None
    }

    /// Kills the actor with the given id: it leaves the registry at once,
    /// its queued messages are discarded without being handled and their
    /// tickets resolve to `NoResponse`, and its `deinitialize` hook runs
    /// under the configured policy.  A missing id is a silent success; the
    /// id is never reused.  Name bindings pointing at the dead id stay and
    /// are filtered out on lookup.
    pub fn kill(&mut self, id: u64)
        requires
            old(self).wf(),
        ensures
            final(self).wf(),
            final(self).sys_id() == old(self).sys_id(),
            final(self).delegate_spec() == old(self).delegate_spec(),
            final(self).operating() == old(self).operating(),
            final(self).capacity_spec() == old(self).capacity_spec(),
            final(self).policy_spec() == old(self).policy_spec(),
            final(self).bindings() == old(self).bindings(),
            final(self).fresh_id() == old(self).fresh_id(),
            final(self).fresh_ticket() == old(self).fresh_ticket(),
            !final(self).live(id),
            forall|x: u64| x != id ==> final(self).live(x) == old(self).live(x),
            !old(self).live(id) ==> *final(self) == *old(self),
            old(self).live(id) ==> ({
                let i = old(self).index_of(id);
                &&& final(self).sups() == old(self).sups().remove(i)
                &&& forall|j: int|
                    0 <= j < old(self).sups()[i].tickets().len()
                        ==> #[trigger] final(self).resolution(old(self).sups()[i].tickets()[j])
                        == Some(None::<M::Response>)
                &&& forall|tk: u64|
                    old(self).resolution(tk) is Some ==> #[trigger] final(self).resolution(tk)
                        == old(self).resolution(tk)
            }),
    {
        match self.find_index(id) {
            None => {},
            Some(i) => {
                let ghost pre = *self;
                proof {
                    Self::lemma_live_index(pre, id, i as int);
                }
                let mut sup = self.supervisors.remove(i);
                sup.discard_queue(&mut self.completions);
                sup.run_deinitialize();
                proof {
                    let post = *self;
                    let plen = pre.completions_view().len() as int;
                    let tickets = pre.sups()[i as int].tickets();
                    let ext = tickets.map_values(|t: u64| (t, None::<M::Response>));
                    assert(post.bindings() =~= pre.bindings());
                    assert(post.completions_view() == pre.completions_view() + ext);
                    assert forall|k: int| 0 <= k < ext.len() implies (#[trigger] ext[k]).0
                        == tickets[k] by {}
                    Self::lemma_wf_after_remove(pre, post, i as int, ext);
                    assert forall|j: int| 0 <= j < tickets.len() implies #[trigger] post.resolution(
                        tickets[j],
                    ) == Some(None::<M::Response>) by {
                        assert(post.completions_view()[plen + j] == ext[j]);
                        assert(ext[j] == (tickets[j], None::<M::Response>));
                        assert forall|c: int|
                            plen + j < c < post.completions_view().len() implies (
                        #[trigger] post.completions_view()[c]).0 != tickets[j] by {
                            assert(post.completions_view()[c] == ext[c - plen]);
                            assert(pre.ticket_at(i as int, c - plen) != pre.ticket_at(
                                i as int,
                                j,
                            ));
                        }
                        lemma_lookup_key_found(post.completions_view(), tickets[j], plen + j);
                    }
                    assert forall|tk: u64| pre.resolution(tk) is Some implies #[trigger]
                        post.resolution(tk) == pre.resolution(tk) by {
                        lemma_lookup_key_some_exists(pre.completions_view(), tk);
                        let c0 = choose|c0: int|
                            0 <= c0 < pre.completions_view().len() && (
                            #[trigger] pre.completions_view()[c0]).0 == tk;
                        assert(pre.comp_key(c0) == tk);
                        assert forall|j: int| 0 <= j < ext.len() implies (#[trigger] ext[j]).0
                            != tk by {
                            assert(pre.tidx_ok(i as int, j));
                            assert(pre.ticket_at(i as int, j) != pre.comp_key(c0));
                        }
                        lemma_lookup_key_append_other(pre.completions_view(), ext, tk);
                    }
                }
            },
        }
    }

    /// Shuts one actor down gracefully: the shutdown envelope goes to the
    /// back of its mailbox, every message before it is handled and answered
    /// in arrival order, then the actor leaves the registry and its
    /// `deinitialize` hook runs.  A missing id is a silent success.
    pub fn stop_actor(&mut self, id: u64) where A: Handler<M>
        requires
            old(self).wf(),
        ensures
            final(self).wf(),
            final(self).sys_id() == old(self).sys_id(),
            final(self).delegate_spec() == old(self).delegate_spec(),
            final(self).operating() == old(self).operating(),
            final(self).capacity_spec() == old(self).capacity_spec(),
            final(self).policy_spec() == old(self).policy_spec(),
            final(self).bindings() == old(self).bindings(),
            final(self).fresh_id() == old(self).fresh_id(),
            final(self).fresh_ticket() == old(self).fresh_ticket(),
            !final(self).live(id),
            forall|x: u64| x != id ==> final(self).live(x) == old(self).live(x),
            !old(self).live(id) ==> *final(self) == *old(self),
            old(self).live(id) ==> ({
                let i = old(self).index_of(id);
                &&& final(self).sups() == old(self).sups().remove(i)
                &&& forall|j: int|
                    0 <= j < old(self).sups()[i].tickets().len() ==> ((
                    #[trigger] final(self).resolution(old(self).sups()[i].tickets()[j])) matches
                        Some(Some(_)))
                &&& forall|tk: u64|
                    old(self).resolution(tk) is Some ==> #[trigger] final(self).resolution(tk)
                        == old(self).resolution(tk)
            }),
    {
        match self.find_index(id) {
            None => {},
            Some(i) => {
                let ghost pre = *self;
                proof {
                    Self::lemma_live_index(pre, id, i as int);
                }
                let mut sup = self.supervisors.remove(i);
                sup.drain_and_stop(&mut self.completions);
                sup.run_deinitialize();
                proof {
                    let post = *self;
                    let plen = pre.completions_view().len() as int;
                    let tickets = pre.sups()[i as int].tickets();
                    let ext = post.completions_view().skip(plen);
                    assert(post.bindings() =~= pre.bindings());
                    assert(post.completions_view() =~= pre.completions_view() + ext) by {
                        assert forall|c: int|
                            0 <= c < plen implies post.completions_view()[c]
                                == pre.completions_view()[c] by {
                            assert(post.completions_view().take(plen)[c] == post.completions_view()[
                                c
                            ]);
                        }
                    }
                    assert(ext.len() == tickets.len());
                    assert forall|k: int| 0 <= k < ext.len() implies (#[trigger] ext[k]).0
                        == tickets[k] && ext[k].1 is Some by {
                        assert(ext[k] == post.completions_view()[plen + k]);
                    }
                    Self::lemma_wf_after_remove(pre, post, i as int, ext);
                    assert forall|j: int| 0 <= j < tickets.len() implies (#[trigger]
                    post.resolution(tickets[j])) matches Some(Some(_)) by {
                        assert(post.completions_view()[plen + j] == ext[j]);
                        assert forall|c: int|
                            plen + j < c < post.completions_view().len() implies (
                        #[trigger] post.completions_view()[c]).0 != tickets[j] by {
                            assert(post.completions_view()[c] == ext[c - plen]);
                            assert(pre.ticket_at(i as int, c - plen) != pre.ticket_at(
                                i as int,
                                j,
                            ));
                        }
                        lemma_lookup_key_found(post.completions_view(), tickets[j], plen + j);
                        assert(post.resolution(tickets[j]) == Some(ext[j].1));
                    }
                    assert forall|tk: u64| pre.resolution(tk) is Some implies #[trigger]
                        post.resolution(tk) == pre.resolution(tk) by {
                        lemma_lookup_key_some_exists(pre.completions_view(), tk);
                        let c0 = choose|c0: int|
                            0 <= c0 < pre.completions_view().len() && (
                            #[trigger] pre.completions_view()[c0]).0 == tk;
                        assert(pre.comp_key(c0) == tk);
                        assert forall|j: int| 0 <= j < ext.len() implies (#[trigger] ext[j]).0
                            != tk by {
                            assert(pre.tidx_ok(i as int, j));
                            assert(pre.ticket_at(i as int, j) != pre.comp_key(c0));
                        }
                        lemma_lookup_key_append_other(pre.completions_view(), ext, tk);
                    }
                }
            },
        }
    }

    /// Shuts the whole system down: every actor is shut down gracefully in
    /// allocation order (queued messages are handled and answered first),
    /// both registry maps are cleared, and the system stops accepting
    /// operations for good.  Returns how many actors were shut down; a
    /// second shutdown is a no-op.  Afterwards no ticket is left pending:
    /// every send that was in flight has either its response or
    /// `NoResponse` on record.
    pub fn shutdown(&mut self) -> (count: usize) where A: Handler<M>
        requires
            old(self).wf(),
        ensures
            final(self).wf(),
            final(self).sys_id() == old(self).sys_id(),
            final(self).delegate_spec() == old(self).delegate_spec(),
            final(self).capacity_spec() == old(self).capacity_spec(),
            final(self).policy_spec() == old(self).policy_spec(),
            final(self).fresh_id() == old(self).fresh_id(),
            final(self).fresh_ticket() == old(self).fresh_ticket(),
            !old(self).operating() ==> *final(self) == *old(self) && count == 0,
            old(self).operating() ==> {
                &&& !final(self).operating()
                &&& final(self).sups().len() == 0
                &&& final(self).bindings().len() == 0
                &&& count == old(self).sups().len()
                &&& forall|x: u64| !final(self).live(x)
                &&& forall|tk: u64|
                    old(self).resolution(tk) is Some ==> #[trigger] final(self).resolution(tk)
                        == old(self).resolution(tk)
                &&& forall|i2: int, k: int|
                    old(self).tidx_ok(i2, k) ==> ((#[trigger] final(self).resolution(
                        old(self).ticket_at(i2, k),
                    )) matches Some(Some(_)))
            },
    {
        if !self.is_operating() {
            return 0;
        }
        let ghost orig = *old(self);
        let total: usize = self.supervisors.len();
        let mut done: usize = 0;
        proof {
            assert(self.sups() =~= orig.sups().skip(0));
        }
        while done < total
            invariant
                orig == *old(self),
                orig.wf(),
                orig.operating(),
                self.wf(),
                self.operating(),
                total == orig.sups().len(),
                0 <= done <= total,
                self.sups() == orig.sups().skip(done as int),
                self.sys_id() == orig.sys_id(),
                self.delegate_spec() == orig.delegate_spec(),
                self.capacity_spec() == orig.capacity_spec(),
                self.policy_spec() == orig.policy_spec(),
                self.bindings() == orig.bindings(),
                self.fresh_id() == orig.fresh_id(),
                self.fresh_ticket() == orig.fresh_ticket(),
                forall|tk: u64|
                    orig.resolution(tk) is Some ==> #[trigger] self.resolution(tk)
                        == orig.resolution(tk),
                forall|i2: int, k: int|
                    0 <= i2 < done && 0 <= k < orig.sups()[i2].tickets().len() ==> ((
                    #[trigger] self.resolution(orig.ticket_at(i2, k))) matches Some(Some(_))),
            decreases total - done,
        {
            let ghost loop_pre = *self;
            let id = self.supervisors[0].id();
            proof {
                assert(loop_pre.sups()[0] == orig.sups()[done as int]);
                Self::lemma_live_index(loop_pre, id, 0);
            }
            self.stop_actor(id);
            done = done + 1;
            proof {
                assert(self.sups() =~= orig.sups().skip(done as int)) by {
                    assert(self.sups() == loop_pre.sups().remove(0));
                    assert(loop_pre.sups().remove(0) =~= loop_pre.sups().drop_first());
                    assert(loop_pre.sups().drop_first() =~= orig.sups().skip(done as int));
                }
                assert forall|i2: int, k: int|
                    0 <= i2 < done && 0 <= k < orig.sups()[i2].tickets().len() implies (
                #[trigger] self.resolution(orig.ticket_at(i2, k))) matches Some(Some(_)) by {
                    if i2 < done - 1 {
                        assert(loop_pre.resolution(orig.ticket_at(i2, k)) matches Some(Some(_)));
                    } else {
                        assert(loop_pre.sups()[0].tickets() == orig.sups()[i2].tickets());
                        assert(orig.ticket_at(i2, k) == loop_pre.sups()[0].tickets()[k]);
                        assert(loop_pre.index_of(id) == 0);
                    }
                }
            }
        }
        let ghost mid = *self;
        self.names = Vec::new();
        self.phase = SystemPhase::Drained;
        proof {
            let post = *self;
            assert(post.bindings() =~= Seq::<(Seq<u8>, u64)>::empty());
            assert(post.sups() =~= orig.sups().skip(total as int));
            assert(post.sups().len() == 0);
            assert forall|c: int|
                0 <= c < post.completions_view().len() implies #[trigger] post.comp_key(c)
                    == mid.comp_key(c) by {}
            assert forall|tk: u64| post.resolution(tk) == mid.resolution(tk) by {}
            assert(post.tickets_wf()) by {
                assert forall|c: int|
                    0 <= c < post.completions_view().len() implies (#[trigger] post.comp_key(c))
                        < post.fresh_ticket() by {
                    assert(mid.comp_key(c) < mid.fresh_ticket());
                }
                assert forall|c: int, c2: int|
                    #![trigger post.comp_key(c), post.comp_key(c2)]
                    0 <= c < c2 < post.completions_view().len() implies post.comp_key(c)
                        != post.comp_key(c2) by {
                    assert(mid.comp_key(c) != mid.comp_key(c2));
                }
            }
            assert(post.wf());
            assert forall|x: u64| !post.live(x) by {}
        }
        total
    }
}

impl<A: Actor, M: Message, D> System<A, M, D> {
    /// The core invariant does not depend on the delegate: a system whose
    /// registry, response log and frontiers are unchanged stays well
    /// formed, with the same live actors.
    pub proof fn lemma_wf_same_core(pre: Self, post: Self)
        requires
            pre.wf(),
            post.sups() == pre.sups(),
            post.completions_view() == pre.completions_view(),
            post.bindings() == pre.bindings(),
            post.fresh_id() == pre.fresh_id(),
            post.fresh_ticket() == pre.fresh_ticket(),
            post.sys_id() == pre.sys_id(),
            post.operating() == pre.operating(),
        ensures
            post.wf(),
            forall|x: u64| post.live(x) == pre.live(x),
            forall|tk: u64| #[trigger] post.resolution(tk) == pre.resolution(tk),
    {
        assert forall|x: int, k: int| post.tidx_ok(x, k) implies pre.tidx_ok(x, k) && (
        #[trigger] post.ticket_at(x, k)) == pre.ticket_at(x, k) by {}
        assert forall|c: int|
            0 <= c < post.completions_view().len() implies (#[trigger] post.comp_key(c))
                == pre.comp_key(c) by {}
        assert forall|x: u64| post.live(x) == pre.live(x) by {
            if post.live(x) {
                let w = choose|w: int|
                    0 <= w < post.sups().len() && (#[trigger] post.sups()[w]).id_spec() == x;
                assert(pre.sups()[w].id_spec() == x);
            }
            if pre.live(x) {
                let w = choose|w: int|
                    0 <= w < pre.sups().len() && (#[trigger] pre.sups()[w]).id_spec() == x;
                assert(post.sups()[w].id_spec() == x);
            }
        }
        assert(post.wf());
    }

    /// What a local-shaped target resolves to: a live id, a name looked up
    /// and re-verified, or nothing.
    pub open spec fn spec_resolve_local(&self, t: IdentShape) -> Option<u64> {
        match t {
            IdentShape::Local(id) => if self.live(id) {
                Some(id)
            } else {
                None
            },
            IdentShape::LocalNamed(n) => self.actor_id_of(n),
            _ => None,
        }
    }

    /// Gets a handle to an actor known to reside on this system, with no
    /// serialisability constraint on its messages.  Answers `None` exactly
    /// when no actor with that id is live (always, after shutdown).
    pub fn get_local(&self, id: u64) -> (r: Option<LocalHandle>)
        ensures
            r is Some <==> self.live(id),
            r matches Some(h) ==> h.id_spec() == id,
    {
        match self.find_index(id) {
            Some(_) => Some(LocalHandle::new(id)),
            None => None,
        }
    }

    /// Whether the actor's mailbox is below its advisory capacity: the
    /// point at which an asynchronous embedding applies back-pressure
    /// before enqueueing more.  A missing actor has no room.
    pub fn has_capacity(&self, id: u64) -> (r: bool)
        requires
            self.wf(),
        ensures
            r <==> (self.live(id) && self.sups()[self.index_of(id)].msgs().len() < self.sups()[
                self.index_of(id)
            ].capacity_spec()),
    {
        match self.find_index(id) {
            Some(i) => {
                proof {
                    Self::lemma_live_index(*self, id, i as int);
                }
                self.supervisors[i].has_room()
            },
            None => false,
        }
    }

    /// Whether the target addresses an actor on another system: it carries
    /// a system prefix different from this system's id.
    pub fn is_foreign(&self, target: &Identifier) -> (r: bool)
        ensures
            r == spec_is_foreign(self.sys_id(), target@),
    {
        match target {
            Identifier::Local(_) => false,
            Identifier::LocalNamed(_) => false,
            Identifier::Foreign(sys, _) => !bytes_eq(sys, &self.system_id),
            Identifier::ForeignNamed(sys, _) => !bytes_eq(sys, &self.system_id),
        }
    }

    /// The unified lookup over local and foreign targets.  A target of this
    /// system (with or without the `system:` prefix) resolves against the
    /// registry, names re-verified; a foreign target is offered to the
    /// delegate, and a delegate miss is `None`.
    pub fn get(&self, target: &Identifier) -> (r: Option<MessageSender>) where D: Delegate
        ensures
            !spec_is_foreign(self.sys_id(), target@) ==> match self.spec_resolve_local(
                pop_shape(target@),
            ) {
                Some(id) => r matches Some(MessageSender::Local(h)) && h.id_spec() == id,
                None => r is None,
            },
            spec_is_foreign(self.sys_id(), target@) ==> (r is None || (r matches Some(
                MessageSender::Foreign(t),
            ) && t@ == target@)),
    {
        if self.is_foreign(target) {
            if self.delegate.knows(target) {
                Some(MessageSender::Foreign(target.duplicate()))
            } else {
                None
            }
        } else {
            let id_opt: Option<u64> = match target {
                Identifier::Local(id) => match self.find_index(*id) {
                    Some(_) => Some(*id),
                    None => None,
                },
                Identifier::Foreign(_, id) => match self.find_index(*id) {
                    Some(_) => Some(*id),
                    None => None,
                },
                Identifier::LocalNamed(name) => self.get_actor_id(name),
                Identifier::ForeignNamed(_, name) => self.get_actor_id(name),
            };
            match id_opt {
                Some(id) => Some(MessageSender::Local(LocalHandle::new(id))),
                None => None,
            }
        }
    }

    /// Sends a message to a foreign actor through the delegate: the
    /// message is encoded, the delegate performs one transport round trip,
    /// and the reply is decoded into the response.  Transport faults map to
    /// `Transport`, encode and decode failures to `Serialization`; the
    /// registry is untouched either way.
    pub fn request_foreign(&mut self, target: &Identifier, message: M) -> (r: Result<
        M::Response,
        SendError,
    >) where M: WireMessage, D: Delegate
        requires
            old(self).wf(),
        ensures
            final(self).wf(),
            final(self).sys_id() == old(self).sys_id(),
            final(self).operating() == old(self).operating(),
            final(self).capacity_spec() == old(self).capacity_spec(),
            final(self).policy_spec() == old(self).policy_spec(),
            final(self).sups() == old(self).sups(),
            final(self).bindings() == old(self).bindings(),
            final(self).completions_view() == old(self).completions_view(),
            final(self).fresh_id() == old(self).fresh_id(),
            final(self).fresh_ticket() == old(self).fresh_ticket(),
            forall|x: u64| final(self).live(x) == old(self).live(x),
            forall|tk: u64| #[trigger] final(self).resolution(tk) == old(self).resolution(tk),
            r is Err ==> ((r matches Err(SendError::Transport(_))) || r == Err::<
                M::Response,
                SendError,
            >(SendError::Serialization)),
    {
        let ghost pre = *self;
        let r = match message.encode() {
            None => Err(SendError::Serialization),
            Some(bytes) => {
                let outcome = self.delegate.round_trip(target, bytes);
                match crate::foreign::map_transport(outcome) {
                    Err(e) => Err(e),
                    Ok(reply) => crate::foreign::map_decode(M::decode_response(&reply)),
                }
            },
        };
        proof {
            Self::lemma_wf_same_core(pre, *self);
        }
        r
    }

    /// Relays an arriving foreign envelope.  A target prefixed with this
    /// system's id is stripped to its local form.  A target still foreign
    /// after that is forwarded one way through the delegate.  A local
    /// target is resolved (names re-verified), the payload decoded, and
    /// the message enqueued like any local send; the ticket of the queued
    /// message is returned so the embedding can collect the response.
    pub fn relay_foreign(&mut self, foreign: ForeignMessage) -> (r: Result<Option<u64>, SendError>) where
        M: WireMessage,
        D: Delegate,

        requires
            old(self).wf(),
            old(self).fresh_ticket() < u64::MAX,
        ensures
            final(self).wf(),
            final(self).sys_id() == old(self).sys_id(),
            final(self).operating() == old(self).operating(),
            final(self).capacity_spec() == old(self).capacity_spec(),
            final(self).policy_spec() == old(self).policy_spec(),
            final(self).bindings() == old(self).bindings(),
            final(self).fresh_id() == old(self).fresh_id(),
            forall|x: u64| final(self).live(x) == old(self).live(x),
            ({
                let t = if spec_is_foreign(old(self).sys_id(), foreign.target@) {
                    foreign.target@
                } else {
                    pop_shape(foreign.target@)
                };
                &&& (spec_is_foreign(old(self).sys_id(), t) ==> {
                    &&& (r == Ok::<Option<u64>, SendError>(None) || (r matches Err(
                        SendError::Transport(_),
                    )))
                    &&& final(self).sups() == old(self).sups()
                    &&& final(self).completions_view() == old(self).completions_view()
                    &&& final(self).fresh_ticket() == old(self).fresh_ticket()
                })
                &&& (!spec_is_foreign(old(self).sys_id(), t)
                    ==> match old(self).spec_resolve_local(t) {
                    None => {
                        &&& r == Err::<Option<u64>, SendError>(SendError::ActorGone)
                        &&& *final(self) == *old(self)
                    },
                    Some(id) => {
                        ||| (r == Err::<Option<u64>, SendError>(SendError::Serialization)
                            && *final(self) == *old(self))
                        ||| (r matches Ok(Some(tk)) && tk == old(self).fresh_ticket()
                            && final(self).ticket_queued(tk)
                            && final(self).fresh_ticket() == old(self).fresh_ticket() + 1)
                    },
                })
            }),
    {
        let ghost orig = *self;
        let msg = if self.is_foreign(foreign.get_target()) {
            foreign
        } else {
            foreign.pop_target()
        };
        if self.is_foreign(msg.get_target()) {
            let ghost pre = *self;
            let r = match self.delegate.forward(msg) {
                Ok(_) => Ok(None),
                Err(code) => Err(SendError::Transport(code)),
            };
            proof {
                Self::lemma_wf_same_core(pre, *self);
            }
            r
        } else {
            let ForeignMessage { target, payload } = msg;
            let id_opt: Option<u64> = match &target {
                Identifier::Local(id) => match self.find_index(*id) {
                    Some(_) => Some(*id),
                    None => None,
                },
                Identifier::LocalNamed(name) => self.get_actor_id(name),
                _ => None,
            };
            match id_opt {
                None => Err(SendError::ActorGone),
                Some(id) => {
                    match M::decode(&payload) {
                        None => Err(SendError::Serialization),
                        Some(m) => {
                            match self.post(id, m) {
                                Ok(tk) => {
                                    proof {
                                        let i = orig.index_of(id);
                                        assert(self.sups()[i].tickets().last() == tk);
                                        assert(self.sups()[i].tickets().contains(tk));
                                    }
                                    Ok(Some(tk))
                                },
                                Err(_) => {
                                    proof {
                                        assert(false);
                                    }
                                    Err(SendError::ActorGone)
                                },
                            }
                        },
                    }
                },
            }
        }
    }
}

impl<A: Actor, M: Message, D> System<A, M, D> {
    /// Id monotonicity: two successive adds hand out strictly increasing
    /// ids.  More generally, every id a system has ever returned is below
    /// its allocation frontier, the frontier never moves backwards, and
    /// each successful add returns the frontier itself — so the sequence
    /// of ids returned by any run of adds is strictly increasing.
    pub proof fn lemma_id_monotonicity(s0: Self, s1: Self, s2: Self, id1: u64, id2: u64)
        requires
            Self::add_rel(s0, s1, id1),
            Self::add_rel(s1, s2, id2),
        ensures
            id1 < id2,
    {
    }

    /// Every live id is below the allocation frontier: a fresh id can
    /// never collide with one already handed out.
    pub proof fn lemma_ids_below_frontier(s: Self)
        requires
            s.wf(),
        ensures
            forall|id: u64| #[trigger] s.live(id) ==> id < s.fresh_id(),
    {
        assert forall|id: u64| #[trigger] s.live(id) implies id < s.fresh_id() by {
            let w = choose|w: int|
                0 <= w < s.sups().len() && (#[trigger] s.sups()[w]).id_spec() == id;
            assert(s.sups()[w].id_spec() < s.fresh_id());
        }
    }

    /// Lookup round-trip: a name bound to a live id resolves back to that
    /// id, and the id resolves to a live handle.  After `add_named`
    /// returns `id`, its contract establishes both premises, so
    /// `get_actor_id` answers `Some(id)` and `get_local` answers a handle.
    pub proof fn lemma_lookup_round_trip(s: Self, name: Seq<u8>, id: u64)
        requires
            s.wf(),
            lookup_name(s.bindings(), name) == Some(id),
            s.live(id),
        ensures
            s.actor_id_of(name) == Some(id),
    {
    }

    /// Name overwrite: binding the same name twice leaves both actors
    /// alive, and the name resolves to the second id.  The premises are
    /// the contract of two successful `add_named` calls on the same name.
    pub proof fn lemma_name_overwrite(s0: Self, s1: Self, s2: Self, name: Seq<u8>, id1: u64, id2: u64)
        requires
            s2.wf(),
            Self::add_rel(s0, s1, id1),
            Self::add_rel(s1, s2, id2),
            s1.live(id1),
            lookup_name(s2.bindings(), name) == Some(id2),
            s2.live(id2),
            forall|x: u64| s2.live(x) <==> (s1.live(x) || x == id2),
        ensures
            id1 != id2,
            s2.live(id1),
            s2.live(id2),
            s2.actor_id_of(name) == Some(id2),
    {
        Self::lemma_id_monotonicity(s0, s1, s2, id1, id2);
    }

    /// At-most-once delivery: in a well-formed system every ticket appears
    /// at most once across all mailboxes and the response log.  A handler
    /// runs only when its ticket's envelope is popped from a mailbox, and
    /// the ticket then moves to the response log, so no message is ever
    /// delivered twice.
    pub proof fn lemma_at_most_once(s: Self)
        requires
            s.wf(),
        ensures
            forall|i: int, k: int, i2: int, k2: int|
                #![trigger s.ticket_at(i, k), s.ticket_at(i2, k2)]
                s.tidx_ok(i, k) && s.tidx_ok(i2, k2) && (i != i2 || k != k2) ==> s.ticket_at(
                    i,
                    k,
                ) != s.ticket_at(i2, k2),
            forall|i: int, k: int|
                s.tidx_ok(i, k) ==> #[trigger] s.resolution(s.ticket_at(i, k))
                    == None::<Option<M::Response>>,
    {
        assert forall|i: int, k: int| s.tidx_ok(i, k) implies #[trigger] s.resolution(
            s.ticket_at(i, k),
        ) == None::<Option<M::Response>> by {
            assert forall|c: int|
                0 <= c < s.completions_view().len() implies (
            #[trigger] s.completions_view()[c]).0 != s.ticket_at(i, k) by {
                assert(s.ticket_at(i, k) != s.comp_key(c));
            }
            lemma_lookup_key_absent(s.completions_view(), s.ticket_at(i, k));
        }
    }

    /// No post-shutdown delivery: once a system stops operating, no actor
    /// is live and no envelope is queued anywhere, so no handler can ever
    /// be invoked again; any send finds its target gone.
    pub proof fn lemma_no_post_shutdown(s: Self)
        requires
            s.wf(),
            !s.operating(),
        ensures
            forall|id: u64| !(#[trigger] s.live(id)),
            forall|tk: u64| !(#[trigger] s.ticket_queued(tk)),
            forall|name: Seq<u8>| #[trigger] s.actor_id_of(name) == None::<u64>,
    {
        assert(s.sups().len() == 0);
        assert forall|name: Seq<u8>| #[trigger] s.actor_id_of(name) == None::<u64> by {
            match lookup_name(s.bindings(), name) {
                Some(id) => {
                    assert(!s.live(id));
                },
                None => {},
            }
        }
    }
}

/// Compares two byte vectors for equality.
fn bytes_eq(a: &Vec<u8>, b: &Vec<u8>) -> (r: bool)
    ensures
        r <==> a@ == b@,
{
    if a.len() != b.len() {
        return false;
    }
    let n: usize = a.len();
    let mut i: usize = 0;
    while i < n
        invariant
            0 <= i <= n,
            n == a@.len(),
            n == b@.len(),
            forall|j: int| 0 <= j < i ==> a@[j] == b@[j],
        decreases n - i,
    {
        if a[i] != b[i] {
            return false;
        }
        i = i + 1;
    }
    proof {
        assert(a@ =~= b@);
    }
    true
}

} // verus!
