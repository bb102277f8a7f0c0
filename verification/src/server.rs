//! Connection registry and broadcast fan-out.
//!
//! [`SocketManager`] is the single authority over the set of live
//! connections: it assigns identifiers from a monotonic counter, keeps the
//! world-state store in step with the session table, and turns every
//! domain event into the exact list of messages to deliver. Delivery
//! itself is I/O and happens outside this crate; each operation returns
//! the [`Delivery`] list it requires, recipients never including the
//! event's origin.

use vstd::prelude::*;

use crate::state::UserState;
use crate::state::WorldState;
use crate::state::apply_move;
use crate::state::apply_rotate;
use crate::state::ids_of;
use crate::state::remove_id;
use crate::state::remove_user_spec;
use crate::state::states_in_range;
use crate::state::unique_ids;
use crate::vec3::vec3_zero_spec;
use crate::wire::init_msg_spec;
use crate::wire::join_msg_spec;
use crate::wire::leave_msg_spec;
use crate::wire::move_msg_spec;
use crate::wire::parse_vec3_spec;
use crate::wire::rotate_msg_spec;
use crate::wire::shoot_msg_spec;
use crate::wire::spec_tokens;
use crate::wire::append_bytes;
use crate::wire::build_init_msg;
use crate::wire::build_join_msg;
use crate::wire::build_leave_msg;
use crate::wire::build_move_msg;
use crate::wire::build_rotate_msg;
use crate::wire::build_shoot_msg;
use crate::wire::parse_vec3;
use crate::wire::tokenize;
use crate::vec3::Vec3;

verus! {

/// One outbound message: the recipient's identifier and the bytes to
/// send on that recipient's connection.
#[derive(Debug)]
pub struct Delivery {
    pub to: usize,
    pub payload: Vec<u8>,
}

impl View for Delivery {
    type V = (usize, Seq<u8>);

    open spec fn view(&self) -> (usize, Seq<u8>) {
        (self.to, self.payload@)
    }
}

/// The recipient/bytes pairs of a delivery list.
pub open spec fn deliveries_view(s: Seq<Delivery>) -> Seq<(usize, Seq<u8>)> {
    s.map_values(|d: Delivery| (d.to, d.payload@))
}

/// One message to every session except `skip`, in table order.
pub open spec fn broadcast_to(sessions: Seq<usize>, msg: Seq<u8>, skip: usize) -> Seq<
    (usize, Seq<u8>),
> {
    remove_id(sessions, skip).map_values(|x: usize| (x, msg))
}

/// The registry's abstract state: the session table, the identifier
/// counter, and the world-state store.
pub struct ManagerView {
    pub sessions: Seq<usize>,
    pub current_user_id: usize,
    pub world: Seq<UserState>,
}

/// The registry invariant: session identifiers are strictly increasing,
/// positive, and no larger than the counter; the store holds exactly the
/// registered identifiers, in table order, with in-range transforms.
pub open spec fn view_wf(v: ManagerView) -> bool {
    &&& forall|i: int, j: int| 0 <= i < j < v.sessions.len() ==> v.sessions[i] < v.sessions[j]
    &&& forall|i: int|
        0 <= i < v.sessions.len() ==> 1 <= #[trigger] v.sessions[i] <= v.current_user_id
    &&& ids_of(v.world) == v.sessions
    &&& states_in_range(v.world)
}

/// A connect: the next identifier is assigned; the newcomer alone gets
/// the init snapshot of the prior store; everyone already registered
/// gets the join broadcast; the newcomer starts with the zero transform.
pub open spec fn connect_t(v: ManagerView) -> (ManagerView, usize, Seq<(usize, Seq<u8>)>) {
    let id = (v.current_user_id + 1) as usize;
    let v2 = ManagerView {
        sessions: v.sessions.push(id),
        current_user_id: id,
        world: v.world.push(
            UserState { user_id: id, position: vec3_zero_spec(), rotation: vec3_zero_spec() },
        ),
    };
    let out = seq![(id, init_msg_spec(id, v.world))] + broadcast_to(
        v2.sessions,
        join_msg_spec(id),
        id,
    );
    (v2, id, out)
}

/// A disconnect: a registered identifier leaves the table and the store
/// and the others get the leave broadcast; an unknown identifier is a
/// no-op with no broadcast.
pub open spec fn disconnect_t(v: ManagerView, id: usize) -> (ManagerView, Seq<(usize, Seq<u8>)>) {
    if v.sessions.contains(id) {
        let v2 = ManagerView {
            sessions: remove_id(v.sessions, id),
            current_user_id: v.current_user_id,
            world: remove_user_spec(v.world, id),
        };
        (v2, broadcast_to(v2.sessions, leave_msg_spec(id), id))
    } else {
        (v, Seq::empty())
    }
}

/// A text event from a registered client: a move or rotate with a well
/// formed triple accumulates onto the store and is rebroadcast (tagged
/// with the sender, excluding the sender); a shoot with two payload
/// tokens is rebroadcast untouched; anything else — unknown tag,
/// malformed or missing payload, unregistered sender — is dropped.
pub open spec fn client_event_t(v: ManagerView, id: usize, text: Seq<u8>) -> (
    ManagerView,
    Seq<(usize, Seq<u8>)>,
) {
    if !v.sessions.contains(id) {
        (v, Seq::empty())
    } else {
        let toks = spec_tokens(text);
        if toks.len() >= 2 && toks[0] == seq![51u8] && parse_vec3_spec(toks[1]) is Some {
            let d = parse_vec3_spec(toks[1])->Some_0;
            let v2 = ManagerView { world: apply_move(v.world, id, d), ..v };
            (v2, broadcast_to(v.sessions, move_msg_spec(id, toks[1]), id))
        } else if toks.len() >= 2 && toks[0] == seq![52u8] && parse_vec3_spec(toks[1]) is Some {
            let d = parse_vec3_spec(toks[1])->Some_0;
            let v2 = ManagerView { world: apply_rotate(v.world, id, d), ..v };
            (v2, broadcast_to(v.sessions, rotate_msg_spec(id, toks[1]), id))
        } else if toks.len() >= 3 && toks[0] == seq![53u8] {
            (v, broadcast_to(v.sessions, shoot_msg_spec(id, toks[1], toks[2]), id))
        } else {
            (v, Seq::empty())
        }
    }
}

/// The live-connection registry.
#[derive(Debug)]
pub struct SocketManager {
    pub sessions: Vec<usize>,
    pub current_user_id: usize,
    pub world: WorldState,
}

impl View for SocketManager {
    type V = ManagerView;

    open spec fn view(&self) -> ManagerView {
        ManagerView {
            sessions: self.sessions@,
            current_user_id: self.current_user_id,
            world: self.world@,
        }
    }
}

proof fn lemma_wf_world(v: ManagerView)
    requires
        view_wf(v),
    ensures
        unique_ids(v.world),
        v.world.len() == v.sessions.len(),
{
    assert(forall|i: int|
        0 <= i < v.world.len() ==> #[trigger] ids_of(v.world)[i] == v.world[i].user_id);
    assert forall|i: int, j: int|
        0 <= i < j < v.world.len() implies v.world[i].user_id != v.world[j].user_id by {
        assert(ids_of(v.world)[i] == v.sessions[i]);
        assert(ids_of(v.world)[j] == v.sessions[j]);
    }
}

/// A copy of a message's bytes.
fn clone_bytes(src: &Vec<u8>) -> (r: Vec<u8>)
    ensures
        r@ == src@,
{
    let mut out: Vec<u8> = Vec::new();
    append_bytes(&mut out, src);
    out
}

proof fn lemma_remove_id_push(s: Seq<usize>, x: usize, id: usize)
    ensures
        remove_id(s.push(x), id) == if x == id {
            remove_id(s, id)
        } else {
            remove_id(s, id).push(x)
        },
    decreases s.len(),
{
    let p = s.push(x);
    assert(p.len() == s.len() + 1);
    if s.len() == 0 {
        assert(p[0] == x);
        assert(p.drop_first() =~= Seq::<usize>::empty());
        assert(remove_id(p.drop_first(), id) == Seq::<usize>::empty());
        if x == id {
            assert(remove_id(p, id) =~= remove_id(s, id));
        } else {
            assert(remove_id(p, id) == seq![x] + Seq::<usize>::empty());
            assert(remove_id(p, id) =~= remove_id(s, id).push(x));
        }
    } else {
        assert(p[0] == s[0]);
        lemma_remove_id_push(s.drop_first(), x, id);
        assert(p.drop_first() =~= s.drop_first().push(x));
        if x == id {
            assert(remove_id(p, id) =~= remove_id(s, id));
        } else {
            assert(remove_id(p, id) =~= remove_id(s, id).push(x));
        }
    }
}

/// What the exclusion set leaves: every remaining identifier is a
/// registered one other than `id`, each registered identifier other
/// than `id` remains, order and strict ordering are kept, and `id`
/// itself is gone.
pub proof fn lemma_remove_id_props(s: Seq<usize>, id: usize)
    ensures
        forall|k: int|
            0 <= k < remove_id(s, id).len() ==> #[trigger] remove_id(s, id)[k] != id && s.contains(
                remove_id(s, id)[k],
            ),
        forall|x: usize| s.contains(x) && x != id ==> remove_id(s, id).contains(x),
        !remove_id(s, id).contains(id),
        (forall|i: int, j: int| 0 <= i < j < s.len() ==> s[i] < s[j]) ==> (forall|i: int, j: int|
            0 <= i < j < remove_id(s, id).len() ==> remove_id(s, id)[i] < remove_id(s, id)[j]),
        !s.contains(id) ==> remove_id(s, id) == s,
    decreases s.len(),
{
    let r = remove_id(s, id);
    if s.len() == 0 {
        assert(!s.contains(id));
        assert(r =~= s);
    } else {
        let t = s.drop_first();
        lemma_remove_id_props(t, id);
        let rt = remove_id(t, id);
        assert(forall|k: int| 0 <= k < t.len() ==> #[trigger] t[k] == s[k + 1]);
        if forall|i: int, j: int| 0 <= i < j < s.len() ==> s[i] < s[j] {
            assert(forall|i: int, j: int| 0 <= i < j < t.len() ==> t[i] < t[j]);
        }
        assert forall|k: int|
            0 <= k < rt.len() && t.contains(#[trigger] rt[k]) implies s.contains(rt[k]) by {
            let m = choose|m: int| 0 <= m < t.len() && t[m] == rt[k];
            assert(s[m + 1] == rt[k]);
        }
        assert forall|x: usize| t.contains(x) implies s.contains(x) by {
            let m = choose|m: int| 0 <= m < t.len() && t[m] == x;
            assert(s[m + 1] == x);
        }
        if s[0] == id {
            assert(r == rt);
            assert forall|x: usize| s.contains(x) && x != id implies r.contains(x) by {
                let m = choose|m: int| 0 <= m < s.len() && s[m] == x;
                assert(m >= 1 && t[m - 1] == x);
                assert(t.contains(x));
                assert(rt.contains(x));
            }
            assert(s.contains(id)) by {
                assert(s[0] == id);
            }
        } else {
            assert(r == seq![s[0]] + rt);
            assert(r[0] == s[0]);
            assert(forall|k: int| 1 <= k < r.len() ==> #[trigger] r[k] == rt[k - 1]);
            assert(s.contains(s[0])) by {
                assert(s[0] == s[0]);
            }
            assert forall|x: usize| s.contains(x) && x != id implies r.contains(x) by {
                let m = choose|m: int| 0 <= m < s.len() && s[m] == x;
                if m == 0 {
                    assert(r[0] == x);
                } else {
                    assert(t[m - 1] == x);
                    assert(t.contains(x));
                    assert(rt.contains(x));
                    let k = choose|k: int| 0 <= k < rt.len() && rt[k] == x;
                    assert(r[k + 1] == x);
                }
            }
            assert(!r.contains(id)) by {
                if r.contains(id) {
                    let k = choose|k: int| 0 <= k < r.len() && r[k] == id;
                    assert(k >= 1 ==> rt[k - 1] == id && rt.contains(rt[k - 1]));
                }
            }
            if forall|i: int, j: int| 0 <= i < j < s.len() ==> s[i] < s[j] {
                assert forall|i: int, j: int|
                    0 <= i < j < r.len() implies r[i] < r[j] by {
                    if i == 0 {
                        assert(t.contains(rt[j - 1]));
                        let m = choose|m: int| 0 <= m < t.len() && t[m] == rt[j - 1];
                        assert(s[m + 1] == rt[j - 1]);
                        assert(s[0] < s[m + 1]);
                    }
                }
            }
            if !s.contains(id) {
                assert(!t.contains(id)) by {
                    if t.contains(id) {
                        let m = choose|m: int| 0 <= m < t.len() && t[m] == id;
                        assert(s[m + 1] == id);
                    }
                }
                assert(r =~= s);
            }
        }
    }
}

impl SocketManager {
    /// The registry invariant, over the abstract view.
    pub open spec fn wf(&self) -> bool {
        view_wf(self@)
    }

    /// A fresh registry: no sessions, no stored state, counter at zero.
    pub fn new() -> (r: SocketManager)
        ensures
            r@.sessions == Seq::<usize>::empty(),
            r@.current_user_id == 0,
            r@.world == Seq::<UserState>::empty(),
            r.wf(),
    {
        let r = SocketManager { sessions: Vec::new(), current_user_id: 0, world: WorldState::new() };
        proof {
            assert(ids_of(r@.world) =~= r@.sessions);
        }
        r
    }

    /// The message, addressed to every registered session but `skip_id`.
    #[verifier::loop_isolation(false)]
    pub fn emit_message(&self, message: &Vec<u8>, skip_id: usize) -> (r: Vec<Delivery>)
        ensures
            deliveries_view(r@) == broadcast_to(self@.sessions, message@, skip_id),
    {
        let n = self.sessions.len();
        let mut out: Vec<Delivery> = Vec::new();
        let mut i: usize = 0;
        proof {
            assert(self.sessions@.subrange(0, 0) =~= Seq::<usize>::empty());
            assert(deliveries_view(out@) =~= broadcast_to(
                self.sessions@.subrange(0, 0),
                message@,
                skip_id,
            ));
        }
        while i < n
            invariant
                0 <= i <= n,
                deliveries_view(out@) == broadcast_to(
                    self.sessions@.subrange(0, i as int),
                    message@,
                    skip_id,
                ),
            decreases n - i,
        {
            let ghost pre = self.sessions@.subrange(0, i as int);
            let ghost dpre = deliveries_view(out@);
            let sid = self.sessions[i];
            if sid != skip_id {
                out.push(Delivery { to: sid, payload: clone_bytes(message) });
            }
            proof {
                lemma_remove_id_push(pre, self.sessions@[i as int], skip_id);
                assert(pre.push(self.sessions@[i as int]) =~= self.sessions@.subrange(
                    0,
                    i as int + 1,
                ));
                if sid != skip_id {
                    assert(deliveries_view(out@) =~= dpre.push((sid, message@)));
                    assert(remove_id(pre, skip_id).push(sid).map_values(|x: usize| (x, message@))
                        =~= dpre.push((sid, message@)));
                }
                assert(deliveries_view(out@) =~= broadcast_to(
                    self.sessions@.subrange(0, i as int + 1),
                    message@,
                    skip_id,
                ));
            }
            i += 1;
        }
        proof {
            assert(self.sessions@.subrange(0, n as int) =~= self.sessions@);
        }
        out
    }

    /// Register a new connection and say what to send: the init snapshot
    /// to the newcomer, the join broadcast to everyone else.
    #[verifier::rlimit(60)]
    pub fn connect(&mut self) -> (r: (usize, Vec<Delivery>))
        requires
            old(self).wf(),
            old(self).current_user_id < usize::MAX,
        ensures
            final(self)@ == connect_t(old(self)@).0,
            r.0 == connect_t(old(self)@).1,
            deliveries_view(r.1@) == connect_t(old(self)@).2,
            final(self).wf(),
    {
        let ghost v0 = self@;
        let id = self.current_user_id + 1;
        self.current_user_id = id;
        let snapshot = self.world.get_all_users_states();
        let init = build_init_msg(id, &snapshot);
        let mut out: Vec<Delivery> = Vec::new();
        out.push(Delivery { to: id, payload: init });
        self.sessions.push(id);
        proof {
            lemma_wf_world(v0);
            assert(!ids_of(v0.world).contains(id)) by {
                if ids_of(v0.world).contains(id) {
                    let k = choose|k: int|
                        0 <= k < ids_of(v0.world).len() && ids_of(v0.world)[k] == id;
                    assert(v0.sessions[k] == id);
                }
            }
        }
        proof {
            assert forall|j: int|
                0 <= j < v0.world.len() implies (#[trigger] v0.world[j]).user_id != id by {
                assert(ids_of(v0.world)[j] == v0.world[j].user_id);
                assert(v0.sessions[j] == ids_of(v0.world)[j]);
                assert(v0.sessions[j] <= v0.current_user_id);
            }
        }
        self.world.update_user_position(id, Vec3::zero());
        proof {
            assert(self@.world == connect_t(v0).0.world);
            assert(ids_of(self@.world) =~= v0.sessions.push(id));
        }
        let join = build_join_msg(id);
        let more = self.emit_message(&join, id);
        let ghost dv = deliveries_view(more@);
        let mut all = out;
        let mut rest = more;
        let mut k: usize = 0;
        let nrest = rest.len();
        while k < nrest
            invariant
                0 <= k <= nrest,
                nrest == rest@.len(),
                deliveries_view(rest@) == dv,
                all@.len() == 1 + k,
                deliveries_view(all@) == seq![(id as usize, init_msg_spec(id, v0.world))]
                    + dv.subrange(0, k as int),
            decreases nrest - k,
        {
            let dk = &rest[k];
            let ghost dprev = deliveries_view(all@);
            let d = Delivery { to: dk.to, payload: clone_bytes(&dk.payload) };
            let ghost dview = (d.to, d.payload@);
            all.push(d);
            proof {
                assert(deliveries_view(rest@)[k as int] == (rest@[k as int].to,
                rest@[k as int].payload@));
                assert(dview == dv[k as int]);
                assert(deliveries_view(all@) =~= dprev.push(dview));
                assert(dv.subrange(0, k as int + 1) =~= dv.subrange(0, k as int).push(
                    dv[k as int],
                ));
                assert(deliveries_view(all@) =~= seq![(id as usize, init_msg_spec(id, v0.world))]
                    + dv.subrange(0, k as int + 1));
            }
            k += 1;
        }
        proof {
            assert(dv.subrange(0, nrest as int) =~= dv);
            assert(deliveries_view(all@) =~= connect_t(v0).2);
            assert(final(self)@.sessions == connect_t(v0).0.sessions);
            assert(view_wf(self@)) by {
                assert(forall|i: int|
                    0 <= i < v0.sessions.len() ==> #[trigger] v0.sessions[i] <= v0.current_user_id);
            }
        }
        (id, all)
    }

    /// Drop a connection and say what to send: the leave broadcast to
    /// every remaining session. Disconnecting an unknown identifier is a
    /// quiet no-op.
    pub fn disconnect(&mut self, id: usize) -> (r: Vec<Delivery>)
        requires
            old(self).wf(),
        ensures
            final(self)@ == disconnect_t(old(self)@, id).0,
            deliveries_view(r@) == disconnect_t(old(self)@, id).1,
            final(self).wf(),
    {
        let ghost v0 = self@;
        let n = self.sessions.len();
        let mut found = false;
        let mut i: usize = 0;
        while i < n
            invariant
                0 <= i <= n,
                n == self.sessions@.len(),
                found <==> exists|j: int| 0 <= j < i && self.sessions@[j] == id,
            decreases n - i,
        {
            if self.sessions[i] == id {
                found = true;
            }
            i += 1;
        }
        if !found {
            proof {
                assert(!v0.sessions.contains(id));
                assert(deliveries_view(Seq::<Delivery>::empty()) =~= Seq::<
                    (usize, Seq<u8>),
                >::empty());
            }
            let out: Vec<Delivery> = Vec::new();
            return out;
        }
        proof {
            assert(v0.sessions.contains(id));
        }
        let mut kept: Vec<usize> = Vec::new();
        let mut k: usize = 0;
        while k < n
            invariant
                0 <= k <= n,
                n == self.sessions@.len(),
                self.sessions@ == v0.sessions,
                kept@ == remove_id(v0.sessions.subrange(0, k as int), id),
            decreases n - k,
        {
            proof {
                lemma_remove_id_push(v0.sessions.subrange(0, k as int), v0.sessions[k as int], id);
                assert(v0.sessions.subrange(0, k as int).push(v0.sessions[k as int])
                    =~= v0.sessions.subrange(0, k as int + 1));
            }
            let sid = self.sessions[k];
            if sid != id {
                kept.push(sid);
            }
            k += 1;
        }
        proof {
            assert(v0.sessions.subrange(0, n as int) =~= v0.sessions);
        }
        self.sessions = kept;
        proof {
            lemma_wf_world(v0);
        }
        self.world.remove_user_position(id);
        proof {
            crate::state::lemma_remove_user_props(v0.world, id);
            lemma_remove_id_props(v0.sessions, id);
            assert(view_wf(self@));
        }
        let leave = build_leave_msg(id);
        let out = self.emit_message(&leave, id);
        out
    }

    /// Apply one text event from client `id` and say what to send.
    #[verifier::rlimit(60)]
    pub fn client_message(&mut self, id: usize, text: &Vec<u8>) -> (r: Vec<Delivery>)
        requires
            old(self).wf(),
        ensures
            final(self)@ == client_event_t(old(self)@, id, text@).0,
            deliveries_view(r@) == client_event_t(old(self)@, id, text@).1,
            final(self).wf(),
    {
        let ghost v0 = self@;
        let n = self.sessions.len();
        let mut found = false;
        let mut i: usize = 0;
        while i < n
            invariant
                0 <= i <= n,
                n == self.sessions@.len(),
                found <==> exists|j: int| 0 <= j < i && self.sessions@[j] == id,
            decreases n - i,
        {
            if self.sessions[i] == id {
                found = true;
            }
            i += 1;
        }
        if !found {
            proof {
                assert(!v0.sessions.contains(id));
                assert(deliveries_view(Seq::<Delivery>::empty()) =~= Seq::<
                    (usize, Seq<u8>),
                >::empty());
            }
            let out: Vec<Delivery> = Vec::new();
            return out;
        }
        proof {
            assert(v0.sessions.contains(id));
            lemma_wf_world(v0);
        }
        let toks = tokenize(text);
        let ghost tv = spec_tokens(text@);
        if toks.len() < 2 {
            proof {
                assert(deliveries_view(Seq::<Delivery>::empty()) =~= Seq::<
                    (usize, Seq<u8>),
                >::empty());
            }
            let out: Vec<Delivery> = Vec::new();
            return out;
        }
        let tag = &toks[0];
        let is_move = tag.len() == 1 && tag[0] == 51;
        let is_rotate = tag.len() == 1 && tag[0] == 52;
        let is_shoot = tag.len() == 1 && tag[0] == 53;
        proof {
            assert(toks@.map_values(|t2: Vec<u8>| t2@)[0] == toks@[0]@);
            assert(toks@.map_values(|t2: Vec<u8>| t2@)[1] == toks@[1]@);
            assert(toks@[0]@ == tv[0]);
            assert(toks@[1]@ == tv[1]);
            assert(is_move <==> tv[0] == seq![51u8]) by {
                if tv[0] == seq![51u8] {
                    assert(tv[0].len() == 1 && tv[0][0] == 51);
                }
                if is_move {
                    assert(tv[0] =~= seq![51u8]);
                }
            }
            assert(is_rotate <==> tv[0] == seq![52u8]) by {
                if tv[0] == seq![52u8] {
                    assert(tv[0].len() == 1 && tv[0][0] == 52);
                }
                if is_rotate {
                    assert(tv[0] =~= seq![52u8]);
                }
            }
            assert(is_shoot <==> tv[0] == seq![53u8]) by {
                if tv[0] == seq![53u8] {
                    assert(tv[0].len() == 1 && tv[0][0] == 53);
                }
                if is_shoot {
                    assert(tv[0] =~= seq![53u8]);
                }
            }
        }
        if is_move {
            let data = &toks[1];
            match parse_vec3(data) {
                Some(d) => {
                    self.world.update_user_position(id, d);
                    proof {
                        assert(ids_of(v0.world).contains(id));
                        assert(view_wf(self@));
                    }
                    let msg = build_move_msg(id, data);
                    let out = self.emit_message(&msg, id);
                    return out;
                },
                None => {
                    proof {
                        assert(deliveries_view(Seq::<Delivery>::empty()) =~= Seq::<
                            (usize, Seq<u8>),
                        >::empty());
                    }
                    let out: Vec<Delivery> = Vec::new();
                    return out;
                },
            }
        }
        if is_rotate {
            let data = &toks[1];
            match parse_vec3(data) {
                Some(d) => {
                    self.world.update_user_rotation(id, d);
                    proof {
                        assert(ids_of(v0.world).contains(id));
                        assert(view_wf(self@));
                    }
                    let msg = build_rotate_msg(id, data);
                    let out = self.emit_message(&msg, id);
                    return out;
                },
                None => {
                    proof {
                        assert(deliveries_view(Seq::<Delivery>::empty()) =~= Seq::<
                            (usize, Seq<u8>),
                        >::empty());
                    }
                    let out: Vec<Delivery> = Vec::new();
                    return out;
                },
            }
        }
        if is_shoot && toks.len() >= 3 {
            proof {
                assert(toks@.map_values(|t2: Vec<u8>| t2@)[2] == toks@[2]@);
                assert(toks@[2]@ == tv[2]);
            }
            let msg = build_shoot_msg(id, &toks[1], &toks[2]);
            let out = self.emit_message(&msg, id);
            return out;
        }
        proof {
            assert(deliveries_view(Seq::<Delivery>::empty()) =~= Seq::<(usize, Seq<u8>)>::empty());
        }
        let out: Vec<Delivery> = Vec::new();
        return out;
    }
}

/// Self-exclusion and completeness of the fan-out: a broadcast
/// excluding `skip` reaches every registered session but `skip`, each
/// with the same bytes, and never `skip` itself.
pub proof fn lemma_broadcast_self_exclusion(sessions: Seq<usize>, msg: Seq<u8>, skip: usize)
    ensures
        forall|k: int|
            0 <= k < broadcast_to(sessions, msg, skip).len() ==> (#[trigger] broadcast_to(
                sessions,
                msg,
                skip,
            )[k]).0 != skip && sessions.contains(broadcast_to(sessions, msg, skip)[k].0)
                && broadcast_to(sessions, msg, skip)[k].1 == msg,
        forall|x: usize|
            sessions.contains(x) && x != skip ==> exists|k: int|
                0 <= k < broadcast_to(sessions, msg, skip).len() && broadcast_to(
                    sessions,
                    msg,
                    skip,
                )[k] == (x, msg),
{
    lemma_remove_id_props(sessions, skip);
    let r = remove_id(sessions, skip);
    let b = broadcast_to(sessions, msg, skip);
    assert(forall|k: int| 0 <= k < b.len() ==> #[trigger] b[k] == (r[k], msg));
    assert forall|x: usize| sessions.contains(x) && x != skip implies exists|k: int|
        0 <= k < b.len() && b[k] == (x, msg) by {
        assert(r.contains(x));
        let k = choose|k: int| 0 <= k < r.len() && r[k] == x;
        assert(b[k] == (x, msg));
    }
}

/// Join snapshot completeness: the newcomer alone receives the init
/// message, whose snapshot holds exactly the identifiers registered at
/// that moment (each entry being the store's current accumulated
/// state); everyone registered before the join receives the join
/// broadcast, and the newcomer never does.
pub proof fn lemma_join_snapshot_completeness(v: ManagerView)
    requires
        view_wf(v),
        v.current_user_id < usize::MAX,
    ensures
        connect_t(v).2[0] == ((v.current_user_id + 1) as usize, init_msg_spec(
            (v.current_user_id + 1) as usize,
            v.world,
        )),
        ids_of(v.world) == v.sessions,
        !v.sessions.contains(connect_t(v).1),
        connect_t(v).2.len() == 1 + v.sessions.len(),
        forall|k: int|
            1 <= k < connect_t(v).2.len() ==> (#[trigger] connect_t(v).2[k]) == (
                v.sessions[k - 1],
                join_msg_spec(connect_t(v).1),
            ) && connect_t(v).2[k].0 != connect_t(v).1,
        view_wf(connect_t(v).0),
{
    let id = (v.current_user_id + 1) as usize;
    assert(!v.sessions.contains(id)) by {
        if v.sessions.contains(id) {
            let k = choose|k: int| 0 <= k < v.sessions.len() && v.sessions[k] == id;
            assert(v.sessions[k] <= v.current_user_id);
        }
    }
    lemma_remove_id_push(v.sessions, id, id);
    lemma_remove_id_props(v.sessions, id);
    assert(remove_id(v.sessions.push(id), id) == v.sessions);
    let b = broadcast_to(v.sessions.push(id), join_msg_spec(id), id);
    assert(forall|k: int| 0 <= k < b.len() ==> #[trigger] b[k] == (v.sessions[k], join_msg_spec(
        id,
    )));
    assert(forall|k: int|
        1 <= k < connect_t(v).2.len() ==> #[trigger] connect_t(v).2[k] == b[k - 1]);
    assert forall|k: int|
        1 <= k < connect_t(v).2.len() implies (#[trigger] connect_t(v).2[k]) == (
        v.sessions[k - 1],
        join_msg_spec(connect_t(v).1),
    ) && connect_t(v).2[k].0 != connect_t(v).1 by {
        assert(v.sessions[k - 1] <= v.current_user_id);
    }
    let w2 = connect_t(v).0.world;
    let u = UserState { user_id: id, position: vec3_zero_spec(), rotation: vec3_zero_spec() };
    assert(ids_of(w2) =~= v.sessions.push(id));
    assert(states_in_range(w2)) by {
        assert(forall|i: int| 0 <= i < v.world.len() ==> #[trigger] w2[i] == v.world[i]);
        assert(w2[v.world.len() as int] == u);
    }
}

/// Cleanup on disconnect: after a disconnect the identifier is gone
/// from the session table and from the store, so no later snapshot can
/// carry it; the registry invariant is kept.
pub proof fn lemma_cleanup_on_disconnect(v: ManagerView, id: usize)
    requires
        view_wf(v),
    ensures
        !disconnect_t(v, id).0.sessions.contains(id),
        !ids_of(disconnect_t(v, id).0.world).contains(id),
        crate::state::find_user(disconnect_t(v, id).0.world, id) is None,
        view_wf(disconnect_t(v, id).0),
{
    let (v2, out) = disconnect_t(v, id);
    if v.sessions.contains(id) {
        lemma_wf_world(v);
        lemma_remove_id_props(v.sessions, id);
        crate::state::lemma_remove_user_props(v.world, id);
        assert(ids_of(v2.world) == remove_id(v.sessions, id));
        assert forall|i: int|
            0 <= i < v2.sessions.len() implies 1 <= #[trigger] v2.sessions[i]
            <= v2.current_user_id by {
            assert(v.sessions.contains(v2.sessions[i]));
            let m = choose|m: int| 0 <= m < v.sessions.len() && v.sessions[m] == v2.sessions[i];
            assert(v.sessions[m] <= v.current_user_id);
        }
        assert(states_in_range(v2.world)) by {
            assert(states_in_range(v.world));
        }
    } else {
        assert(v2 == v);
        assert(!ids_of(v.world).contains(id));
        assert forall|j: int|
            0 <= j < v.world.len() implies (#[trigger] v.world[j]).user_id != id by {
            assert(ids_of(v.world)[j] == v.world[j].user_id);
            assert(ids_of(v.world).contains(ids_of(v.world)[j]));
        }
        crate::state::lemma_find_user_absent(v.world, id);
    }
}

/// Double disconnect safety: a second disconnect of the same identifier
/// changes nothing and broadcasts nothing.
pub proof fn lemma_double_disconnect(v: ManagerView, id: usize)
    requires
        view_wf(v),
    ensures
        disconnect_t(disconnect_t(v, id).0, id).0 == disconnect_t(v, id).0,
        disconnect_t(disconnect_t(v, id).0, id).1 == Seq::<(usize, Seq<u8>)>::empty(),
{
    lemma_cleanup_on_disconnect(v, id);
}

/// Heartbeat timeout teardown: disconnecting a registered identifier
/// broadcasts its leave message to every other registered session — and
/// to no one else, never to the departed identifier itself.
pub proof fn lemma_timeout_disconnect_broadcast(v: ManagerView, id: usize)
    requires
        view_wf(v),
        v.sessions.contains(id),
    ensures
        forall|k: int|
            0 <= k < disconnect_t(v, id).1.len() ==> (#[trigger] disconnect_t(v, id).1[k]).0 != id
                && v.sessions.contains(disconnect_t(v, id).1[k].0) && disconnect_t(v, id).1[k].1
                == leave_msg_spec(id),
        forall|x: usize|
            v.sessions.contains(x) && x != id ==> exists|k: int|
                0 <= k < disconnect_t(v, id).1.len() && disconnect_t(v, id).1[k] == (
                    x,
                    leave_msg_spec(id),
                ),
{
    let v2 = disconnect_t(v, id).0;
    let out = disconnect_t(v, id).1;
    lemma_remove_id_props(v.sessions, id);
    lemma_remove_id_props(v2.sessions, id);
    assert(!v2.sessions.contains(id));
    assert(remove_id(v2.sessions, id) == v2.sessions);
    assert(forall|k: int| 0 <= k < out.len() ==> #[trigger] out[k] == (v2.sessions[k],
    leave_msg_spec(id)));
    assert forall|k: int|
        0 <= k < out.len() implies (#[trigger] out[k]).0 != id && v.sessions.contains(out[k].0)
        && out[k].1 == leave_msg_spec(id) by {
        assert(v2.sessions[k] != id);
        assert(v.sessions.contains(v2.sessions[k]));
    }
    assert forall|x: usize| v.sessions.contains(x) && x != id implies exists|k: int|
        0 <= k < out.len() && out[k] == (x, leave_msg_spec(id)) by {
        assert(v2.sessions.contains(x));
        let k = choose|k: int| 0 <= k < v2.sessions.len() && v2.sessions[k] == x;
        assert(out[k] == (x, leave_msg_spec(id)));
    }
}

/// Unknown-tag resilience: a text event whose tag is not a move, rotate
/// or shoot — or which lacks its payload tokens — changes no state and
/// broadcasts nothing, whoever sent it.
pub proof fn lemma_unknown_tag_resilience(v: ManagerView, id: usize, text: Seq<u8>)
    requires
        ({
            let toks = spec_tokens(text);
            ||| toks.len() < 2
            ||| (toks[0] != seq![51u8] && toks[0] != seq![52u8] && (toks[0] != seq![53u8]
                || toks.len() < 3))
        }),
    ensures
        client_event_t(v, id, text).0 == v,
        client_event_t(v, id, text).1 == Seq::<(usize, Seq<u8>)>::empty(),
{
}

} // verus!
