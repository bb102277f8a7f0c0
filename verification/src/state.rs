//! World-state store: the volatile per-user transform aggregate.
//!
//! Each user is one [`UserState`] entry; position and rotation updates are
//! additive deltas onto the stored vectors (saturating at the coordinate
//! bounds), a user's entry defaults to the zero transform the first time
//! the identifier is seen, and an entry is removed exactly when the owning
//! connection goes away.

use vstd::prelude::*;

use crate::vec3::Vec3;
use crate::vec3::vec3_add_spec;
use crate::vec3::vec3_in_range;
use crate::vec3::vec3_zero_spec;

verus! {

/// Accumulated transform of one user.
#[derive(Clone, Copy, Debug, PartialEq, Eq, Structural)]
pub struct UserState {
    pub user_id: usize,
    pub position: Vec3,
    pub rotation: Vec3,
}

/// The identifiers of a sequence of user states, in storage order.
pub open spec fn ids_of(s: Seq<UserState>) -> Seq<usize> {
    s.map_values(|u: UserState| u.user_id)
}

/// No two entries share an identifier.
pub open spec fn unique_ids(s: Seq<UserState>) -> bool {
    forall|i: int, j: int|
        0 <= i < j < s.len() ==> s[i].user_id != s[j].user_id
}

/// Every stored transform is within the coordinate bounds.
pub open spec fn states_in_range(s: Seq<UserState>) -> bool {
    forall|i: int|
        0 <= i < s.len() ==> vec3_in_range(#[trigger] s[i].position) && vec3_in_range(
            s[i].rotation,
        )
}

/// The entry for `id`, if any: the first entry whose identifier is `id`.
pub open spec fn find_user(s: Seq<UserState>, id: usize) -> Option<UserState>
    decreases s.len(),
{
    if s.len() == 0 {
        None
    } else if s[0].user_id == id {
        Some(s[0])
    } else {
        find_user(s.drop_first(), id)
    }
}

/// Update the entry for `id` with `f` if present; otherwise append
/// `fresh` at the end.
pub open spec fn upsert_user(
    s: Seq<UserState>,
    id: usize,
    f: spec_fn(UserState) -> UserState,
    fresh: UserState,
) -> Seq<UserState>
    decreases s.len(),
{
    if s.len() == 0 {
        seq![fresh]
    } else if s[0].user_id == id {
        seq![f(s[0])] + s.drop_first()
    } else {
        seq![s[0]] + upsert_user(s.drop_first(), id, f, fresh)
    }
}

/// The store after a move event: `delta` is added onto the stored
/// position (an absent user starts from the zero transform).
pub open spec fn apply_move(s: Seq<UserState>, id: usize, delta: Vec3) -> Seq<UserState> {
    upsert_user(
        s,
        id,
        |u: UserState| UserState { position: vec3_add_spec(u.position, delta), ..u },
        UserState { user_id: id, position: delta, rotation: vec3_zero_spec() },
    )
}

/// The store after a rotate event: `delta` is added onto the stored
/// rotation.
pub open spec fn apply_rotate(s: Seq<UserState>, id: usize, delta: Vec3) -> Seq<UserState> {
    upsert_user(
        s,
        id,
        |u: UserState| UserState { rotation: vec3_add_spec(u.rotation, delta), ..u },
        UserState { user_id: id, position: vec3_zero_spec(), rotation: delta },
    )
}

/// The store with any entry for `id` removed; other entries keep their
/// order.
pub open spec fn remove_user_spec(s: Seq<UserState>, id: usize) -> Seq<UserState>
    decreases s.len(),
{
    if s.len() == 0 {
        Seq::empty()
    } else if s[0].user_id == id {
        remove_user_spec(s.drop_first(), id)
    } else {
        seq![s[0]] + remove_user_spec(s.drop_first(), id)
    }
}

/// Volatile store of every user's accumulated transform.
#[derive(Debug)]
pub struct WorldState {
    pub users: Vec<UserState>,
}

impl View for WorldState {
    type V = Seq<UserState>;

    open spec fn view(&self) -> Seq<UserState> {
        self.users@
    }
}

impl WorldState {
    /// The store is well formed: identifiers are unique and transforms
    /// are in range.
    pub open spec fn wf(&self) -> bool {
        &&& unique_ids(self@)
        &&& states_in_range(self@)
    }

    /// An empty store.
    pub fn new() -> (r: WorldState)
        ensures
            r@ == Seq::<UserState>::empty(),
            r.wf(),
    {
        WorldState { users: Vec::new() }
    }

    /// Add `position` onto the stored position of `user_id`
    /// (zero-defaulting when absent).
    #[verifier::loop_isolation(false)]
    pub fn update_user_position(&mut self, user_id: usize, position: Vec3)
        requires
            old(self).wf(),
            vec3_in_range(position),
        ensures
            final(self)@ == apply_move(old(self)@, user_id, position),
            final(self).wf(),
            ids_of(final(self)@) == if ids_of(old(self)@).contains(user_id) {
                ids_of(old(self)@)
            } else {
                ids_of(old(self)@).push(user_id)
            },
            (forall|j: int| 0 <= j < old(self)@.len() ==> (#[trigger] old(self)@[j]).user_id
                != user_id) ==> final(self)@ == old(self)@.push(
                UserState { user_id, position, rotation: vec3_zero_spec() },
            ),
    {
        let ghost s0 = self.users@;
        let ghost f = |u: UserState| UserState { position: vec3_add_spec(u.position, position), ..u };
        let ghost fresh = UserState {
            user_id,
            position,
            rotation: vec3_zero_spec(),
        };
        let n = self.users.len();
        let mut i: usize = 0;
        while i < n
            invariant
                n == s0.len(),
                self.users@ == s0,
                0 <= i <= n,
                forall|j: int| 0 <= j < i ==> s0[j].user_id != user_id,
                unique_ids(s0),
                states_in_range(s0),
                vec3_in_range(position),
            decreases n - i,
        {
            if self.users[i].user_id == user_id {
                let u = self.users[i];
                self.users[i] = UserState { position: u.position.add(position), ..u };
                proof {
                    lemma_upsert_found(s0, user_id, f, fresh, i as int);
                    assert(self@ =~= upsert_user(s0, user_id, f, fresh));
                    lemma_ids_update(s0, i as int, self@[i as int]);
                    assert(ids_of(s0).contains(user_id)) by {
                        assert(ids_of(s0)[i as int] == user_id);
                    }
                }
                return ;
            }
            i += 1;
        }
        self.users.push(UserState { user_id, position, rotation: Vec3::zero() });
        proof {
            lemma_upsert_absent(s0, user_id, f, fresh);
            assert(self@ =~= upsert_user(s0, user_id, f, fresh));
            assert(ids_of(self@) =~= ids_of(s0).push(user_id)) by {
                lemma_ids_push(s0, fresh);
            }
            assert(!ids_of(s0).contains(user_id)) by {
                assert(forall|j: int|
                    0 <= j < s0.len() ==> #[trigger] ids_of(s0)[j] == s0[j].user_id);
            }
        }
    }

    /// Add `rotation` onto the stored rotation of `user_id`
    /// (zero-defaulting when absent).
    #[verifier::loop_isolation(false)]
    pub fn update_user_rotation(&mut self, user_id: usize, rotation: Vec3)
        requires
            old(self).wf(),
            vec3_in_range(rotation),
        ensures
            final(self)@ == apply_rotate(old(self)@, user_id, rotation),
            final(self).wf(),
            ids_of(final(self)@) == if ids_of(old(self)@).contains(user_id) {
                ids_of(old(self)@)
            } else {
                ids_of(old(self)@).push(user_id)
            },
            (forall|j: int| 0 <= j < old(self)@.len() ==> (#[trigger] old(self)@[j]).user_id
                != user_id) ==> final(self)@ == old(self)@.push(
                UserState { user_id, position: vec3_zero_spec(), rotation },
            ),
    {
        let ghost s0 = self.users@;
        let ghost f = |u: UserState| UserState { rotation: vec3_add_spec(u.rotation, rotation), ..u };
        let ghost fresh = UserState {
            user_id,
            position: vec3_zero_spec(),
            rotation,
        };
        let n = self.users.len();
        let mut i: usize = 0;
        while i < n
            invariant
                n == s0.len(),
                self.users@ == s0,
                0 <= i <= n,
                forall|j: int| 0 <= j < i ==> s0[j].user_id != user_id,
                unique_ids(s0),
                states_in_range(s0),
                vec3_in_range(rotation),
            decreases n - i,
        {
            if self.users[i].user_id == user_id {
                let u = self.users[i];
                self.users[i] = UserState { rotation: u.rotation.add(rotation), ..u };
                proof {
                    lemma_upsert_found(s0, user_id, f, fresh, i as int);
                    assert(self@ =~= upsert_user(s0, user_id, f, fresh));
                    lemma_ids_update(s0, i as int, self@[i as int]);
                    assert(ids_of(s0).contains(user_id)) by {
                        assert(ids_of(s0)[i as int] == user_id);
                    }
                }
                return ;
            }
            i += 1;
        }
        self.users.push(UserState { user_id, position: Vec3::zero(), rotation });
        proof {
            lemma_upsert_absent(s0, user_id, f, fresh);
            assert(self@ =~= upsert_user(s0, user_id, f, fresh));
            assert(ids_of(self@) =~= ids_of(s0).push(user_id)) by {
                lemma_ids_push(s0, fresh);
            }
            assert(!ids_of(s0).contains(user_id)) by {
                assert(forall|j: int|
                    0 <= j < s0.len() ==> #[trigger] ids_of(s0)[j] == s0[j].user_id);
            }
        }
    }

    /// Remove any entry for `user_id`; a no-op when it is absent.
    #[verifier::loop_isolation(false)]
    pub fn remove_user_position(&mut self, user_id: usize)
        requires
            old(self).wf(),
        ensures
            final(self)@ == remove_user_spec(old(self)@, user_id),
            final(self).wf(),
            ids_of(final(self)@) == remove_id(ids_of(old(self)@), user_id),
    {
        let ghost s0 = self.users@;
        let n = self.users.len();
        let mut out: Vec<UserState> = Vec::new();
        let mut i: usize = 0;
        while i < n
            invariant
                n == s0.len(),
                self.users@ == s0,
                0 <= i <= n,
                out@ == remove_user_spec(s0.subrange(0, i as int), user_id),
            decreases n - i,
        {
            proof {
                lemma_remove_user_push(s0.subrange(0, i as int), s0[i as int], user_id);
                assert(s0.subrange(0, i as int).push(s0[i as int]) =~= s0.subrange(
                    0,
                    i as int + 1,
                ));
            }
            let u = self.users[i];
            if u.user_id != user_id {
                out.push(u);
            }
            i += 1;
        }
        proof {
            assert(s0.subrange(0, n as int) =~= s0);
            lemma_remove_user_props(s0, user_id);
        }
        self.users = out;
    }

    /// A copy of every stored state, in storage order; later mutation of
    /// the store does not affect the copy.
    #[verifier::loop_isolation(false)]
    pub fn get_all_users_states(&self) -> (r: Vec<UserState>)
        ensures
            r@ == self@,
    {
        let n = self.users.len();
        let mut out: Vec<UserState> = Vec::new();
        let mut i: usize = 0;
        while i < n
            invariant
                n == self.users@.len(),
                0 <= i <= n,
                out@ == self.users@.subrange(0, i as int),
            decreases n - i,
        {
            out.push(self.users[i]);
            proof {
                assert(out@ =~= self.users@.subrange(0, i as int + 1));
            }
            i += 1;
        }
        proof {
            assert(self.users@.subrange(0, n as int) =~= self.users@);
        }
        out
    }
}

/// The identifier sequence with every occurrence of `id` removed,
/// order kept.
pub open spec fn remove_id(s: Seq<usize>, id: usize) -> Seq<usize>
    decreases s.len(),
{
    if s.len() == 0 {
        Seq::empty()
    } else if s[0] == id {
        remove_id(s.drop_first(), id)
    } else {
        seq![s[0]] + remove_id(s.drop_first(), id)
    }
}

proof fn lemma_ids_update(s: Seq<UserState>, i: int, u: UserState)
    requires
        0 <= i < s.len(),
        u.user_id == s[i].user_id,
    ensures
        ids_of(s.update(i, u)) == ids_of(s),
{
    assert(ids_of(s.update(i, u)) =~= ids_of(s));
}

proof fn lemma_ids_push(s: Seq<UserState>, u: UserState)
    ensures
        ids_of(s.push(u)) == ids_of(s).push(u.user_id),
{
    assert(ids_of(s.push(u)) =~= ids_of(s).push(u.user_id));
}

/// When `id` sits at index `i` and nowhere earlier, upserting is a
/// point update at `i`.
proof fn lemma_upsert_found(
    s: Seq<UserState>,
    id: usize,
    f: spec_fn(UserState) -> UserState,
    fresh: UserState,
    i: int,
)
    requires
        0 <= i < s.len(),
        s[i].user_id == id,
        forall|j: int| 0 <= j < i ==> s[j].user_id != id,
    ensures
        upsert_user(s, id, f, fresh) == s.update(i, f(s[i])),
    decreases i,
{
    if i == 0 {
        assert(upsert_user(s, id, f, fresh) =~= s.update(0, f(s[0])));
    } else {
        lemma_upsert_found(s.drop_first(), id, f, fresh, i - 1);
        assert(upsert_user(s, id, f, fresh) =~= s.update(i, f(s[i])));
    }
}

/// When `id` is absent, upserting appends `fresh`.
proof fn lemma_upsert_absent(
    s: Seq<UserState>,
    id: usize,
    f: spec_fn(UserState) -> UserState,
    fresh: UserState,
)
    requires
        forall|j: int| 0 <= j < s.len() ==> s[j].user_id != id,
    ensures
        upsert_user(s, id, f, fresh) == s.push(fresh),
    decreases s.len(),
{
    if s.len() == 0 {
        assert(upsert_user(s, id, f, fresh) =~= s.push(fresh));
    } else {
        lemma_upsert_absent(s.drop_first(), id, f, fresh);
        assert(upsert_user(s, id, f, fresh) =~= s.push(fresh));
    }
}


proof fn lemma_remove_user_push(s: Seq<UserState>, u: UserState, id: usize)
    ensures
        remove_user_spec(s.push(u), id) == if u.user_id == id {
            remove_user_spec(s, id)
        } else {
            remove_user_spec(s, id).push(u)
        },
    decreases s.len(),
{
    let p = s.push(u);
    assert(p.len() == s.len() + 1);
    if s.len() == 0 {
        assert(p[0] == u);
        assert(p.drop_first() =~= Seq::<UserState>::empty());
        assert(remove_user_spec(p.drop_first(), id) == Seq::<UserState>::empty());
        if u.user_id == id {
            assert(remove_user_spec(p, id) =~= remove_user_spec(s, id));
        } else {
            assert(remove_user_spec(p, id) == seq![u] + Seq::<UserState>::empty());
            assert(remove_user_spec(p, id) =~= remove_user_spec(s, id).push(u));
        }
    } else {
        assert(p[0] == s[0]);
        lemma_remove_user_push(s.drop_first(), u, id);
        assert(p.drop_first() =~= s.drop_first().push(u));
        if u.user_id == id {
            assert(remove_user_spec(p, id) =~= remove_user_spec(s, id));
        } else {
            assert(remove_user_spec(p, id) =~= remove_user_spec(s, id).push(u));
        }
    }
}

pub proof fn lemma_find_user_absent(s: Seq<UserState>, uid: usize)
    requires
        forall|k: int| 0 <= k < s.len() ==> s[k].user_id != uid,
    ensures
        find_user(s, uid) == None::<UserState>,
    decreases s.len(),
{
    if s.len() > 0 {
        assert(forall|k: int|
            0 <= k < s.drop_first().len() ==> #[trigger] s.drop_first()[k] == s[k + 1]);
        lemma_find_user_absent(s.drop_first(), uid);
    }
}

proof fn lemma_remove_user_entries(s: Seq<UserState>, id: usize)
    ensures
        forall|k: int|
            0 <= k < remove_user_spec(s, id).len() ==> (#[trigger] remove_user_spec(
                s,
                id,
            )[k]).user_id != id && s.contains(remove_user_spec(s, id)[k]),
    decreases s.len(),
{
    let r = remove_user_spec(s, id);
    if s.len() > 0 {
        let t = s.drop_first();
        lemma_remove_user_entries(t, id);
        let rt = remove_user_spec(t, id);
        assert(forall|k: int| 0 <= k < t.len() ==> #[trigger] t[k] == s[k + 1]);
        if s[0].user_id == id {
            assert(r == rt);
        } else {
            assert(r == seq![s[0]] + rt);
        }
        assert forall|k: int| 0 <= k < r.len() implies (#[trigger] r[k]).user_id != id
            && s.contains(r[k]) by {
            if s[0].user_id == id {
                assert(r[k] == rt[k]);
                assert(rt[k].user_id != id && t.contains(rt[k]));
                let m = choose|m: int| 0 <= m < t.len() && t[m] == rt[k];
                assert(s[m + 1] == r[k]);
            } else if k == 0 {
                assert(r[0] == s[0]);
                assert(s[0] == s[0]);
            } else {
                assert(r[k] == rt[k - 1]);
                assert(rt[k - 1].user_id != id && t.contains(rt[k - 1]));
                let m = choose|m: int| 0 <= m < t.len() && t[m] == rt[k - 1];
                assert(s[m + 1] == r[k]);
            }
        }
    }
}

proof fn lemma_remove_user_find(s: Seq<UserState>, id: usize, uid: usize)
    requires
        uid != id,
    ensures
        find_user(remove_user_spec(s, id), uid) == find_user(s, uid),
    decreases s.len(),
{
    let r = remove_user_spec(s, id);
    if s.len() == 0 {
    } else {
        let t = s.drop_first();
        lemma_remove_user_find(t, id, uid);
        let rt = remove_user_spec(t, id);
        if s[0].user_id == id {
            assert(r == rt);
        } else {
            assert(r == seq![s[0]] + rt);
            assert(r[0] == s[0]);
            assert(r.len() > 0);
            if s[0].user_id == uid {
            } else {
                assert(r.drop_first() =~= rt);
            }
        }
    }
}

proof fn lemma_remove_user_ids(s: Seq<UserState>, id: usize)
    ensures
        ids_of(remove_user_spec(s, id)) == remove_id(ids_of(s), id),
    decreases s.len(),
{
    let r = remove_user_spec(s, id);
    if s.len() == 0 {
        assert(ids_of(r) =~= remove_id(ids_of(s), id));
    } else {
        let t = s.drop_first();
        lemma_remove_user_ids(t, id);
        let rt = remove_user_spec(t, id);
        assert(ids_of(s)[0] == s[0].user_id);
        assert(ids_of(s).drop_first() =~= ids_of(t));
        assert(ids_of(s).len() > 0);
        if s[0].user_id == id {
            assert(r == rt);
            assert(remove_id(ids_of(s), id) == remove_id(ids_of(s).drop_first(), id));
            assert(ids_of(r) =~= remove_id(ids_of(s), id));
        } else {
            assert(r == seq![s[0]] + rt);
            assert(remove_id(ids_of(s), id) == seq![s[0].user_id] + remove_id(
                ids_of(s).drop_first(),
                id,
            ));
            assert(ids_of(r) =~= remove_id(ids_of(s), id));
        }
    }
}

/// What removal leaves behind: no entry for `id`, every other lookup
/// unchanged, well-formedness kept, identifiers filtered in order.
pub proof fn lemma_remove_user_props(s: Seq<UserState>, id: usize)
    ensures
        forall|k: int|
            0 <= k < remove_user_spec(s, id).len() ==> (#[trigger] remove_user_spec(
                s,
                id,
            )[k]).user_id != id && s.contains(remove_user_spec(s, id)[k]),
        unique_ids(s) ==> unique_ids(remove_user_spec(s, id)),
        states_in_range(s) ==> states_in_range(remove_user_spec(s, id)),
        find_user(remove_user_spec(s, id), id) == None::<UserState>,
        forall|uid: usize|
            uid != id ==> #[trigger] find_user(remove_user_spec(s, id), uid) == find_user(s, uid),
        ids_of(remove_user_spec(s, id)) == remove_id(ids_of(s), id),
{
    let r = remove_user_spec(s, id);
    lemma_remove_user_entries(s, id);
    lemma_remove_user_ids(s, id);
    lemma_find_user_absent(r, id);
    assert forall|uid: usize| uid != id implies #[trigger] find_user(r, uid) == find_user(
        s,
        uid,
    ) by {
        lemma_remove_user_find(s, id, uid);
    }
    if unique_ids(s) {
        lemma_remove_user_unique(s, id);
    }
    if states_in_range(s) {
        assert forall|k: int|
            0 <= k < r.len() implies vec3_in_range(#[trigger] r[k].position) && vec3_in_range(
            r[k].rotation,
        ) by {
            let m = choose|m: int| 0 <= m < s.len() && s[m] == r[k];
            assert(vec3_in_range(s[m].position));
        }
    }
}

proof fn lemma_remove_user_unique(s: Seq<UserState>, id: usize)
    requires
        unique_ids(s),
    ensures
        unique_ids(remove_user_spec(s, id)),
    decreases s.len(),
{
    let r = remove_user_spec(s, id);
    if s.len() > 0 {
        let t = s.drop_first();
        assert(forall|k: int| 0 <= k < t.len() ==> #[trigger] t[k] == s[k + 1]);
        assert(unique_ids(t));
        lemma_remove_user_unique(t, id);
        lemma_remove_user_entries(t, id);
        let rt = remove_user_spec(t, id);
        if s[0].user_id == id {
            assert(r == rt);
        } else {
            assert(r == seq![s[0]] + rt);
            assert(r[0] == s[0]);
            assert(forall|k: int| 1 <= k < r.len() ==> #[trigger] r[k] == rt[k - 1]);
            assert forall|i: int, j: int| 0 <= i < j < r.len() implies r[i].user_id
                != r[j].user_id by {
                if i == 0 {
                    assert(t.contains(rt[j - 1]));
                    let m = choose|m: int| 0 <= m < t.len() && t[m] == rt[j - 1];
                    assert(s[m + 1] == rt[j - 1]);
                }
            }
        }
    }
}

/// The first entry for `id` is what lookup returns.
proof fn lemma_find_user_at(s: Seq<UserState>, id: usize, i: int)
    requires
        0 <= i < s.len(),
        s[i].user_id == id,
        forall|j: int| 0 <= j < i ==> s[j].user_id != id,
    ensures
        find_user(s, id) == Some(s[i]),
    decreases i,
{
    if i == 0 {
    } else {
        let t = s.drop_first();
        assert(forall|k: int| 0 <= k < t.len() ==> #[trigger] t[k] == s[k + 1]);
        lemma_find_user_at(t, id, i - 1);
    }
}

/// Accumulation, not replacement: two identical move deltas applied to
/// an identifier the store has never seen leave it holding the delta
/// added to itself, not the delta alone.
pub proof fn lemma_accumulation(s: Seq<UserState>, id: usize, d: Vec3)
    requires
        forall|j: int| 0 <= j < s.len() ==> (#[trigger] s[j]).user_id != id,
    ensures
        find_user(apply_move(apply_move(s, id, d), id, d), id) == Some(
            UserState { user_id: id, position: vec3_add_spec(d, d), rotation: vec3_zero_spec() },
        ),
{
    let f = |u: UserState| UserState { position: vec3_add_spec(u.position, d), ..u };
    let fresh = UserState { user_id: id, position: d, rotation: vec3_zero_spec() };
    lemma_upsert_absent(s, id, f, fresh);
    let w1 = apply_move(s, id, d);
    assert(w1 == s.push(fresh));
    let n = s.len() as int;
    assert(w1[n] == fresh);
    assert(forall|j: int| 0 <= j < n ==> #[trigger] w1[j] == s[j]);
    lemma_upsert_found(w1, id, f, fresh, n);
    let w2 = apply_move(w1, id, d);
    assert(w2 == w1.update(n, f(fresh)));
    assert(w2[n] == UserState { user_id: id, position: vec3_add_spec(d, d), rotation: vec3_zero_spec() });
    assert(forall|j: int| 0 <= j < n ==> #[trigger] w2[j] == s[j]);
    lemma_find_user_at(w2, id, n);
}

} // verus!
