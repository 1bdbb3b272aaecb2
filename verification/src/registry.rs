//! The keyboards that are attached right now.
//!
//! The registry holds one session per identity, in the order in which the
//! keyboards were registered. It is plain data: whoever shares it between
//! threads wraps it in a lock and holds that lock for one call at a time.
use vstd::prelude::*;
use crate::session::{
    after_outcome, lemma_session_model, next_action, outcome_bytes, DeviceSession, LoopAction,
    SessionView,
};
use crate::readings::valid_readings;

verus! {

/// The models of a list of sessions.
pub open spec fn views(sessions: Seq<DeviceSession>) -> Seq<SessionView> {
    sessions.map_values(|session: DeviceSession| session@)
}

/// Whether a session with identity `id` is among `sessions`.
pub open spec fn registered(sessions: Seq<SessionView>, id: u64) -> bool {
    exists|i: int| 0 <= i < sessions.len() && (#[trigger] sessions[i]).identity() == id
}

/// The position of a session with identity `id`.
pub open spec fn position_of(sessions: Seq<SessionView>, id: u64) -> int {
    choose|i: int| 0 <= i < sessions.len() && (#[trigger] sessions[i]).identity() == id
}

/// The session with identity `id`, if there is one.
pub open spec fn lookup(sessions: Seq<SessionView>, id: u64) -> Option<SessionView> {
    if registered(sessions, id) {
        Some(sessions[position_of(sessions, id)])
    } else {
        None
    }
}

/// No identity occurs twice.
pub open spec fn distinct_identities(sessions: Seq<SessionView>) -> bool {
    forall|i: int, j: int|
        0 <= i < j < sessions.len() ==> (#[trigger] sessions[i]).identity() != (
        #[trigger] sessions[j]).identity()
}

/// The sessions whose liveness is `live`, in their order.
pub open spec fn keep(sessions: Seq<SessionView>, live: bool) -> Seq<SessionView>
    decreases sessions.len(),
{
    if sessions.len() == 0 {
        Seq::empty()
    } else if sessions.last().live == live {
        keep(sessions.drop_last(), live).push(sessions.last())
    } else {
        keep(sessions.drop_last(), live)
    }
}

/// Among distinct identities a session is found at its own position.
pub proof fn lemma_position_unique(sessions: Seq<SessionView>, i: int)
    requires
        distinct_identities(sessions),
        0 <= i < sessions.len(),
    ensures
        registered(sessions, sessions[i].identity()),
        position_of(sessions, sessions[i].identity()) == i,
        lookup(sessions, sessions[i].identity()) == Some(sessions[i]),
{
    let k = position_of(sessions, sessions[i].identity());
    assert(sessions[i].identity() == sessions[i].identity());
    if k < i {
        assert(sessions[k].identity() != sessions[i].identity());
    } else if k > i {
        assert(sessions[i].identity() != sessions[k].identity());
    }
}

/// The registry of attached keyboards.
pub struct DeviceRegistry {
    sessions: Vec<DeviceSession>,
}

impl View for DeviceRegistry {
    type V = Seq<SessionView>;

    closed spec fn view(&self) -> Seq<SessionView> {
        views(self.sessions@)
    }
}

impl DeviceRegistry {
    /// The invariant of the representation: no identity is held twice.
    #[verifier::type_invariant]
    pub closed spec fn wf(self) -> bool {
        &&& distinct_identities(views(self.sessions@))
        &&& forall|i: int| 0 <= i < self.sessions@.len() ==> (#[trigger] self.sessions@[i]).wf()
    }

    /// The sessions themselves, of which `self@` lists the models.
    pub closed spec fn stored(self) -> Seq<DeviceSession> {
        self.sessions@
    }

    /// An empty registry.
    pub fn new() -> (registry: Self)
        ensures
            registry@ == Seq::<SessionView>::empty(),
    {
        let registry = DeviceRegistry { sessions: Vec::new() };
        assert(registry@ =~= Seq::<SessionView>::empty());
        registry
    }

    /// How many keyboards are registered.
    pub fn len(&self) -> (n: usize)
        ensures
            n == self@.len(),
    {
        self.sessions.len()
    }

    /// Whether no keyboard is registered.
    pub fn is_empty(&self) -> (empty: bool)
        ensures
            empty == (self@.len() == 0),
    {
        self.sessions.len() == 0
    }

    /// The sessions in the order of their registration.
    pub fn sessions(&self) -> (sessions: &Vec<DeviceSession>)
        ensures
            sessions@ == self.stored(),
            views(sessions@) == self@,
            distinct_identities(self@),
    {
        proof {
            use_type_invariant(self);
        }
        &self.sessions
    }

    /// Calls `visit` on every session, in the order of registration.
    pub fn for_each<F: Fn(&DeviceSession)>(&self, visit: F)
        requires
            forall|session: &DeviceSession| call_requires(visit, (session,)),
        ensures
            forall|i: int|
                0 <= i < self.stored().len() ==> call_ensures(
                    visit,
                    (&#[trigger] self.stored()[i],),
                    (),
                ),
    {
        let n = self.sessions.len();
        let mut i: usize = 0;
        while i < n
            invariant
                n == self.sessions@.len(),
                0 <= i <= n,
                forall|session: &DeviceSession| call_requires(visit, (session,)),
                forall|k: int|
                    0 <= k < i ==> call_ensures(visit, (&#[trigger] self.sessions@[k],), ()),
            decreases n - i,
        {
            visit(&self.sessions[i]);
            i += 1;
        }
    }

    /// Where the session with identity `id` stands.
    fn find(&self, id: u64) -> (found: Option<usize>)
        ensures
            found matches Some(i) ==> i < self.sessions@.len() && self@[i as int].identity() == id
                && registered(self@, id) && position_of(self@, id) == i,
            found is None ==> !registered(self@, id),
    {
        proof {
            use_type_invariant(self);
        }
        let n = self.sessions.len();
        let mut i: usize = 0;
        while i < n
            invariant
                n == self.sessions@.len(),
                0 <= i <= n,
                distinct_identities(self@),
                self@ == views(self.sessions@),
                forall|k: int| 0 <= k < i ==> (#[trigger] self@[k]).identity() != id,
            decreases n - i,
        {
            if self.sessions[i].identity() == id {
                proof {
                    lemma_position_unique(self@, i as int);
                }
                return Some(i);
            }
            i += 1;
        }
        None
    }

    /// Whether a keyboard with identity `id` is registered.
    pub fn contains(&self, id: u64) -> (held: bool)
        ensures
            held == registered(self@, id),
    {
        self.find(id).is_some()
    }

    /// The session of the keyboard with identity `id`.
    pub fn get(&self, id: u64) -> (found: Option<&DeviceSession>)
        ensures
            match found {
                Some(session) => lookup(self@, id) == Some(session@),
                None => lookup(self@, id) is None,
            },
    {
        match self.find(id) {
            Some(i) => Some(&self.sessions[i]),
            None => None,
        }
    }

    /// Adds a session, unless its identity is held already: then the
    /// registry stays as it is and the session is handed back.
    pub fn register(&mut self, session: DeviceSession) -> (outcome: Result<(), DeviceSession>)
        ensures
            distinct_identities(final(self)@),
            never_revived(old(self)@, final(self)@),
            match outcome {
                Ok(_) => !registered(old(self)@, session@.identity()) && final(self)@ == old(
                    self,
                )@.push(session@),
                Err(back) => back@ == session@ && registered(old(self)@, session@.identity())
                    && final(self)@ == old(self)@,
            },
    {
        proof {
            use_type_invariant(&*self);
            use_type_invariant(&session);
        }
        if self.contains(session.identity()) {
            proof {
                lemma_same_never_revives(self@);
            }
            return Err(session);
        }
        let ghost before = self.sessions@;
        let mut sessions: Vec<DeviceSession> = Vec::new();
        std::mem::swap(&mut sessions, &mut self.sessions);
        sessions.push(session);
        proof {
            assert(views(sessions@) =~= views(before).push(session@));
            lemma_push_distinct(views(before), session@);
            lemma_push_never_revives(views(before), session@);
        }
        self.sessions = sessions;
        Ok(())
    }

    /// Takes the session with identity `id` out of the registry.
    pub fn remove(&mut self, id: u64) -> (removed: Option<DeviceSession>)
        ensures
            distinct_identities(final(self)@),
            never_revived(old(self)@, final(self)@),
            match removed {
                Some(session) => lookup(old(self)@, id) == Some(session@) && final(self)@ == old(
                    self,
                )@.remove(position_of(old(self)@, id)),
                None => !registered(old(self)@, id) && final(self)@ == old(self)@,
            },
    {
        proof {
            use_type_invariant(&*self);
        }
        match self.find(id) {
            Some(i) => {
                let ghost before = self.sessions@;
                let mut sessions: Vec<DeviceSession> = Vec::new();
                std::mem::swap(&mut sessions, &mut self.sessions);
                let session = sessions.remove(i);
                proof {
                    assert(views(sessions@) =~= views(before).remove(i as int));
                    lemma_remove_distinct(views(before), i as int);
                    lemma_remove_never_revives(views(before), i as int);
                    assert forall|k: int| 0 <= k < sessions@.len() implies (
                    #[trigger] sessions@[k]).wf() by {
                        let k0 = if k < i { k } else { k + 1 };
                        assert(before[k0].wf());
                    }
                }
                self.sessions = sessions;
                Some(session)
            },
            None => {
                proof {
                    lemma_same_never_revives(self@);
                }
                None
            },
        }
    }

    /// Takes every dead session out of the registry and hands them back in
    /// the order of their registration.
    pub fn reap(&mut self) -> (dead: Vec<DeviceSession>)
        ensures
            distinct_identities(final(self)@),
            never_revived(old(self)@, final(self)@),
            final(self)@ == keep(old(self)@, true),
            views(dead@) == keep(old(self)@, false),
    {
        proof {
            use_type_invariant(&*self);
        }
        let ghost before = self.sessions@;
        let mut sessions: Vec<DeviceSession> = Vec::new();
        std::mem::swap(&mut sessions, &mut self.sessions);
        let mut dead: Vec<DeviceSession> = Vec::new();
        let mut i: usize = 0;
        // `seen` counts the sessions looked at: the first `i` of `sessions`
        // are those of them that live, `dead` holds the others, and the
        // rest of `sessions` is the rest of `before`.
        let ghost mut seen: int = 0;
        proof {
            assert(views(before).subrange(0, 0) =~= Seq::<SessionView>::empty());
            assert(views(sessions@).subrange(0, 0) =~= Seq::<SessionView>::empty());
            assert(views(dead@) =~= Seq::<SessionView>::empty());
            assert(sessions@.subrange(0, sessions@.len() as int) =~= sessions@);
        }
        while i < sessions.len()
            invariant
                0 <= i <= sessions@.len(),
                0 <= seen <= before.len(),
                sessions@.len() - i == before.len() - seen,
                views(sessions@).subrange(0, i as int) == keep(views(before).subrange(0, seen), true),
                views(dead@) == keep(views(before).subrange(0, seen), false),
                sessions@.subrange(i as int, sessions@.len() as int) == before.subrange(
                    seen,
                    before.len() as int,
                ),
                forall|k: int| 0 <= k < before.len() ==> (#[trigger] before[k]).wf(),
                forall|k: int| 0 <= k < i ==> (#[trigger] sessions@[k]).wf(),
            decreases sessions@.len() - i,
        {
            let ghost held = sessions@;
            proof {
                lemma_tail_step(held, i as int, before, seen);
                lemma_keep_step(views(before), seen, true);
                lemma_keep_step(views(before), seen, false);
            }
            if sessions[i].is_live() {
                proof {
                    assert(views(held).subrange(0, i + 1) =~= views(held).subrange(0, i as int).push(
                        views(held)[i as int],
                    ));
                }
                i += 1;
            } else {
                let session = sessions.remove(i);
                proof {
                    assert(views(dead@.push(session)) =~= views(dead@).push(session@));
                    assert(views(sessions@).subrange(0, i as int) =~= views(held).subrange(
                        0,
                        i as int,
                    ));
                    assert(sessions@.subrange(i as int, sessions@.len() as int) =~= held.subrange(
                        i + 1,
                        held.len() as int,
                    ));
                }
                dead.push(session);
            }
            proof {
                seen = seen + 1;
            }
        }
        proof {
            assert(views(before).subrange(0, seen) =~= views(before));
            assert(views(sessions@).subrange(0, i as int) =~= views(sessions@));
            lemma_keep_distinct(views(before), true);
            lemma_keep_never_revives(views(before));
        }
        self.sessions = sessions;
        dead
    }

    /// Hands one outcome of a reading loop to the session with identity
    /// `id`. A loop whose session is no longer registered is told to stop.
    pub fn acquisition_step(&mut self, id: u64, outcome: Option<&[u8]>) -> (action: LoopAction)
        ensures
            distinct_identities(final(self)@),
            never_revived(old(self)@, final(self)@),
            final(self)@ == after_step(old(self)@, id, outcome_bytes(outcome)),
            action == step_action(old(self)@, id, outcome_bytes(outcome)),
    {
        proof {
            use_type_invariant(&*self);
            lemma_step_never_revives(self@, id, outcome_bytes(outcome));
        }
        match self.find(id) {
            Some(i) => {
                let ghost before = self.sessions@;
                let mut sessions: Vec<DeviceSession> = Vec::new();
                std::mem::swap(&mut sessions, &mut self.sessions);
                let action = sessions[i].acquisition_step(outcome);
                let stepped = &sessions[i];
                proof {
                    use_type_invariant(stepped);
                    assert(views(sessions@) =~= views(before).update(
                        i as int,
                        after_outcome(views(before)[i as int], outcome_bytes(outcome)),
                    ));
                    lemma_update_distinct(
                        views(before),
                        i as int,
                        after_outcome(views(before)[i as int], outcome_bytes(outcome)),
                    );
                }
                self.sessions = sessions;
                action
            },
            None => LoopAction::Stop,
        }
    }

    /// Drops every session.
    pub fn clear(&mut self)
        ensures
            final(self)@ == Seq::<SessionView>::empty(),
    {
        self.sessions = Vec::new();
        assert(self@ =~= Seq::<SessionView>::empty());
    }
}

/// The registry after one outcome of the reading loop of the keyboard with
/// identity `id`: that session takes the outcome, the others stay.
pub open spec fn after_step(sessions: Seq<SessionView>, id: u64, outcome: Option<Seq<u8>>) -> Seq<
    SessionView,
> {
    if registered(sessions, id) {
        sessions.update(
            position_of(sessions, id),
            after_outcome(sessions[position_of(sessions, id)], outcome),
        )
    } else {
        sessions
    }
}

/// What the reading loop of the keyboard with identity `id` does after an
/// outcome.
pub open spec fn step_action(sessions: Seq<SessionView>, id: u64, outcome: Option<Seq<u8>>) -> LoopAction {
    if registered(sessions, id) {
        next_action(after_outcome(sessions[position_of(sessions, id)], outcome))
    } else {
        LoopAction::Stop
    }
}

/// Adding a session under a new identity keeps identities distinct.
pub proof fn lemma_push_distinct(sessions: Seq<SessionView>, session: SessionView)
    requires
        distinct_identities(sessions),
        !registered(sessions, session.identity()),
    ensures
        distinct_identities(sessions.push(session)),
{
    let after = sessions.push(session);
    assert forall|i: int, j: int| 0 <= i < j < after.len() implies (#[trigger] after[i]).identity()
        != (#[trigger] after[j]).identity() by {
        if j < sessions.len() {
            assert(sessions[i].identity() != sessions[j].identity());
        } else {
            assert(sessions[i].identity() == sessions[i].identity());
        }
    }
}

/// Taking a session out keeps identities distinct, and its identity is
/// registered no more.
pub proof fn lemma_remove_distinct(sessions: Seq<SessionView>, at: int)
    requires
        distinct_identities(sessions),
        0 <= at < sessions.len(),
    ensures
        distinct_identities(sessions.remove(at)),
        !registered(sessions.remove(at), sessions[at].identity()),
{
    let after = sessions.remove(at);
    assert forall|a: int, b: int| 0 <= a < b < after.len() implies (#[trigger] after[a]).identity()
        != (#[trigger] after[b]).identity() by {
        let a0 = if a < at { a } else { a + 1 };
        let b0 = if b < at { b } else { b + 1 };
        assert(sessions[a0].identity() != sessions[b0].identity());
    }
    if registered(after, sessions[at].identity()) {
        let k = position_of(after, sessions[at].identity());
        let k0 = if k < at { k } else { k + 1 };
        assert(after[k] == sessions[k0]);
        if k0 < at {
            assert(sessions[k0].identity() != sessions[at].identity());
        } else {
            assert(sessions[at].identity() != sessions[k0].identity());
        }
    }
}

/// Replacing a session by one of the same identity keeps identities
/// distinct.
pub proof fn lemma_update_distinct(sessions: Seq<SessionView>, at: int, session: SessionView)
    requires
        distinct_identities(sessions),
        0 <= at < sessions.len(),
        session.identity() == sessions[at].identity(),
    ensures
        distinct_identities(sessions.update(at, session)),
{
    let after = sessions.update(at, session);
    assert forall|i: int, j: int| 0 <= i < j < after.len() implies (#[trigger] after[i]).identity()
        != (#[trigger] after[j]).identity() by {
        assert(sessions[i].identity() != sessions[j].identity());
    }
}

/// Two lists with a common tail: the tails start with the same element and
/// go on alike.
proof fn lemma_tail_step<T>(a: Seq<T>, i: int, b: Seq<T>, j: int)
    requires
        0 <= i < a.len(),
        0 <= j <= b.len(),
        a.subrange(i, a.len() as int) == b.subrange(j, b.len() as int),
    ensures
        j < b.len(),
        a[i] == b[j],
        a.subrange(i + 1, a.len() as int) == b.subrange(j + 1, b.len() as int),
{
    let tail_a = a.subrange(i, a.len() as int);
    let tail_b = b.subrange(j, b.len() as int);
    assert(tail_a.len() == tail_b.len());
    assert(a[i] == tail_a[0]);
    assert(b[j] == tail_b[0]);
    assert(a.subrange(i + 1, a.len() as int) =~= tail_a.subrange(1, tail_a.len() as int));
    assert(b.subrange(j + 1, b.len() as int) =~= tail_b.subrange(1, tail_b.len() as int));
}

/// Reading one more session extends the kept list by that session if its
/// liveness is the one asked for.
pub proof fn lemma_keep_step(sessions: Seq<SessionView>, n: int, live: bool)
    requires
        0 <= n < sessions.len(),
    ensures
        keep(sessions.subrange(0, n + 1), live) == if sessions[n].live == live {
            keep(sessions.subrange(0, n), live).push(sessions[n])
        } else {
            keep(sessions.subrange(0, n), live)
        },
{
    assert(sessions.subrange(0, n + 1).drop_last() =~= sessions.subrange(0, n));
}

/// Every kept session is one of the sessions, with the liveness asked for.
pub proof fn lemma_keep_members(sessions: Seq<SessionView>, live: bool, k: int)
    requires
        0 <= k < keep(sessions, live).len(),
    ensures
        keep(sessions, live)[k].live == live,
        exists|i: int| 0 <= i < sessions.len() && #[trigger] sessions[i] == keep(sessions, live)[k],
    decreases sessions.len(),
{
    if sessions.len() > 0 {
        let front = sessions.drop_last();
        if sessions.last().live == live && k == keep(front, live).len() {
            assert(sessions[sessions.len() - 1] == keep(sessions, live)[k]);
        } else {
            lemma_keep_members(front, live, k);
            let i = choose|i: int| 0 <= i < front.len() && #[trigger] front[i] == keep(front, live)[k];
            assert(sessions[i] == keep(sessions, live)[k]);
        }
    }
}

/// Every session with the liveness asked for is kept.
pub proof fn lemma_keep_complete(sessions: Seq<SessionView>, live: bool, i: int)
    requires
        0 <= i < sessions.len(),
        sessions[i].live == live,
    ensures
        exists|k: int|
            0 <= k < keep(sessions, live).len() && #[trigger] keep(sessions, live)[k] == sessions[i],
    decreases sessions.len(),
{
    let front = sessions.drop_last();
    if i == sessions.len() - 1 {
        assert(keep(sessions, live)[keep(front, live).len() as int] == sessions[i]);
    } else {
        lemma_keep_complete(front, live, i);
        let k = choose|k: int|
            0 <= k < keep(front, live).len() && #[trigger] keep(front, live)[k] == front[i];
        assert(keep(sessions, live)[k] == sessions[i]);
    }
}

/// After a reap nothing is left to reap: every session kept as alive is
/// alive, so a second reap changes nothing and returns nobody.
pub proof fn lemma_reap_is_idempotent(sessions: Seq<SessionView>)
    ensures
        keep(keep(sessions, true), true) == keep(sessions, true),
        keep(keep(sessions, true), false) == Seq::<SessionView>::empty(),
    decreases sessions.len(),
{
    if sessions.len() > 0 {
        let front = sessions.drop_last();
        lemma_reap_is_idempotent(front);
        if sessions.last().live {
            assert(keep(sessions, true).drop_last() == keep(front, true));
        }
    }
}

/// Keeping some of the sessions keeps identities distinct.
pub proof fn lemma_keep_distinct(sessions: Seq<SessionView>, live: bool)
    requires
        distinct_identities(sessions),
    ensures
        distinct_identities(keep(sessions, live)),
    decreases sessions.len(),
{
    if sessions.len() > 0 {
        let front = sessions.drop_last();
        let last = sessions.last();
        assert(distinct_identities(front)) by {
            assert forall|i: int, j: int| 0 <= i < j < front.len() implies (#[trigger] front[i]).identity()
                != (#[trigger] front[j]).identity() by {
                assert(sessions[i].identity() != sessions[j].identity());
            }
        }
        lemma_keep_distinct(front, live);
        if last.live == live {
            assert(!registered(keep(front, live), last.identity())) by {
                if registered(keep(front, live), last.identity()) {
                    let k = position_of(keep(front, live), last.identity());
                    lemma_keep_members(front, live, k);
                    let i = choose|i: int|
                        0 <= i < front.len() && #[trigger] front[i] == keep(front, live)[k];
                    assert(sessions[i].identity() != sessions[sessions.len() - 1].identity());
                }
            }
            lemma_push_distinct(keep(front, live), last);
        }
    }
}

/// No session that was dead before is alive after: a dead session's
/// identity is either gone or still dead.
pub open spec fn never_revived(before: Seq<SessionView>, after: Seq<SessionView>) -> bool {
    forall|i: int, j: int|
        0 <= i < before.len() && 0 <= j < after.len() && (#[trigger] before[i]).identity() == (
        #[trigger] after[j]).identity() && !before[i].live ==> !after[j].live
}

/// A registry that stays as it is revives no session.
pub proof fn lemma_same_never_revives(sessions: Seq<SessionView>)
    requires
        distinct_identities(sessions),
    ensures
        never_revived(sessions, sessions),
{
    assert forall|i: int, j: int|
        0 <= i < sessions.len() && 0 <= j < sessions.len() && (#[trigger] sessions[i]).identity()
            == (#[trigger] sessions[j]).identity() && !sessions[i].live implies !sessions[j].live by {
        if i < j {
            assert(sessions[i].identity() != sessions[j].identity());
        } else if j < i {
            assert(sessions[j].identity() != sessions[i].identity());
        }
    }
}

/// Taking a session out revives no session.
pub proof fn lemma_remove_never_revives(sessions: Seq<SessionView>, at: int)
    requires
        distinct_identities(sessions),
        0 <= at < sessions.len(),
    ensures
        never_revived(sessions, sessions.remove(at)),
{
    let after = sessions.remove(at);
    assert forall|i: int, j: int|
        0 <= i < sessions.len() && 0 <= j < after.len() && (#[trigger] sessions[i]).identity() == (
        #[trigger] after[j]).identity() && !sessions[i].live implies !after[j].live by {
        let j0 = if j < at { j } else { j + 1 };
        assert(after[j] == sessions[j0]);
        if i < j0 {
            assert(sessions[i].identity() != sessions[j0].identity());
        } else if j0 < i {
            assert(sessions[j0].identity() != sessions[i].identity());
        }
    }
}

/// An outcome of a reading loop revives no session.
pub proof fn lemma_step_never_revives(sessions: Seq<SessionView>, id: u64, outcome: Option<Seq<u8>>)
    requires
        distinct_identities(sessions),
    ensures
        never_revived(sessions, after_step(sessions, id, outcome)),
{
    let after = after_step(sessions, id, outcome);
    assert forall|i: int, j: int|
        0 <= i < sessions.len() && 0 <= j < after.len() && (#[trigger] sessions[i]).identity() == (
        #[trigger] after[j]).identity() && !sessions[i].live implies !after[j].live by {
        assert(after[j].identity() == sessions[j].identity());
        if i < j {
            assert(sessions[i].identity() != sessions[j].identity());
        } else if j < i {
            assert(sessions[j].identity() != sessions[i].identity());
        }
    }
}

/// Reaping revives no session.
pub proof fn lemma_keep_never_revives(sessions: Seq<SessionView>)
    requires
        distinct_identities(sessions),
    ensures
        never_revived(sessions, keep(sessions, true)),
{
    let after = keep(sessions, true);
    assert forall|i: int, j: int|
        0 <= i < sessions.len() && 0 <= j < after.len() && (#[trigger] sessions[i]).identity() == (
        #[trigger] after[j]).identity() && !sessions[i].live implies !after[j].live by {
        lemma_keep_members(sessions, true, j);
        let k = choose|k: int| 0 <= k < sessions.len() && #[trigger] sessions[k] == after[j];
        if i < k {
            assert(sessions[i].identity() != sessions[k].identity());
        } else if k < i {
            assert(sessions[k].identity() != sessions[i].identity());
        }
    }
}

/// Registering a keyboard under a new identity revives no session.
pub proof fn lemma_push_never_revives(sessions: Seq<SessionView>, session: SessionView)
    requires
        distinct_identities(sessions),
        !registered(sessions, session.identity()),
    ensures
        never_revived(sessions, sessions.push(session)),
{
    let after = sessions.push(session);
    assert forall|i: int, j: int|
        0 <= i < sessions.len() && 0 <= j < after.len() && (#[trigger] sessions[i]).identity() == (
        #[trigger] after[j]).identity() && !sessions[i].live implies !after[j].live by {
        if j < sessions.len() {
            assert(after[j] == sessions[j]);
            if i < j {
                assert(sessions[i].identity() != sessions[j].identity());
            } else if j < i {
                assert(sessions[j].identity() != sessions[i].identity());
            }
        } else {
            assert(sessions[i].identity() == session.identity());
        }
    }
}

/// What the invariant of a registry says of its model: no identity is held
/// twice, and every session's readings are a map of readings.
pub proof fn lemma_registry_model(registry: DeviceRegistry)
    requires
        registry.wf(),
    ensures
        distinct_identities(registry@),
        forall|i: int| 0 <= i < registry@.len() ==> valid_readings((#[trigger] registry@[i]).readings),
{
    assert forall|i: int| 0 <= i < registry@.len() implies valid_readings(
        (#[trigger] registry@[i]).readings,
    ) by {
        assert(registry.sessions@[i].wf());
        lemma_session_model(registry.sessions@[i]);
    }
}

} // verus!
