//! Routing of requests between users and the application: which user a
//! request came from, and the per-user cap on requests left unanswered.

use std::collections::{HashMap, VecDeque};

use vstd::prelude::*;

use crate::keys::{ChannelKind, UserKey};
use crate::maps::keys_of;

verus! {

broadcast use vstd::std_specs::hash::group_hash_axioms;

/// Server-wide id of a request the server sent to a user.
#[derive(Clone, Copy, PartialEq, Eq, Hash, Debug, Structural)]
pub struct GlobalRequestId(pub u64);

/// Server-wide id of a request a user sent to the server, to be answered.
#[derive(Clone, Copy, PartialEq, Eq, Hash, Debug, Structural)]
pub struct GlobalResponseId(pub u64);

/// A request id as numbered by the connection that sent it.
#[derive(Clone, Copy, PartialEq, Eq, Hash, Debug, Structural)]
pub struct LocalRequestId(pub u16);

/// The id under which the answer to a remote request goes back to its sender.
#[derive(Clone, Copy, PartialEq, Eq, Hash, Debug, Structural)]
pub struct LocalResponseId(pub u16);

impl LocalRequestId {
    /// The request id numbered `value`.
    pub fn new(value: u16) -> (r: LocalRequestId)
        ensures
            r.0 == value,
    {
        LocalRequestId(value)
    }

    /// The response id that answers this request, once it has come in from
    /// the remote side.
    pub fn receive_from_remote(&self) -> (r: LocalResponseId)
        ensures
            r.0 == self.0,
    {
        LocalResponseId(self.0)
    }
}

/// `n + 1` in 64-bit wrapping arithmetic.
pub open spec fn next_id_after(n: u64) -> u64 {
    if n == u64::MAX {
        0
    } else {
        (n + 1) as u64
    }
}

fn wrapping_increment(n: u64) -> (r: u64)
    ensures
        r == next_id_after(n),
{
    if n == u64::MAX {
        0
    } else {
        n + 1
    }
}

/// Routing of the requests the server sent: who was asked, and the answer
/// once it arrives.
pub struct GlobalRequestManager<M> {
    map: HashMap<u64, (UserKey, Option<M>)>,
    next_id: u64,
}

impl<M> GlobalRequestManager<M> {
    /// Each outstanding request id, with the user asked and the answer if any.
    pub closed spec fn routes(&self) -> Map<u64, (UserKey, Option<M>)> {
        self.map@
    }

    /// The id the next request will get.
    pub closed spec fn next_request_id(&self) -> u64 {
        self.next_id
    }

    /// A manager with no requests.
    pub fn new() -> (r: Self)
        ensures
            r.routes() == Map::<u64, (UserKey, Option<M>)>::empty(),
            r.next_request_id() == 0,
    {
        Self { map: HashMap::new(), next_id: 0 }
    }

    /// Records a request to `user_key` and returns its id.
    pub fn create_request_id(&mut self, user_key: &UserKey) -> (r: GlobalRequestId)
        ensures
            r.0 == old(self).next_request_id(),
            final(self).next_request_id() == next_id_after(old(self).next_request_id()),
            final(self).routes() == old(self).routes().insert(r.0, (*user_key, None)),
    {
        let id = GlobalRequestId(self.next_id);
        self.next_id = wrapping_increment(self.next_id);
        self.map.insert(id.0, (*user_key, None));
        id
    }

    /// Takes the answered request `request_id`: its user and its answer.
    /// Returns `None`, and changes nothing, while no answer has arrived.
    pub fn destroy_request_id(&mut self, request_id: &GlobalRequestId) -> (r: Option<(UserKey, M)>)
        ensures
            final(self).next_request_id() == old(self).next_request_id(),
            (old(self).routes().contains_key(request_id.0) && old(self).routes()[request_id.0].1 is Some)
                ==> {
                &&& r == Some((old(self).routes()[request_id.0].0, old(self).routes()[request_id.0].1->0))
                &&& final(self).routes() == old(self).routes().remove(request_id.0)
            },
            !(old(self).routes().contains_key(request_id.0) && old(self).routes()[request_id.0].1 is Some)
                ==> (r is None && final(self).routes() == old(self).routes()),
    {
        let answered = match self.map.get(&request_id.0) {
            Some(entry) => entry.1.is_some(),
            None => false,
        };
        if !answered {
            return None;
        }
        match self.map.remove(&request_id.0) {
            Some((user_key, Some(response))) => Some((user_key, response)),
            _ => None,
        }
    }

    /// Stores the answer to `request_id`. An answer to an id that is not
    /// outstanding (cancelled, or its user gone) is dropped.
    pub fn receive_response(&mut self, request_id: &GlobalRequestId, response: M)
        ensures
            final(self).next_request_id() == old(self).next_request_id(),
            old(self).routes().contains_key(request_id.0) ==> final(self).routes()
                == old(self).routes().insert(
                request_id.0,
                (old(self).routes()[request_id.0].0, Some(response)),
            ),
            !old(self).routes().contains_key(request_id.0) ==> final(self).routes() == old(
                self,
            ).routes(),
    {
        match self.map.remove(&request_id.0) {
            Some((user_key, _)) => {
                self.map.insert(request_id.0, (user_key, Some(response)));
                proof {
                    assert(final(self).routes() =~= old(self).routes().insert(
                        request_id.0,
                        (old(self).routes()[request_id.0].0, Some(response)),
                    ));
                }
            },
            None => {},
        }
    }

    /// Removes every request to `user_key`, answered or not.
    pub fn purge_user(&mut self, user_key: &UserKey)
        ensures
            final(self).next_request_id() == old(self).next_request_id(),
            final(self).routes() == old(self).routes().filter_keys(
                |id: u64| old(self).routes()[id].0 != *user_key,
            ),
    {
        let ids = keys_of(&self.map);
        let ghost old_routes = self.map@;
        let mut i: usize = 0;
        while i < ids.len()
            invariant
                i <= ids@.len(),
                ids@.to_set() == old_routes.dom(),
                ids@.no_duplicates(),
                old_routes == old(self).routes(),
                self.next_id == old(self).next_id,
                forall|id: u64|
                    #![trigger self.map@.contains_key(id)]
                    self.map@.contains_key(id) <==> (old_routes.contains_key(id) && (
                    old_routes[id].0 != *user_key || !ids@.take(i as int).contains(id))),
                forall|id: u64| #[trigger]
                    self.map@.contains_key(id) ==> self.map@[id] == old_routes[id],
            decreases ids@.len() - i,
        {
            let id = ids[i];
            proof {
                if ids@.take(i as int).contains(id) {
                    let j = choose|j: int| 0 <= j < i && ids@.take(i as int)[j] == id;
                    assert(ids@[j] == ids@[i as int]);
                }
            }
            let remove = match self.map.get(&id) {
                Some(entry) => entry.0 == *user_key,
                None => false,
            };
            if remove {
                self.map.remove(&id);
            }
            proof {
                assert(ids@.take(i + 1) =~= ids@.take(i as int).push(id));
                assert(old_routes.contains_key(id)) by {
                    assert(ids@.contains(id));
                }
                assert forall|x: u64| #[trigger]
                    self.map@.contains_key(x) <==> (old_routes.contains_key(x) && (
                    old_routes[x].0 != *user_key || !ids@.take(i + 1).contains(x))) by {
                    if x != id {
                        assert(ids@.take(i + 1).contains(x) <==> ids@.take(i as int).contains(x));
                    } else {
                        assert(ids@.take(i + 1)[i as int] == id);
                    }
                }
            }
            i += 1;
        }
        proof {
            assert(ids@.take(ids@.len() as int) =~= ids@);
            assert(self.map@ =~= old_routes.filter_keys(|id: u64| old_routes[id].0 != *user_key));
        }
    }
}

/// Most unanswered requests one user may have outstanding.
///
/// Every request a user sends creates a routing entry here, and only the
/// application answering it removes that entry. An application is under no
/// obligation to answer, so without a cap a user could make this map grow for
/// as long as the connection lasts. The bound is per user so one hostile
/// connection cannot evict another's pending work.
pub const MAX_OUTSTANDING_RESPONSES_PER_USER: usize = 4096;

/// Where the answer to a user's request goes: the user, the channel the
/// request came on, and the id the user gave it.
pub type ResponseRoute = (UserKey, ChannelKind, LocalResponseId);

/// `q` without its leading ids that `m` no longer routes.
pub open spec fn skip_answered(q: Seq<u64>, m: Map<u64, ResponseRoute>) -> Seq<u64>
    decreases q.len(),
{
    if q.len() > 0 && !m.contains_key(q[0]) {
        skip_answered(q.drop_first(), m)
    } else {
        q
    }
}

/// How many ids must leave the front of a queue of length `len` to bring it
/// down to the cap.
pub open spec fn eviction_count(len: int) -> int {
    if len > MAX_OUTSTANDING_RESPONSES_PER_USER {
        len - MAX_OUTSTANDING_RESPONSES_PER_USER
    } else {
        0
    }
}

/// The ids of `m` that route to `user`.
pub open spec fn live_ids_of(m: Map<u64, ResponseRoute>, user: UserKey) -> Set<u64> {
    m.dom().filter(|id: u64| m[id].0 == user)
}

proof fn lemma_skip_answered(q: Seq<u64>, m: Map<u64, ResponseRoute>)
    ensures
        exists|k: int|
            0 <= k <= q.len() && skip_answered(q, m) == q.subrange(k, q.len() as int) && (forall|
                j: int,
            |
                0 <= j < k ==> !m.contains_key(#[trigger] q[j])),
        skip_answered(q, m).len() > 0 ==> m.contains_key(skip_answered(q, m)[0]),
    decreases q.len(),
{
    if q.len() > 0 && !m.contains_key(q[0]) {
        lemma_skip_answered(q.drop_first(), m);
        let k = choose|k: int|
            0 <= k <= q.drop_first().len() && skip_answered(q.drop_first(), m)
                == q.drop_first().subrange(k, q.drop_first().len() as int) && (forall|j: int|
                0 <= j < k ==> !m.contains_key(#[trigger] q.drop_first()[j]));
        assert(q.drop_first().subrange(k, q.drop_first().len() as int) =~= q.subrange(
            k + 1,
            q.len() as int,
        ));
        assert forall|j: int| 0 <= j < k + 1 implies !m.contains_key(#[trigger] q[j]) by {
            if j > 0 {
                assert(q[j] == q.drop_first()[j - 1]);
            }
        }
    } else {
        assert(q.subrange(0, q.len() as int) =~= q);
    }
}

/// Answers to the requests users sent: where each answer must go, and for
/// each user the order their requests arrived in.
pub struct GlobalResponseManager {
    map: HashMap<u64, ResponseRoute>,
    /// Per-user arrival order, used to evict oldest-first at the cap. Entries
    /// are removed from the map on their own schedule, so ids in here may
    /// already be answered; they are skipped when met rather than purged.
    order: HashMap<u64, VecDeque<u64>>,
    next_id: u64,
}

impl GlobalResponseManager {
    /// Each outstanding response id with where its answer goes.
    pub closed spec fn routes(&self) -> Map<u64, ResponseRoute> {
        self.map@
    }

    /// For each user (by key number), the ids of their requests in arrival order.
    pub closed spec fn queues(&self) -> Map<u64, Seq<u64>> {
        self.order@.map_values(|q: VecDeque<u64>| q@)
    }

    /// The id the next request will get.
    pub closed spec fn next_response_id(&self) -> u64 {
        self.next_id
    }

    /// Every outstanding id is queued under its user.
    pub open spec fn wf(&self) -> bool {
        forall|id: u64| #[trigger]
            self.routes().contains_key(id) ==> self.queues().contains_key(self.routes()[id].0.0)
                && self.queues()[self.routes()[id].0.0].contains(id)
    }

    /// No id at or past the next one has been handed out.
    pub open spec fn fresh(&self) -> bool {
        &&& forall|id: u64| #[trigger] self.routes().contains_key(id) ==> id < self.next_response_id()
        &&& forall|u: u64, j: int|
            self.queues().contains_key(u) && 0 <= j < self.queues()[u].len() ==> #[trigger] self.queues()[u][j]
                < self.next_response_id()
    }

    /// Each user's queue holds, among outstanding ids, only that user's own.
    pub open spec fn owned(&self) -> bool {
        forall|u: u64, j: int|
            self.queues().contains_key(u) && 0 <= j < self.queues()[u].len() && self.routes().contains_key(
                #[trigger] self.queues()[u][j],
            ) ==> self.routes()[self.queues()[u][j]].0.0 == u
    }

    /// A manager with no requests.
    pub fn new() -> (r: Self)
        ensures
            r.routes() == Map::<u64, ResponseRoute>::empty(),
            r.queues() == Map::<u64, Seq<u64>>::empty(),
            r.next_response_id() == 0,
            r.wf(),
            r.fresh(),
            r.owned(),
    {
        let r = Self { map: HashMap::new(), order: HashMap::new(), next_id: 0 };
        proof {
            assert(r.queues() =~= Map::<u64, Seq<u64>>::empty());
        }
        r
    }

    /// Number of outstanding response ids, across all users.
    pub fn outstanding(&self) -> (r: usize)
        ensures
            r == self.routes().len(),
    {
        self.map.len()
    }

    /// Length of `user_key`'s arrival queue, or `None` when the user has none.
    pub fn order_len(&self, user_key: &UserKey) -> (r: Option<usize>)
        ensures
            self.queues().contains_key(user_key.0) ==> r == Some(
                self.queues()[user_key.0].len() as usize,
            ),
            !self.queues().contains_key(user_key.0) ==> r is None,
    {
        match self.order.get(&user_key.0) {
            Some(q) => Some(q.len()),
            None => None,
        }
    }

    /// Records a request from `user_key` and returns the id its answer must
    /// quote. The user's queue first sheds leading ids already answered; then,
    /// while it is over the cap, the oldest ids are dropped and their
    /// requests become unanswerable.
    pub fn create_response_id(
        &mut self,
        user_key: &UserKey,
        channel_kind: &ChannelKind,
        local_response_id: &LocalResponseId,
    ) -> (r: GlobalResponseId)
        ensures
            r.0 == old(self).next_response_id(),
            final(self).next_response_id() == next_id_after(old(self).next_response_id()),
            ({
                let u = user_key.0;
                let m1 = old(self).routes().insert(r.0, (*user_key, *channel_kind, *local_response_id));
                let q0 = if old(self).queues().contains_key(u) {
                    old(self).queues()[u]
                } else {
                    Seq::<u64>::empty()
                };
                let q2 = skip_answered(q0.push(r.0), m1);
                let k = eviction_count(q2.len() as int);
                &&& final(self).routes() == m1.remove_keys(q2.subrange(0, k).to_set())
                &&& final(self).queues() == old(self).queues().insert(
                    u,
                    q2.subrange(k, q2.len() as int),
                )
            }),
            old(self).wf() ==> final(self).wf(),
            old(self).wf() ==> live_ids_of(final(self).routes(), *user_key).len()
                <= MAX_OUTSTANDING_RESPONSES_PER_USER,
            (old(self).fresh() && old(self).owned() && old(self).next_response_id() < u64::MAX)
                ==> {
                &&& final(self).fresh()
                &&& final(self).owned()
                &&& final(self).routes().contains_key(r.0)
                &&& forall|id: u64|
                    #![trigger old(self).routes().contains_key(id)]
                    old(self).routes().contains_key(id) && old(self).routes()[id].0 != *user_key
                        ==> final(self).routes().contains_key(id) && final(self).routes()[id]
                        == old(self).routes()[id]
            },
    {
        let ghost old_routes = self.map@;
        let ghost old_queues = self.queues();
        let id = GlobalResponseId(self.next_id);
        self.next_id = wrapping_increment(self.next_id);
        self.map.insert(id.0, (*user_key, *channel_kind, *local_response_id));
        let ghost m1 = self.map@;
        let mut queue = match self.order.remove(&user_key.0) {
            Some(q) => q,
            None => VecDeque::new(),
        };
        let ghost q0 = queue@;
        let ghost order_without = self.order@;
        proof {
            assert(q0 == (if old_queues.contains_key(user_key.0) {
                old_queues[user_key.0]
            } else {
                Seq::<u64>::empty()
            }));
        }
        queue.push_back(id.0);
        let ghost q1 = queue@;
        // Discard ids the application has already answered: letting them count
        // toward the cap would evict live requests early.
        loop
            invariant
                skip_answered(queue@, m1) == skip_answered(q1, m1),
                self.map@ == m1,
                self.next_id == next_id_after(id.0),
                self.order@ == order_without,
            ensures
                self.next_id == next_id_after(id.0),
                self.order@ == order_without,
                queue@ == skip_answered(q1, m1),
                self.map@ == m1,
            decreases queue@.len(),
        {
            if queue.len() == 0 {
                break;
            }
            if self.map.contains_key(&queue[0]) {
                break;
            }
            queue.pop_front();
        }
        let ghost q2 = queue@;
        let ghost k = eviction_count(q2.len() as int);
        // Evict the oldest still-queued ids until the user is back under the cap.
        while queue.len() > MAX_OUTSTANDING_RESPONSES_PER_USER
            invariant
                q2.len() >= queue@.len(),
                queue@ == q2.subrange(q2.len() - queue@.len(), q2.len() as int),
                queue@.len() >= MAX_OUTSTANDING_RESPONSES_PER_USER || queue@ == q2,
                self.map@ == m1.remove_keys(q2.subrange(0, q2.len() - queue@.len()).to_set()),
                self.next_id == next_id_after(id.0),
                self.order@ == order_without,
            decreases queue@.len(),
        {
            let ghost before = queue@;
            let oldest = queue.pop_front();
            match oldest {
                Some(oldest) => {
                    self.map.remove(&oldest);
                    proof {
                        let d = q2.len() - before.len();
                        assert(q2.subrange(0, d + 1) =~= q2.subrange(0, d).push(oldest));
                        q2.subrange(0, d).lemma_push_to_set_commute(oldest);
                        assert(queue@ =~= q2.subrange(d + 1, q2.len() as int));
                        assert(self.map@ =~= m1.remove_keys(q2.subrange(0, d + 1).to_set()));
                    }
                },
                None => {},
            }
        }
        proof {
            assert(q2.len() - queue@.len() == k);
            assert(q2.subrange(0, 0) =~= Seq::<u64>::empty());
        }
        self.order.insert(user_key.0, queue);
        proof {
            assert(order_without == old(self).order@.remove(user_key.0));
            assert(self.order@ == old(self).order@.remove(user_key.0).insert(user_key.0, queue));
            assert(self.queues() =~= old_queues.insert(user_key.0, q2.subrange(k, q2.len() as int)));
            self.lemma_create_laws(old(self), *user_key, id.0, m1, q0, q2, k);
        }
        id
    }

    proof fn lemma_create_laws(
        &self,
        pre: &Self,
        user: UserKey,
        id: u64,
        m1: Map<u64, ResponseRoute>,
        q0: Seq<u64>,
        q2: Seq<u64>,
        k: int,
    )
        requires
            id == pre.next_response_id(),
            self.next_response_id() == next_id_after(id),
            m1.contains_key(id) && m1[id].0 == user,
            forall|i: u64| i != id ==> (#[trigger] m1.contains_key(i) <==> pre.routes().contains_key(i)),
            forall|i: u64| i != id && #[trigger] m1.contains_key(i) ==> m1[i] == pre.routes()[i],
            q0 == (if pre.queues().contains_key(user.0) {
                pre.queues()[user.0]
            } else {
                Seq::<u64>::empty()
            }),
            q2 == skip_answered(q0.push(id), m1),
            k == eviction_count(q2.len() as int),
            self.routes() == m1.remove_keys(q2.subrange(0, k).to_set()),
            self.queues() == pre.queues().insert(user.0, q2.subrange(k, q2.len() as int)),
        ensures
            pre.wf() ==> self.wf(),
            pre.wf() ==> live_ids_of(self.routes(), user).len() <= MAX_OUTSTANDING_RESPONSES_PER_USER,
            (pre.fresh() && pre.owned() && pre.next_response_id() < u64::MAX) ==> {
                &&& self.fresh()
                &&& self.owned()
                &&& self.routes().contains_key(id)
                &&& forall|i: u64|
                    #![trigger pre.routes().contains_key(i)]
                    pre.routes().contains_key(i) && pre.routes()[i].0 != user ==> self.routes().contains_key(i)
                        && self.routes()[i] == pre.routes()[i]
            },
    {
        let q1 = q0.push(id);
        lemma_skip_answered(q1, m1);
        let s = choose|s: int|
            0 <= s <= q1.len() && skip_answered(q1, m1) == q1.subrange(s, q1.len() as int) && (forall|
                j: int,
            |
                0 <= j < s ==> !m1.contains_key(#[trigger] q1[j]));
        // the newest id is the last queued one and survives the skip
        assert(s < q1.len()) by {
            if s == q1.len() {
                assert(!m1.contains_key(q1[q1.len() - 1]));
            }
        }
        assert(q2.len() == q1.len() - s);
        assert(q2[q2.len() - 1] == id);
        let q3 = q2.subrange(k, q2.len() as int);
        assert(q3.len() <= MAX_OUTSTANDING_RESPONSES_PER_USER);
        assert(q3.len() >= 1);
        assert(q3[q3.len() - 1] == id);
        if pre.wf() {
            assert forall|i: u64| #[trigger] self.routes().contains_key(i) implies self.queues().contains_key(
                self.routes()[i].0.0,
            ) && self.queues()[self.routes()[i].0.0].contains(i) by {
                assert(m1.contains_key(i) && !q2.subrange(0, k).to_set().contains(i));
                if i == id {
                    assert(q3.contains(i)) by {
                        assert(q3[q3.len() - 1] == i);
                    }
                } else if m1[i].0 == user {
                    // i was queued under the user before; it is outstanding, so the
                    // skip kept it, and the eviction did not drop it
                    assert(pre.routes().contains_key(i));
                    let j = choose|j: int| 0 <= j < q0.len() && q0[j] == i;
                    assert(q1[j] == i);
                    assert(j >= s);
                    assert(q2[j - s] == i);
                    if j - s < k {
                        assert(q2.subrange(0, k)[j - s] == i);
                        assert(q2.subrange(0, k).contains(i));
                    }
                    assert(q3[j - s - k] == i);
                } else {
                    assert(pre.routes().contains_key(i));
                }
            }
            let live = live_ids_of(self.routes(), user);
            assert(live.subset_of(q3.to_set())) by {
                assert forall|i: u64| #[trigger] live.contains(i) implies q3.to_set().contains(i) by {
                    assert(self.routes().contains_key(i));
                    assert(self.queues()[user.0] == q3);
                }
            }
            q3.lemma_cardinality_of_set();
            vstd::set_lib::lemma_len_subset(live, q3.to_set());
        }
        if pre.fresh() && pre.owned() && pre.next_response_id() < u64::MAX {
            assert(self.next_response_id() == id + 1);
            // ids queued before are all older than the new one
            assert forall|j: int| 0 <= j < q1.len() - 1 implies #[trigger] q1[j] < id by {
                assert(q1[j] == q0[j]);
                if pre.queues().contains_key(user.0) {
                    assert(pre.queues()[user.0][j] < pre.next_response_id());
                }
            }
            assert(!q2.subrange(0, k).to_set().contains(id)) by {
                if q2.subrange(0, k).contains(id) {
                    let j = choose|j: int| 0 <= j < k && q2.subrange(0, k)[j] == id;
                    assert(q1[j + s] == id);
                }
            }
            assert(self.routes().contains_key(id));
            assert forall|i: u64|
                #![trigger pre.routes().contains_key(i)]
                pre.routes().contains_key(i) && pre.routes()[i].0 != user implies self.routes().contains_key(i)
                    && self.routes()[i] == pre.routes()[i] by {
                assert(i < id);
                if q2.subrange(0, k).contains(i) {
                    let j = choose|j: int| 0 <= j < k && q2.subrange(0, k)[j] == i;
                    assert(q1[j + s] == i);
                    assert(q0[j + s] == i);
                    assert(pre.queues()[user.0][j + s] == i);
                }
            }
            assert forall|u: u64, j: int|
                self.queues().contains_key(u) && 0 <= j < self.queues()[u].len() implies #[trigger] self.queues()[u][j]
                < self.next_response_id() by {
                if u == user.0 {
                    assert(q3[j] == q1[j + k + s]);
                } else {
                    assert(self.queues()[u] == pre.queues()[u]);
                }
            }
            assert forall|u: u64, j: int|
                self.queues().contains_key(u) && 0 <= j < self.queues()[u].len() && self.routes().contains_key(
                    #[trigger] self.queues()[u][j],
                ) implies self.routes()[self.queues()[u][j]].0.0 == u by {
                let x = self.queues()[u][j];
                if u == user.0 {
                    assert(x == q1[j + k + s]);
                    if x != id {
                        assert(x == q0[j + k + s]);
                        assert(pre.queues()[user.0][j + k + s] == x);
                    }
                } else {
                    assert(self.queues()[u] == pre.queues()[u]);
                    assert(x < id);
                }
            }
        }
    }

    /// Where the answer to `global_response_id` must go, without consuming
    /// the id: a refused send must stay retryable.
    pub fn peek_response_id(&self, global_response_id: &GlobalResponseId) -> (r: Option<ResponseRoute>)
        ensures
            self.routes().contains_key(global_response_id.0) ==> r == Some(
                self.routes()[global_response_id.0],
            ),
            !self.routes().contains_key(global_response_id.0) ==> r is None,
    {
        match self.map.get(&global_response_id.0) {
            Some(route) => Some(*route),
            None => None,
        }
    }

    /// Consumes `global_response_id`, returning where its answer goes.
    pub fn destroy_response_id(&mut self, global_response_id: &GlobalResponseId) -> (r: Option<
        ResponseRoute,
    >)
        ensures
            old(self).routes().contains_key(global_response_id.0) ==> r == Some(
                old(self).routes()[global_response_id.0],
            ),
            !old(self).routes().contains_key(global_response_id.0) ==> r is None,
            final(self).routes() == old(self).routes().remove(global_response_id.0),
            final(self).queues() == old(self).queues(),
            final(self).next_response_id() == old(self).next_response_id(),
            old(self).wf() ==> final(self).wf(),
            old(self).fresh() ==> final(self).fresh(),
            old(self).owned() ==> final(self).owned(),
    {
        self.map.remove(&global_response_id.0)
    }

    /// Removes every request from `user_key` and the user's arrival queue.
    pub fn purge_user(&mut self, user_key: &UserKey)
        ensures
            final(self).routes() == old(self).routes().filter_keys(
                |id: u64| old(self).routes()[id].0 != *user_key,
            ),
            final(self).queues() == old(self).queues().remove(user_key.0),
            final(self).next_response_id() == old(self).next_response_id(),
            old(self).wf() ==> final(self).wf(),
            old(self).fresh() ==> final(self).fresh(),
            old(self).owned() ==> final(self).owned(),
    {
        let ids = keys_of(&self.map);
        let ghost old_routes = self.map@;
        let mut i: usize = 0;
        while i < ids.len()
            invariant
                i <= ids@.len(),
                ids@.to_set() == old_routes.dom(),
                ids@.no_duplicates(),
                old_routes == old(self).routes(),
                self.next_id == old(self).next_id,
                self.order@ == old(self).order@,
                forall|id: u64|
                    #![trigger self.map@.contains_key(id)]
                    self.map@.contains_key(id) <==> (old_routes.contains_key(id) && (
                    old_routes[id].0 != *user_key || !ids@.take(i as int).contains(id))),
                forall|id: u64| #[trigger]
                    self.map@.contains_key(id) ==> self.map@[id] == old_routes[id],
            decreases ids@.len() - i,
        {
            let id = ids[i];
            proof {
                if ids@.take(i as int).contains(id) {
                    let j = choose|j: int| 0 <= j < i && ids@.take(i as int)[j] == id;
                    assert(ids@[j] == ids@[i as int]);
                }
            }
            let remove = match self.map.get(&id) {
                Some(entry) => entry.0 == *user_key,
                None => false,
            };
            if remove {
                self.map.remove(&id);
            }
            proof {
                assert(old_routes.contains_key(id)) by {
                    assert(ids@.contains(id));
                }
                assert forall|x: u64| #[trigger]
                    self.map@.contains_key(x) <==> (old_routes.contains_key(x) && (
                    old_routes[x].0 != *user_key || !ids@.take(i + 1).contains(x))) by {
                    if x != id {
                        assert(ids@.take(i + 1).contains(x) <==> ids@.take(i as int).contains(x));
                    } else {
                        assert(ids@.take(i + 1)[i as int] == id);
                    }
                }
            }
            i += 1;
        }
        self.order.remove(&user_key.0);
        proof {
            assert(ids@.take(ids@.len() as int) =~= ids@);
            assert(self.map@ =~= old_routes.filter_keys(|id: u64| old_routes[id].0 != *user_key));
            assert(self.queues() =~= old(self).queues().remove(user_key.0));
        }
    }
}

/// What became of an attempt to send a response.
#[derive(Clone, Copy, PartialEq, Eq, Debug, Structural)]
pub enum ResponseSendOutcome {
    /// Queued on the reliable channel; the response id is used up.
    Sent,
    /// The channel's send queue is full. Nothing was queued and the id is
    /// still valid: hold the response and try again on a later frame.
    Backpressured,
    /// It can never be delivered (the user disconnected, or the id was
    /// already answered). Drop it.
    Undeliverable,
}

} // verus!
