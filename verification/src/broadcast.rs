use vstd::prelude::*;

use crate::pb::{resp_values, vals_view, CommandResponse, RespV, Val, Value, Vv};
use crate::strutil::str_eq_string;

verus! {

/// The capacity of each subscriber's outbound queue.
pub const QUEUE_CAPACITY: usize = 128;

/// One topic and the ids subscribed to it, in subscription order.
struct TopicEntry {
    name: String,
    ids: Vec<u32>,
}

/// One live subscription and its bounded outbound queue (front = oldest).
struct SubEntry {
    id: u32,
    queue: Vec<CommandResponse>,
}

/// The topic registry, subscription table and id allocator of the pub/sub
/// broker.
pub struct Broadcaster {
    topics: Vec<TopicEntry>,
    subs: Vec<SubEntry>,
    next_id: u32,
}

/// The model of the broker: topic name to subscriber ids in order,
/// subscription id to pending responses in order, and the next fresh id.
pub struct BcastV {
    pub topics: Map<Seq<char>, Seq<u32>>,
    pub queues: Map<u32, Seq<RespV>>,
    pub next_id: u32,
}

spec fn queue_view(q: Seq<CommandResponse>) -> Seq<RespV> {
    q.map_values(|r: CommandResponse| r@)
}

spec fn topics_model(ts: Seq<TopicEntry>) -> Map<Seq<char>, Seq<u32>>
    decreases ts.len(),
{
    if ts.len() == 0 {
        Map::<Seq<char>, Seq<u32>>::empty()
    } else {
        topics_model(ts.drop_last()).insert(ts.last().name@, ts.last().ids@)
    }
}

spec fn subs_model(ss: Seq<SubEntry>) -> Map<u32, Seq<RespV>>
    decreases ss.len(),
{
    if ss.len() == 0 {
        Map::<u32, Seq<RespV>>::empty()
    } else {
        subs_model(ss.drop_last()).insert(ss.last().id, queue_view(ss.last().queue@))
    }
}

spec fn topics_distinct(ts: Seq<TopicEntry>) -> bool {
    forall|i: int, j: int|
        0 <= i < j < ts.len() ==> (#[trigger] ts[i]).name@ != (#[trigger] ts[j]).name@
}

spec fn subs_distinct(ss: Seq<SubEntry>) -> bool {
    forall|i: int, j: int| 0 <= i < j < ss.len() ==> (#[trigger] ss[i]).id != (#[trigger] ss[j]).id
}

impl View for Broadcaster {
    type V = BcastV;

    closed spec fn view(&self) -> BcastV {
        BcastV {
            topics: topics_model(self.topics@),
            queues: subs_model(self.subs@),
            next_id: self.next_id,
        }
    }
}

/// A subscriber list carries no duplicate ids.
pub open spec fn ids_distinct(ids: Seq<u32>) -> bool {
    forall|i: int, j: int| 0 <= i < j < ids.len() ==> ids[i] != ids[j]
}

/// The broker's stated invariant, over its model: every id in any topic's
/// subscriber list has a live queue and vice versa, an id is subscribed to at
/// most one topic, subscriber lists carry no duplicates, and every live id is
/// below the allocator.
pub open spec fn wf_view(b: BcastV) -> bool {
    &&& forall|t: Seq<char>, x: u32|
        b.topics.contains_key(t) && #[trigger] b.topics[t].contains(x) ==> b.queues.contains_key(x)
    &&& forall|x: u32|
        #[trigger] b.queues.contains_key(x) ==> exists|t: Seq<char>|
            b.topics.contains_key(t) && #[trigger] b.topics[t].contains(x)
    &&& forall|t1: Seq<char>, t2: Seq<char>, x: u32|
        t1 != t2 && b.topics.contains_key(t1) && b.topics.contains_key(t2) && #[trigger] b
            .topics[t1].contains(x) ==> !(#[trigger] b.topics[t2].contains(x))
    &&& forall|t: Seq<char>| #[trigger] b.topics.contains_key(t) ==> ids_distinct(b.topics[t])
    &&& forall|t: Seq<char>, x: u32|
        b.topics.contains_key(t) && #[trigger] b.topics[t].contains(x) ==> x < b.next_id
    &&& forall|x: u32| #[trigger] b.queues.contains_key(x) ==> x < b.next_id
    &&& b.next_id >= 1
}

impl Broadcaster {
    /// Internal well-formedness: distinct topic names and subscription ids in
    /// the backing lists, and the model invariant.
    pub closed spec fn wf(&self) -> bool {
        &&& topics_distinct(self.topics@)
        &&& subs_distinct(self.subs@)
        &&& wf_view(self@)
    }

    /// Creates a broker with no topics and no subscriptions; ids start at 1.
    pub fn new() -> (r: Self)
        ensures
            r.wf(),
            r@.topics == Map::<Seq<char>, Seq<u32>>::empty(),
            r@.queues == Map::<u32, Seq<RespV>>::empty(),
            r@.next_id == 1u32,
    {
        Broadcaster { topics: Vec::new(), subs: Vec::new(), next_id: 1 }
    }
}

impl Default for Broadcaster {
    /// A broker with no topics and no subscriptions.
    fn default() -> (r: Self)
        ensures
            r.wf(),
            r@.topics == Map::<Seq<char>, Seq<u32>>::empty(),
            r@.queues == Map::<u32, Seq<RespV>>::empty(),
            r@.next_id == 1u32,
    {
        Broadcaster::new()
    }
}



/// The informational response that tells a fresh subscriber its id.
pub open spec fn sub_id_resp(id: u32) -> RespV {
    resp_values(seq![Some(Vv::Integer(id as i64))])
}

/// One attempted delivery: the response is appended unless the queue is
/// full, in which case it is dropped.
pub open spec fn publish1(q: Seq<RespV>, r: RespV, cap: nat) -> Seq<RespV> {
    if q.len() < cap {
        q.push(r)
    } else {
        q
    }
}

/// What `subscribe(topic)` does: allocate the next id, append it to the
/// topic's subscriber list, and open its queue with the id response queued.
pub open spec fn subscribe_post(pre: BcastV, post: BcastV, topic: Seq<char>, id: u32) -> bool {
    &&& id == pre.next_id
    &&& !pre.queues.contains_key(id)
    &&& post.next_id == pre.next_id + 1
    &&& post.topics == pre.topics.insert(
        topic,
        (if pre.topics.contains_key(topic) {
            pre.topics[topic]
        } else {
            Seq::<u32>::empty()
        }).push(id),
    )
    &&& post.queues == pre.queues.insert(id, seq![sub_id_resp(id)])
}

/// What `unsubscribe(topic, id)` does: report whether the id was subscribed
/// to the topic, and if so drop it from the topic's list and close its queue.
pub open spec fn unsubscribe_post(
    pre: BcastV,
    post: BcastV,
    topic: Seq<char>,
    id: u32,
    r: bool,
) -> bool {
    &&& r == (pre.topics.contains_key(topic) && pre.topics[topic].contains(id))
    &&& if r {
        &&& post.topics.dom() == pre.topics.dom()
        &&& post.topics.contains_key(topic)
        &&& !post.topics[topic].contains(id)
        &&& forall|x: u32|
            x != id ==> (post.topics[topic].contains(x) <==> pre.topics[topic].contains(x))
        &&& forall|t: Seq<char>|
            t != topic && pre.topics.contains_key(t) ==> post.topics[t] == pre.topics[t]
        &&& post.queues == pre.queues.remove(id)
        &&& post.next_id == pre.next_id
    } else {
        post == pre
    }
}

/// What `publish(topic, data)` does: attempt one delivery of the response to
/// each subscriber of the topic; every other queue, the registry and the
/// allocator are untouched.
pub open spec fn publish_post(pre: BcastV, post: BcastV, topic: Seq<char>, resp: RespV) -> bool {
    &&& post.topics == pre.topics
    &&& post.next_id == pre.next_id
    &&& post.queues.dom() == pre.queues.dom()
    &&& forall|id: u32|
        pre.queues.contains_key(id) ==> post.queues[id] == (if pre.topics.contains_key(topic)
            && pre.topics[topic].contains(id) {
            publish1(pre.queues[id], resp, QUEUE_CAPACITY as nat)
        } else {
            pre.queues[id]
        })
}

/// What `recv(id)` does: pop the oldest pending response of the queue, or
/// report that nothing is pending (or the subscription is closed).
pub open spec fn recv_post(pre: BcastV, post: BcastV, id: u32, r: Option<RespV>) -> bool {
    &&& post.topics == pre.topics
    &&& post.next_id == pre.next_id
    &&& match r {
        Some(resp) => {
            &&& pre.queues.contains_key(id)
            &&& pre.queues[id].len() > 0
            &&& resp == pre.queues[id][0]
            &&& post.queues == pre.queues.insert(id, pre.queues[id].drop_first())
        },
        None => {
            &&& (!pre.queues.contains_key(id) || pre.queues[id].len() == 0)
            &&& post == pre
        },
    }
}

proof fn lemma_topics_absent(ts: Seq<TopicEntry>, t: Seq<char>)
    requires
        forall|i: int| 0 <= i < ts.len() ==> (#[trigger] ts[i]).name@ != t,
    ensures
        !topics_model(ts).contains_key(t),
    decreases ts.len(),
{
    if ts.len() > 0 {
        lemma_topics_absent(ts.drop_last(), t);
    }
}

proof fn lemma_topics_present(ts: Seq<TopicEntry>, i: int)
    requires
        topics_distinct(ts),
        0 <= i < ts.len(),
    ensures
        topics_model(ts).contains_key(ts[i].name@),
        topics_model(ts)[ts[i].name@] == ts[i].ids@,
    decreases ts.len(),
{
    if i < ts.len() - 1 {
        assert(topics_distinct(ts.drop_last()));
        lemma_topics_present(ts.drop_last(), i);
    }
}

proof fn lemma_topics_push(ts: Seq<TopicEntry>, te: TopicEntry)
    ensures
        topics_model(ts.push(te)) == topics_model(ts).insert(te.name@, te.ids@),
{
    assert(ts.push(te).drop_last() =~= ts);
    assert(ts.push(te).last() == te);
}

proof fn lemma_topics_update(ts: Seq<TopicEntry>, i: int, te: TopicEntry)
    requires
        topics_distinct(ts),
        0 <= i < ts.len(),
        te.name@ == ts[i].name@,
    ensures
        topics_model(ts.update(i, te)) =~= topics_model(ts).insert(te.name@, te.ids@),
        topics_distinct(ts.update(i, te)),
    decreases ts.len(),
{
    let ts2 = ts.update(i, te);
    assert(topics_distinct(ts2));
    if i == ts.len() - 1 {
        assert(ts2.drop_last() =~= ts.drop_last());
        assert(ts2.last() == te);
    } else {
        assert(ts2.drop_last() =~= ts.drop_last().update(i, te));
        assert(ts2.last() == ts.last());
        assert(topics_distinct(ts.drop_last()));
        lemma_topics_update(ts.drop_last(), i, te);
        assert(ts.last().name@ != te.name@);
        assert(topics_model(ts.drop_last()).insert(te.name@, te.ids@).insert(
            ts.last().name@,
            ts.last().ids@,
        ) =~= topics_model(ts.drop_last()).insert(ts.last().name@, ts.last().ids@).insert(
            te.name@,
            te.ids@,
        ));
    }
}

proof fn lemma_subs_absent(ss: Seq<SubEntry>, id: u32)
    requires
        forall|i: int| 0 <= i < ss.len() ==> (#[trigger] ss[i]).id != id,
    ensures
        !subs_model(ss).contains_key(id),
    decreases ss.len(),
{
    if ss.len() > 0 {
        lemma_subs_absent(ss.drop_last(), id);
    }
}

proof fn lemma_subs_present(ss: Seq<SubEntry>, i: int)
    requires
        subs_distinct(ss),
        0 <= i < ss.len(),
    ensures
        subs_model(ss).contains_key(ss[i].id),
        subs_model(ss)[ss[i].id] == queue_view(ss[i].queue@),
    decreases ss.len(),
{
    if i < ss.len() - 1 {
        assert(subs_distinct(ss.drop_last()));
        lemma_subs_present(ss.drop_last(), i);
    }
}

proof fn lemma_subs_push(ss: Seq<SubEntry>, se: SubEntry)
    ensures
        subs_model(ss.push(se)) == subs_model(ss).insert(se.id, queue_view(se.queue@)),
{
    assert(ss.push(se).drop_last() =~= ss);
    assert(ss.push(se).last() == se);
}

proof fn lemma_subs_update(ss: Seq<SubEntry>, i: int, se: SubEntry)
    requires
        subs_distinct(ss),
        0 <= i < ss.len(),
        se.id == ss[i].id,
    ensures
        subs_model(ss.update(i, se)) =~= subs_model(ss).insert(se.id, queue_view(se.queue@)),
        subs_distinct(ss.update(i, se)),
    decreases ss.len(),
{
    let ss2 = ss.update(i, se);
    assert(subs_distinct(ss2));
    if i == ss.len() - 1 {
        assert(ss2.drop_last() =~= ss.drop_last());
        assert(ss2.last() == se);
    } else {
        assert(ss2.drop_last() =~= ss.drop_last().update(i, se));
        assert(ss2.last() == ss.last());
        assert(subs_distinct(ss.drop_last()));
        lemma_subs_update(ss.drop_last(), i, se);
        assert(ss.last().id != se.id);
        assert(subs_model(ss.drop_last()).insert(se.id, queue_view(se.queue@)).insert(
            ss.last().id,
            queue_view(ss.last().queue@),
        ) =~= subs_model(ss.drop_last()).insert(ss.last().id, queue_view(ss.last().queue@)).insert(
            se.id,
            queue_view(se.queue@),
        ));
    }
}

proof fn lemma_subs_remove(ss: Seq<SubEntry>, i: int)
    requires
        subs_distinct(ss),
        0 <= i < ss.len(),
    ensures
        subs_model(ss.remove(i)) =~= subs_model(ss).remove(ss[i].id),
        subs_distinct(ss.remove(i)),
    decreases ss.len(),
{
    let id = ss[i].id;
    let ss2 = ss.remove(i);
    assert(subs_distinct(ss2)) by {
        assert forall|a: int, b: int| 0 <= a < b < ss2.len() implies (#[trigger] ss2[a]).id != (
        #[trigger] ss2[b]).id by {
            let a0 = if a < i {
                a
            } else {
                a + 1
            };
            let b0 = if b < i {
                b
            } else {
                b + 1
            };
            assert(ss2[a] == ss[a0]);
            assert(ss2[b] == ss[b0]);
        }
    }
    if i == ss.len() - 1 {
        assert(ss2 =~= ss.drop_last());
        assert forall|j: int| 0 <= j < ss.drop_last().len() implies (
        #[trigger] ss.drop_last()[j]).id != id by {
            assert(ss.drop_last()[j] == ss[j]);
        }
        lemma_subs_absent(ss.drop_last(), id);
    } else {
        assert(ss2.drop_last() =~= ss.drop_last().remove(i));
        assert(ss2.last() == ss.last());
        assert(subs_distinct(ss.drop_last()));
        lemma_subs_remove(ss.drop_last(), i);
        assert(ss.last().id != id);
        assert(subs_model(ss.drop_last()).remove(id).insert(
            ss.last().id,
            queue_view(ss.last().queue@),
        ) =~= subs_model(ss.drop_last()).insert(ss.last().id, queue_view(ss.last().queue@)).remove(
            id,
        ));
    }
}

/// Finds the index of `name` in the topic registry.
fn find_topic(topics: &Vec<TopicEntry>, name: &str) -> (r: Option<usize>)
    ensures
        match r {
            Some(i) => i < topics@.len() && topics@[i as int].name@ == name@,
            None => forall|i: int| 0 <= i < topics@.len() ==> (#[trigger] topics@[i]).name@
                != name@,
        },
{
    let mut i: usize = 0;
    while i < topics.len()
        invariant
            0 <= i <= topics@.len(),
            forall|j: int| 0 <= j < i as int ==> (#[trigger] topics@[j]).name@ != name@,
        decreases topics@.len() - i,
    {
        if str_eq_string(name, &topics[i].name) {
            return Some(i);
        }
        i = i + 1;
    }
    None
}

/// Finds the index of the subscription `id`.
fn find_sub(subs: &Vec<SubEntry>, id: u32) -> (r: Option<usize>)
    ensures
        match r {
            Some(i) => i < subs@.len() && subs@[i as int].id == id,
            None => forall|i: int| 0 <= i < subs@.len() ==> (#[trigger] subs@[i]).id != id,
        },
{
    let mut i: usize = 0;
    while i < subs.len()
        invariant
            0 <= i <= subs@.len(),
            forall|j: int| 0 <= j < i as int ==> (#[trigger] subs@[j]).id != id,
        decreases subs@.len() - i,
    {
        if subs[i].id == id {
            return Some(i);
        }
        i = i + 1;
    }
    None
}

/// Finds the index of `id` in a subscriber list.
fn find_id(ids: &Vec<u32>, id: u32) -> (r: Option<usize>)
    ensures
        match r {
            Some(i) => i < ids@.len() && ids@[i as int] == id,
            None => !ids@.contains(id),
        },
{
    let mut i: usize = 0;
    while i < ids.len()
        invariant
            0 <= i <= ids@.len(),
            forall|j: int| 0 <= j < i as int ==> ids@[j] != id,
        decreases ids@.len() - i,
    {
        if ids[i] == id {
            return Some(i);
        }
        i = i + 1;
    }
    proof {
        assert forall|j: int| 0 <= j < ids@.len() implies ids@[j] != id by {}
    }
    None
}

proof fn lemma_subs_contains(ss: Seq<SubEntry>, id: u32)
    requires
        subs_model(ss).contains_key(id),
    ensures
        exists|i: int| 0 <= i < ss.len() && (#[trigger] ss[i]).id == id,
    decreases ss.len(),
{
    if ss.len() > 0 {
        if ss.last().id == id {
            assert(ss[ss.len() - 1].id == id);
        } else {
            lemma_subs_contains(ss.drop_last(), id);
        }
    }
}

impl Broadcaster {
    /// Opens a subscription on `topic`: allocates a fresh id, registers it,
    /// and queues the informational response that carries the id.
    ///
    /// The reader end is `recv(id)`; the subscription lives until
    /// `unsubscribe(topic, id)`.
    pub fn subscribe(&mut self, topic: String) -> (id: u32)
        requires
            old(self).wf(),
            old(self)@.next_id < u32::MAX,
        ensures
            final(self).wf(),
            subscribe_post(old(self)@, final(self)@, topic@, id),
    {
        let ghost pre = self@;
        let id = self.next_id;
        self.next_id = self.next_id + 1;
        let mut values: Vec<Value> = Vec::new();
        values.push(Value { value: Some(Val::Integer(id as i64)) });
        let resp = CommandResponse::ok_values(values);
        proof {
            assert(vals_view(values@) =~= seq![Some(Vv::Integer(id as i64))]);
            assert(resp@ == sub_id_resp(id));
        }
        match find_topic(&self.topics, topic.as_str()) {
            Some(ti) => {
                proof {
                    lemma_topics_present(self.topics@, ti as int);
                }
                let mut te = self.topics.remove(ti);
                te.ids.push(id);
                let ghost te1 = te;
                self.topics.insert(ti, te);
                proof {
                    assert(self.topics@ =~= old(self).topics@.update(ti as int, te1));
                    lemma_topics_update(old(self).topics@, ti as int, te1);
                }
            },
            None => {
                proof {
                    lemma_topics_absent(self.topics@, topic@);
                }
                let mut ids: Vec<u32> = Vec::new();
                ids.push(id);
                let te = TopicEntry { name: topic, ids };
                let ghost te1 = te;
                self.topics.push(te);
                proof {
                    assert(self.topics@ =~= old(self).topics@.push(te1));
                    lemma_topics_push(old(self).topics@, te1);
                    assert(te1.ids@ =~= Seq::<u32>::empty().push(id));
                }
            },
        }
        proof {
            assert(pre.next_id == id);
            assert(pre.queues == subs_model(old(self).subs@));
            assert(self.subs@ == old(self).subs@);
            assert(wf_view(pre));
            assert forall|k: int| 0 <= k < self.subs@.len() implies (#[trigger] self.subs@[k]).id
                != id by {
                lemma_subs_present(old(self).subs@, k);
                assert(pre.queues.contains_key(old(self).subs@[k].id));
                assert(old(self).subs@[k].id < pre.next_id);
            }
            lemma_subs_absent(self.subs@, id);
        }
        let mut queue: Vec<CommandResponse> = Vec::new();
        queue.push(resp);
        let se = SubEntry { id, queue };
        let ghost se1 = se;
        self.subs.push(se);
        proof {
            assert(self.subs@ =~= old(self).subs@.push(se1));
            lemma_subs_push(old(self).subs@, se1);
            assert(queue_view(se1.queue@) =~= seq![sub_id_resp(id)]);
            let post = self@;
            assert(post.topics =~= pre.topics.insert(
                topic@,
                (if pre.topics.contains_key(topic@) {
                    pre.topics[topic@]
                } else {
                    Seq::<u32>::empty()
                }).push(id),
            ));
            assert(post.queues =~= pre.queues.insert(id, seq![sub_id_resp(id)]));
            assert(subscribe_post(pre, post, topic@, id));
            // The invariant survives: the fresh id is above every live id.
            let newids = post.topics[topic@];
            assert(ids_distinct(newids)) by {
                if pre.topics.contains_key(topic@) {
                    let olds = pre.topics[topic@];
                    assert forall|j: int| 0 <= j < olds.len() implies olds[j] < id by {
                        assert(olds.contains(olds[j]));
                    }
                    assert(ids_distinct(olds));
                    assert(newids =~= olds.push(id));
                }
            }
            assert(subs_distinct(self.subs@));
            assert(topics_distinct(self.topics@));
            assert(wf_view(post)) by {
                assert forall|t: Seq<char>, x: u32|
                    post.topics.contains_key(t) && #[trigger] post.topics[t].contains(x) implies
                post.queues.contains_key(x) by {
                    if t == topic@ && x == id {
                    } else if t == topic@ {
                        assert(pre.topics.contains_key(t) ==> pre.topics[t].contains(x));
                    } else {
                        assert(pre.topics[t].contains(x));
                    }
                }
                assert forall|x: u32| #[trigger] post.queues.contains_key(x) implies exists|
                    t: Seq<char>,
                |
                    post.topics.contains_key(t) && #[trigger] post.topics[t].contains(x) by {
                    if x == id {
                        assert(post.topics[topic@].contains(id)) by {
                            assert(post.topics[topic@].last() == id);
                        }
                    } else {
                        let t = choose|t: Seq<char>|
                            pre.topics.contains_key(t) && (#[trigger] pre.topics[t]).contains(x);
                        if t == topic@ {
                            assert(post.topics[t].contains(x)) by {
                                let j = choose|j: int|
                                    0 <= j < pre.topics[t].len() && pre.topics[t][j] == x;
                                assert(post.topics[t][j] == x);
                            }
                        } else {
                            assert(post.topics[t].contains(x));
                        }
                    }
                }
                assert forall|t1: Seq<char>, t2: Seq<char>, x: u32|
                    t1 != t2 && post.topics.contains_key(t1) && post.topics.contains_key(t2)
                        && #[trigger] post.topics[t1].contains(x) implies !(
                    #[trigger] post.topics[t2].contains(x)) by {
                    if x == id {
                        // the fresh id appears only in `topic`
                        if t1 != topic@ {
                            assert(pre.topics[t1].contains(x));
                            assert(x < pre.next_id);
                            assert(false);
                        }
                        if t2 == topic@ {
                        } else {
                            if pre.topics.contains_key(t2) && pre.topics[t2].contains(x) {
                                assert(x < pre.next_id);
                                assert(false);
                            }
                        }
                    } else {
                        let olds1 = if t1 == topic@ && pre.topics.contains_key(t1) {
                            pre.topics[t1]
                        } else if t1 == topic@ {
                            Seq::<u32>::empty()
                        } else {
                            pre.topics[t1]
                        };
                        if t1 == topic@ {
                            let j = choose|j: int|
                                0 <= j < post.topics[t1].len() && post.topics[t1][j] == x;
                            assert(j < post.topics[t1].len() - 1);
                            assert(pre.topics.contains_key(t1) && pre.topics[t1].contains(x));
                        }
                        if t2 == topic@ {
                            if post.topics[t2].contains(x) {
                                let j = choose|j: int|
                                    0 <= j < post.topics[t2].len() && post.topics[t2][j] == x;
                                assert(j < post.topics[t2].len() - 1);
                                assert(pre.topics.contains_key(t2) && pre.topics[t2].contains(x));
                                assert(false);
                            }
                        } else {
                            assert(pre.topics[t1].contains(x) ==> !pre.topics[t2].contains(x));
                        }
                    }
                }
            }
        }
        id
    }

    /// Closes the subscription `id` on `topic`.  Returns whether it existed;
    /// when it did, the id leaves the registry and its queue is dropped, so
    /// the reader sees end-of-stream.
    pub fn unsubscribe(&mut self, topic: &str, id: u32) -> (r: bool)
        requires
            old(self).wf(),
        ensures
            final(self).wf(),
            unsubscribe_post(old(self)@, final(self)@, topic@, id, r),
    {
        let ghost pre = self@;
        match find_topic(&self.topics, topic) {
            Some(ti) => {
                proof {
                    lemma_topics_present(self.topics@, ti as int);
                }
                let mut te = self.topics.remove(ti);
                let ghost ids0 = te.ids@;
                match find_id(&te.ids, id) {
                    Some(j) => {
                        te.ids.remove(j);
                        let ghost te1 = te;
                        self.topics.insert(ti, te);
                        proof {
                            assert(self.topics@ =~= old(self).topics@.update(ti as int, te1));
                            lemma_topics_update(old(self).topics@, ti as int, te1);
                            assert(ids0.contains(id)) by {
                                assert(ids0[j as int] == id);
                            }
                        }
                        let si = match find_sub(&self.subs, id) {
                            Some(si) => si,
                            None => {
                                proof {
                                    assert(pre.topics[topic@].contains(id));
                                    assert(pre.queues.contains_key(id));
                                    lemma_subs_contains(old(self).subs@, id);
                                    assert(false);
                                }
                                0
                            },
                        };
                        proof {
                            lemma_subs_remove(self.subs@, si as int);
                        }
                        self.subs.remove(si);
                        proof {
                            let post = self@;
                            assert(post.queues =~= pre.queues.remove(id));
                            let ids1 = te1.ids@;
                            assert(ids1 =~= ids0.remove(j as int));
                            assert(ids_distinct(ids0));
                            assert(!ids1.contains(id)) by {
                                if ids1.contains(id) {
                                    let j2 = choose|j2: int|
                                        0 <= j2 < ids1.len() && ids1[j2] == id;
                                    let j0 = if j2 < j as int {
                                        j2
                                    } else {
                                        j2 + 1
                                    };
                                    assert(ids0[j0] == id);
                                    assert(j0 != j as int);
                                }
                            }
                            assert forall|x: u32| x != id implies (ids1.contains(x)
                                <==> ids0.contains(x)) by {
                                if ids0.contains(x) {
                                    let j2 = choose|j2: int|
                                        0 <= j2 < ids0.len() && ids0[j2] == x;
                                    if j2 < j as int {
                                        assert(ids1[j2] == x);
                                    } else {
                                        assert(ids1[j2 - 1] == x);
                                    }
                                }
                                if ids1.contains(x) {
                                    let j2 = choose|j2: int|
                                        0 <= j2 < ids1.len() && ids1[j2] == x;
                                    let j0 = if j2 < j as int {
                                        j2
                                    } else {
                                        j2 + 1
                                    };
                                    assert(ids0[j0] == x);
                                }
                            }
                            assert(post.topics.dom() =~= pre.topics.dom());
                            assert(unsubscribe_post(pre, post, topic@, id, true));
                            assert(ids_distinct(ids1));
                            assert(wf_view(post)) by {
                                assert forall|t: Seq<char>, x: u32|
                                    post.topics.contains_key(t) && #[trigger] post.topics[t]
                                        .contains(x) implies post.queues.contains_key(x) by {
                                    assert(pre.topics.contains_key(t) && pre.topics[t].contains(
                                        x,
                                    ));
                                    assert(x != id) by {
                                        if t == topic@ {
                                        } else {
                                            assert(pre.topics[topic@].contains(id));
                                        }
                                    }
                                }
                                assert forall|x: u32| #[trigger] post.queues.contains_key(
                                    x,
                                ) implies exists|t: Seq<char>|
                                    post.topics.contains_key(t) && #[trigger] post.topics[t]
                                        .contains(x) by {
                                    assert(x != id);
                                    let t = choose|t: Seq<char>|
                                        pre.topics.contains_key(t) && (
                                        #[trigger] pre.topics[t]).contains(x);
                                    assert(post.topics[t].contains(x));
                                }
                                assert forall|t1: Seq<char>, t2: Seq<char>, x: u32|
                                    t1 != t2 && post.topics.contains_key(t1)
                                        && post.topics.contains_key(t2) && #[trigger] post
                                        .topics[t1].contains(x) implies !(
                                #[trigger] post.topics[t2].contains(x)) by {
                                    assert(pre.topics[t1].contains(x));
                                    assert(pre.topics[t2].contains(x) ==> false);
                                }
                            }
                        }
                        true
                    },
                    None => {
                        let ghost te1 = te;
                        self.topics.insert(ti, te);
                        proof {
                            assert(self.topics@ =~= old(self).topics@.update(ti as int, te1));
                            lemma_topics_update(old(self).topics@, ti as int, te1);
                            assert(self.topics@ =~= old(self).topics@) by {
                                assert(old(self).topics@[ti as int] == te1);
                            }
                            assert(!pre.topics[topic@].contains(id));
                            assert(self@ == pre) by {
                                assert(topics_model(self.topics@) == topics_model(
                                    old(self).topics@,
                                ));
                            }
                        }
                        false
                    },
                }
            },
            None => {
                proof {
                    lemma_topics_absent(self.topics@, topic@);
                }
                false
            },
        }
    }

    /// Broadcasts one response carrying `data` to every subscriber of
    /// `topic`, dropping it for subscribers whose queue is full.  Publishing
    /// to an unknown topic is a silent no-op.
    pub fn publish(&mut self, topic: &str, data: Vec<Value>)
        requires
            old(self).wf(),
        ensures
            final(self).wf(),
            publish_post(old(self)@, final(self)@, topic@, resp_values(vals_view(data@))),
    {
        let ghost pre = self@;
        let ghost respv = resp_values(vals_view(data@));
        let resp = CommandResponse::ok_values(data);
        match find_topic(&self.topics, topic) {
            Some(ti) => {
                proof {
                    lemma_topics_present(self.topics@, ti as int);
                }
                let n = self.topics[ti].ids.len();
                let mut k: usize = 0;
                while k < n
                    invariant
                        topics_distinct(self.topics@),
                        subs_distinct(self.subs@),
                        ti < self.topics@.len(),
                        self.topics@ == old(self).topics@,
                        self.next_id == old(self).next_id,
                        resp@ == respv,
                        pre == old(self)@,
                        wf_view(pre),
                        self.topics@[ti as int].name@ == topic@,
                        pre.topics.contains_key(topic@),
                        pre.topics[topic@] == self.topics@[ti as int].ids@,
                        n == self.topics@[ti as int].ids@.len(),
                        0 <= k <= n,
                        self@.topics == pre.topics,
                        self@.next_id == pre.next_id,
                        self@.queues.dom() == pre.queues.dom(),
                        forall|x: u32|
                            pre.queues.contains_key(x) ==> self@.queues[x] == (
                            if pre.topics[topic@].subrange(0, k as int).contains(x) {
                                publish1(pre.queues[x], respv, QUEUE_CAPACITY as nat)
                            } else {
                                pre.queues[x]
                            }),
                    decreases n - k,
                {
                    let id = self.topics[ti].ids[k];
                    let ghost ids = pre.topics[topic@];
                    proof {
                        assert(ids.contains(id)) by {
                            assert(ids[k as int] == id);
                        }
                        assert(pre.queues.contains_key(id));
                        assert(ids_distinct(ids));
                        assert(!ids.subrange(0, k as int).contains(id)) by {
                            if ids.subrange(0, k as int).contains(id) {
                                let j = choose|j: int|
                                    0 <= j < k as int && ids.subrange(0, k as int)[j] == id;
                                assert(ids[j] == id);
                            }
                        }
                    }
                    let si = match find_sub(&self.subs, id) {
                        Some(si) => si,
                        None => {
                            proof {
                                lemma_subs_contains(self.subs@, id);
                                assert(false);
                            }
                            0
                        },
                    };
                    proof {
                        lemma_subs_present(self.subs@, si as int);
                    }
                    let ghost ss0 = self.subs@;
                    let mut se = self.subs.remove(si);
                    if se.queue.len() < QUEUE_CAPACITY {
                        se.queue.push(resp.clone());
                    }
                    let ghost se1 = se;
                    self.subs.insert(si, se);
                    proof {
                        assert(self.subs@ =~= ss0.update(si as int, se1));
                        lemma_subs_update(ss0, si as int, se1);
                        assert(queue_view(se1.queue@) =~= publish1(
                            subs_model(ss0)[id],
                            respv,
                            QUEUE_CAPACITY as nat,
                        ));
                        assert(ids.subrange(0, k as int + 1) =~= ids.subrange(0, k as int).push(
                            id,
                        ));
                        assert forall|x: u32| pre.queues.contains_key(x) implies self@.queues[x]
                            == (if ids.subrange(0, k as int + 1).contains(x) {
                            publish1(pre.queues[x], respv, QUEUE_CAPACITY as nat)
                        } else {
                            pre.queues[x]
                        }) by {
                            if x == id {
                                assert(ids.subrange(0, k as int + 1).contains(x)) by {
                                    assert(ids.subrange(0, k as int + 1).last() == id);
                                }
                            } else {
                                assert(ids.subrange(0, k as int + 1).contains(x) == ids.subrange(
                                    0,
                                    k as int,
                                ).contains(x)) by {
                                    if ids.subrange(0, k as int + 1).contains(x) {
                                        let j = choose|j: int|
                                            0 <= j < k as int + 1 && #[trigger] ids.subrange(
                                                0,
                                                k as int + 1,
                                            )[j] == x;
                                        assert(j < k as int);
                                        assert(ids.subrange(0, k as int)[j] == x);
                                    }
                                    if ids.subrange(0, k as int).contains(x) {
                                        let j = choose|j: int|
                                            0 <= j < k as int && ids.subrange(0, k as int)[j]
                                                == x;
                                        assert(ids.subrange(0, k as int + 1)[j] == x);
                                    }
                                }
                            }
                        }
                        assert(self@.queues.dom() =~= pre.queues.dom());
                    }
                    k = k + 1;
                }
                proof {
                    assert(pre.topics[topic@].subrange(0, n as int) =~= pre.topics[topic@]);
                    assert(publish_post(pre, self@, topic@, respv));
                    assert(wf_view(self@)) by {
                        assert(self@.topics == pre.topics);
                        assert(self@.queues.dom() == pre.queues.dom());
                        assert forall|x: u32| #[trigger] self@.queues.contains_key(x) implies x
                            < self@.next_id by {
                            assert(pre.queues.contains_key(x));
                        }
                        assert forall|x: u32| #[trigger] self@.queues.contains_key(
                            x,
                        ) implies exists|t: Seq<char>|
                            self@.topics.contains_key(t) && #[trigger] self@.topics[t].contains(
                            x) by {
                            assert(pre.queues.contains_key(x));
                        }
                    }
                }
            },
            None => {
                proof {
                    lemma_topics_absent(self.topics@, topic@);
                    assert(publish_post(pre, self@, topic@, respv));
                }
            },
        }
    }

    /// Reads the oldest pending response of subscription `id`, or `None` when
    /// nothing is pending or the subscription is closed.
    pub fn recv(&mut self, id: u32) -> (r: Option<CommandResponse>)
        requires
            old(self).wf(),
        ensures
            final(self).wf(),
            recv_post(
                old(self)@,
                final(self)@,
                id,
                match r {
                    Some(resp) => Some(resp@),
                    None => None,
                },
            ),
    {
        let ghost pre = self@;
        match find_sub(&self.subs, id) {
            Some(si) => {
                proof {
                    lemma_subs_present(self.subs@, si as int);
                }
                if self.subs[si].queue.len() == 0 {
                    proof {
                        assert(pre.queues[id].len() == 0);
                    }
                    None
                } else {
                    let ghost ss0 = self.subs@;
                    let mut se = self.subs.remove(si);
                    let resp = se.queue.remove(0);
                    let ghost se1 = se;
                    self.subs.insert(si, se);
                    proof {
                        assert(self.subs@ =~= ss0.update(si as int, se1));
                        lemma_subs_update(ss0, si as int, se1);
                        assert(queue_view(se1.queue@) =~= queue_view(ss0[si as int].queue@)
                            .drop_first());
                        assert(resp@ == pre.queues[id][0]);
                        assert(self@.queues =~= pre.queues.insert(
                            id,
                            pre.queues[id].drop_first(),
                        ));
                        assert(self@.queues.dom() =~= pre.queues.dom());
                        assert(wf_view(self@)) by {
                            assert forall|x: u32| #[trigger] self@.queues.contains_key(
                                x,
                            ) implies exists|t: Seq<char>|
                                self@.topics.contains_key(t) && #[trigger] self@.topics[t]
                                    .contains(x) by {
                                assert(pre.queues.contains_key(x));
                                let t = choose|t: Seq<char>|
                                    pre.topics.contains_key(t) && #[trigger] pre.topics[t]
                                        .contains(x);
                                assert(self@.topics.contains_key(t) && self@.topics[t].contains(
                                    x,
                                ));
                            }
                            assert forall|x: u32| #[trigger] self@.queues.contains_key(x) implies
                            x < self@.next_id by {
                                assert(pre.queues.contains_key(x));
                            }
                        }
                    }
                    Some(resp)
                }
            },
            None => {
                proof {
                    lemma_subs_absent(self.subs@, id);
                }
                None
            },
        }
    }
}

/// The queue of one subscriber after a whole publish sequence, each message
/// appended unless the queue was full at that moment.
pub open spec fn publish_all(q: Seq<RespV>, cap: nat, rs: Seq<RespV>) -> Seq<RespV>
    decreases rs.len(),
{
    if rs.len() == 0 {
        q
    } else {
        publish_all(publish1(q, rs[0], cap), cap, rs.drop_first())
    }
}

/// Whether `xs` is a subsequence of `ys` (order preserved, elements dropped).
pub open spec fn is_subseq_of(xs: Seq<RespV>, ys: Seq<RespV>) -> bool
    decreases ys.len(),
{
    if xs.len() == 0 {
        true
    } else if ys.len() == 0 {
        false
    } else {
        (xs[0] == ys[0] && is_subseq_of(xs.drop_first(), ys.drop_first())) || is_subseq_of(
            xs,
            ys.drop_first(),
        )
    }
}

proof fn lemma_subseq_skip(xs: Seq<RespV>, ys: Seq<RespV>)
    requires
        is_subseq_of(xs, ys),
    ensures
        forall|y: RespV| #[trigger] is_subseq_of(xs, seq![y] + ys),
    decreases ys.len(),
{
    assert forall|y: RespV| #[trigger] is_subseq_of(xs, seq![y] + ys) by {
        let zs = seq![y] + ys;
        assert(zs.drop_first() =~= ys);
        if xs.len() == 0 {
        } else {
            assert(zs.len() > 0);
        }
    }
}

/// A subscriber that stays subscribed through a publish sequence observes a
/// subsequence of it: its queue keeps what it held, and what follows is the
/// published responses in publish order with only drops, no reordering.
pub proof fn lemma_publish_preserves_order(q: Seq<RespV>, cap: nat, rs: Seq<RespV>)
    ensures
        publish_all(q, cap, rs).len() >= q.len(),
        publish_all(q, cap, rs).subrange(0, q.len() as int) == q,
        is_subseq_of(publish_all(q, cap, rs).skip(q.len() as int), rs),
    decreases rs.len(),
{
    if rs.len() == 0 {
        assert(publish_all(q, cap, rs) == q);
        assert(q.subrange(0, q.len() as int) =~= q);
        assert(q.skip(q.len() as int) =~= Seq::<RespV>::empty());
    } else {
        let q1 = publish1(q, rs[0], cap);
        lemma_publish_preserves_order(q1, cap, rs.drop_first());
        let full = publish_all(q1, cap, rs.drop_first());
        if q.len() < cap {
            assert(q1 == q.push(rs[0]));
            assert(full.subrange(0, q1.len() as int) == q1);
            assert(full.subrange(0, q.len() as int) =~= q.subrange(0, q.len() as int)) by {
                assert forall|i: int| 0 <= i < q.len() implies full[i] == q[i] by {
                    assert(full.subrange(0, q1.len() as int)[i] == q1[i]);
                }
            }
            assert(q.subrange(0, q.len() as int) =~= q);
            assert(full.skip(q.len() as int) =~= seq![rs[0]] + full.skip(q1.len() as int)) by {
                assert(full.subrange(0, q1.len() as int)[q.len() as int] == q1[q.len() as int]);
                assert(full[q.len() as int] == rs[0]);
            }
            assert(is_subseq_of(full.skip(q.len() as int), rs)) by {
                let tail = full.skip(q1.len() as int);
                assert((seq![rs[0]] + tail)[0] == rs[0]);
                assert((seq![rs[0]] + tail).drop_first() =~= tail);
                assert(rs.drop_first() =~= rs.drop_first());
                assert((seq![rs[0]] + tail).len() > 0);
                if (seq![rs[0]] + tail).len() > 0 && rs.len() > 0 {
                }
            }
        } else {
            assert(q1 == q);
            assert(full.skip(q.len() as int) == publish_all(q, cap, rs).skip(q.len() as int));
            lemma_subseq_skip(full.skip(q.len() as int), rs.drop_first());
            assert(seq![rs[0]] + rs.drop_first() =~= rs);
        }
    }
}

/// When the whole sequence fits in the spare capacity — in particular when a
/// continuously reading subscriber keeps the queue short — nothing is
/// dropped: the subscriber observes every published response, in order.
pub proof fn lemma_publish_all_delivered(q: Seq<RespV>, cap: nat, rs: Seq<RespV>)
    requires
        q.len() + rs.len() <= cap,
    ensures
        publish_all(q, cap, rs) == q + rs,
    decreases rs.len(),
{
    if rs.len() == 0 {
        assert(q + rs =~= q);
    } else {
        let q1 = publish1(q, rs[0], cap);
        assert(q1 == q.push(rs[0]));
        lemma_publish_all_delivered(q1, cap, rs.drop_first());
        assert(q.push(rs[0]) + rs.drop_first() =~= q + rs);
    }
}

/// Unsubscribing is idempotent: of two successive unsubscribes of a live
/// subscription, the first reports true and closes it, the second reports
/// false and changes nothing; afterwards no publish on any topic ever
/// enqueues to the id again, since its queue is gone.
pub proof fn lemma_unsubscribe_idempotent(
    b0: BcastV,
    b1: BcastV,
    b2: BcastV,
    topic: Seq<char>,
    id: u32,
    r1: bool,
    r2: bool,
)
    requires
        wf_view(b0),
        b0.topics.contains_key(topic),
        b0.topics[topic].contains(id),
        unsubscribe_post(b0, b1, topic, id, r1),
        unsubscribe_post(b1, b2, topic, id, r2),
    ensures
        r1 == true,
        r2 == false,
        b2 == b1,
        !b1.queues.contains_key(id),
        forall|b3: BcastV, t: Seq<char>, resp: RespV|
            #[trigger] publish_post(b1, b3, t, resp) ==> !b3.queues.contains_key(id),
{
    assert(!b1.topics[topic].contains(id));
    assert forall|b3: BcastV, t: Seq<char>, resp: RespV|
        #[trigger] publish_post(b1, b3, t, resp) implies !b3.queues.contains_key(id) by {
        assert(b3.queues.dom() == b1.queues.dom());
        assert(!b1.queues.contains_key(id));
    }
}

} // verus!
