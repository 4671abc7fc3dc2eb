use vstd::prelude::*;

use crate::error::KvError;
use crate::broadcast::{publish_post, subscribe_post, unsubscribe_post, BcastV, Broadcaster};
use crate::pb::{
    default_resp, is_error_resp, keys_view, ok_resp, pairs_view, resp_values, vals_view,
    CommandRequest, CommandResponse, Hdel, Hexist, Hget, Hgetall, Hmdel, Hmexist, Hmget, Hmset,
    Hset, Kvpair, KvpairV, ReqV, RequestData, RespV, Value, Vv,
};
use crate::storage::{store_del, store_get, store_set, Storage, StoreModel};
use crate::strutil::str_to_string;

verus! {

/// What a lookup sees, with the default value standing in for an absent key.
pub open spec fn get_or_default(m: StoreModel, t: Seq<char>, k: Seq<char>) -> Option<Vv> {
    match store_get(m, t, k) {
        Some(v) => v,
        None => None,
    }
}

/// The not-found response for `(table, key)`.
pub open spec fn not_found_resp(t: Seq<char>, k: Seq<char>) -> RespV {
    RespV {
        status: crate::STATUS_NOT_FOUND,
        message: crate::error::spec_not_found_message(t, k),
        values: Seq::<Option<Vv>>::empty(),
        pairs: Seq::<KvpairV>::empty(),
    }
}

/// The invalid-command response with description `desc`.
pub open spec fn invalid_resp(desc: Seq<char>) -> RespV {
    RespV {
        status: crate::STATUS_BAD_REQUEST,
        message: crate::error::spec_invalid_command_message(desc),
        values: Seq::<Option<Vv>>::empty(),
        pairs: Seq::<KvpairV>::empty(),
    }
}

/// Whether a response correctly answers HGETALL on table `t` of store `m`:
/// success carrying every pair of the table exactly once, in some order.
pub open spec fn hgetall_ok(m: StoreModel, t: Seq<char>, r: RespV) -> bool {
    &&& r.status == crate::STATUS_OK
    &&& r.message == Seq::<char>::empty()
    &&& r.values == Seq::<Option<Vv>>::empty()
    &&& forall|i: int|
        0 <= i < r.pairs.len() ==> store_get(m, t, (#[trigger] r.pairs[i]).key) == Some(
            r.pairs[i].value,
        )
    &&& forall|k: Seq<char>|
        store_get(m, t, k) is Some ==> exists|i: int|
            0 <= i < r.pairs.len() && (#[trigger] r.pairs[i]).key == k
    &&& forall|i: int, j: int|
        0 <= i < j < r.pairs.len() ==> (#[trigger] r.pairs[i]).key != (#[trigger] r.pairs[j]).key
}

/// The store and the previous values after applying `pairs[i..]` in order.
pub open spec fn hmset_from(m: StoreModel, t: Seq<char>, ps: Seq<KvpairV>, i: int) -> (
    StoreModel,
    Seq<Option<Vv>>,
)
    decreases ps.len() - i,
{
    if i < 0 || i >= ps.len() {
        (m, Seq::<Option<Vv>>::empty())
    } else {
        let prev = get_or_default(m, t, ps[i].key);
        let rest = hmset_from(store_set(m, t, ps[i].key, ps[i].value), t, ps, i + 1);
        (rest.0, seq![prev] + rest.1)
    }
}

/// The store and the previous values after deleting `keys[i..]` in order.
pub open spec fn hmdel_from(m: StoreModel, t: Seq<char>, ks: Seq<Seq<char>>, i: int) -> (
    StoreModel,
    Seq<Option<Vv>>,
)
    decreases ks.len() - i,
{
    if i < 0 || i >= ks.len() {
        (m, Seq::<Option<Vv>>::empty())
    } else {
        let prev = get_or_default(m, t, ks[i]);
        let rest = hmdel_from(store_del(m, t, ks[i]), t, ks, i + 1);
        (rest.0, seq![prev] + rest.1)
    }
}

/// Whether a request is handled by the streaming dispatcher rather than the
/// unary one.
pub open spec fn streaming_req(req: Option<ReqV>) -> bool {
    match req {
        Some(ReqV::Subscribe { .. }) => true,
        Some(ReqV::Unsubscribe { .. }) => true,
        Some(ReqV::Publish { .. }) => true,
        _ => false,
    }
}

/// Whether a request only reads the store: the lookup commands perform no
/// set and no del, whatever they return.
pub open spec fn read_only_req(req: Option<ReqV>) -> bool {
    match req {
        Some(ReqV::Hget { .. }) => true,
        Some(ReqV::Hgetall { .. }) => true,
        Some(ReqV::Hexist { .. }) => true,
        Some(ReqV::Hmget { .. }) => true,
        Some(ReqV::Hmexist { .. }) => true,
        _ => false,
    }
}

/// The unary dispatch semantics: starting from store `m0`, the request `req`
/// produces response `r` and leaves the store at `m1`.
pub open spec fn dispatch_ok(req: Option<ReqV>, m0: StoreModel, r: RespV, m1: StoreModel) -> bool {
    match req {
        None => m1 == m0 && r == invalid_resp("Request has no data"@),
        Some(ReqV::Hget { table, key }) => m1 == m0 && match store_get(m0, table, key) {
            Some(v) => r == resp_values(seq![v]),
            None => r == not_found_resp(table, key),
        },
        Some(ReqV::Hgetall { table }) => m1 == m0 && hgetall_ok(m0, table, r),
        Some(ReqV::Hset { table, pair }) => match pair {
            Some(p) => m1 == store_set(m0, table, p.key, p.value) && r == resp_values(
                seq![get_or_default(m0, table, p.key)],
            ),
            None => m1 == m0 && r == invalid_resp("HSET command carries no pair"@),
        },
        Some(ReqV::Hdel { table, key }) => m1 == store_del(m0, table, key) && match store_get(
            m0,
            table,
            key,
        ) {
            Some(v) => r == resp_values(seq![v]),
            None => r == not_found_resp(table, key),
        },
        Some(ReqV::Hexist { table, key }) => m1 == m0 && r == resp_values(
            seq![Some(Vv::Bool(store_get(m0, table, key) is Some))],
        ),
        Some(ReqV::Hmget { table, keys }) => m1 == m0 && r == resp_values(
            Seq::new(keys.len(), |i: int| get_or_default(m0, table, keys[i])),
        ),
        Some(ReqV::Hmset { table, pairs }) => {
            let out = hmset_from(m0, table, pairs, 0);
            m1 == out.0 && r == resp_values(out.1)
        },
        Some(ReqV::Hmdel { table, keys }) => {
            let out = hmdel_from(m0, table, keys, 0);
            m1 == out.0 && r == resp_values(out.1)
        },
        Some(ReqV::Hmexist { table, keys }) => m1 == m0 && r == resp_values(
            Seq::new(keys.len(), |i: int| Some(Vv::Bool(store_get(m0, table, keys[i]) is Some))),
        ),
        Some(ReqV::Subscribe { .. }) => m1 == m0 && r == default_resp(),
        Some(ReqV::Unsubscribe { .. }) => m1 == m0 && r == default_resp(),
        Some(ReqV::Publish { .. }) => m1 == m0 && r == default_resp(),
    }
}

/// The unary dispatcher yields the default response exactly on the three
/// streaming commands; every other outcome, error responses included, is
/// distinguishable from the sentinel by its status.
pub proof fn lemma_default_response_iff_streaming(
    req: Option<ReqV>,
    m0: StoreModel,
    r: RespV,
    m1: StoreModel,
)
    requires
        dispatch_ok(req, m0, r, m1) || is_error_resp(r),
    ensures
        (r == default_resp()) <==> (dispatch_ok(req, m0, r, m1) && streaming_req(req)),
{
    if is_error_resp(r) && !dispatch_ok(req, m0, r, m1) {
        assert(r.status != 0);
        assert(r != default_resp());
    } else {
        match req {
            None => {
                assert(r.status == crate::STATUS_BAD_REQUEST);
            },
            Some(ReqV::Hget { table, key }) => {
                assert(r.status != 0);
            },
            Some(ReqV::Hgetall { table }) => {
                assert(r.status == crate::STATUS_OK);
            },
            Some(ReqV::Hset { table, pair }) => {
                assert(r.status != 0);
            },
            Some(ReqV::Hdel { table, key }) => {
                assert(r.status != 0);
            },
            Some(ReqV::Hexist { table, key }) => {
                assert(r.status == crate::STATUS_OK);
            },
            Some(ReqV::Hmget { table, keys }) => {
                assert(r.status == crate::STATUS_OK);
            },
            Some(ReqV::Hmset { table, pairs }) => {
                assert(r.status == crate::STATUS_OK);
            },
            Some(ReqV::Hmdel { table, keys }) => {
                assert(r.status == crate::STATUS_OK);
            },
            Some(ReqV::Hmexist { table, keys }) => {
                assert(r.status == crate::STATUS_OK);
            },
            Some(ReqV::Subscribe { .. }) => {
                assert(r == default_resp());
            },
            Some(ReqV::Unsubscribe { .. }) => {
                assert(r == default_resp());
            },
            Some(ReqV::Publish { .. }) => {
                assert(r == default_resp());
            },
        }
    }
}

/// One command's handler over a pluggable storage backend.
pub trait CommandService: Sized {
    /// Executes the command against `store` and produces its response.
    fn execute<S: Storage>(self, store: &mut S) -> (res: CommandResponse)
        requires
            old(store).wf(),
        ensures
            final(store).wf(),
            final(store).infallible() == old(store).infallible(),
    ;
}

/// Turns an optional previous value into the value a response carries: the
/// default value when there was none.
fn prev_or_default(prev: Option<Value>) -> (r: Value)
    ensures
        r@ == match prev {
            Some(p) => p@,
            None => None::<Vv>,
        },
{
    match prev {
        Some(p) => p,
        None => Value { value: None },
    }
}

/// A response carrying exactly one value.
fn single_value_resp(v: Value) -> (r: CommandResponse)
    ensures
        r@ == resp_values(seq![v@]),
{
    let ghost vv = v@;
    let mut values: Vec<Value> = Vec::new();
    values.push(v);
    proof {
        assert(vals_view(values@) =~= seq![vv]);
    }
    CommandResponse::ok_values(values)
}

impl CommandService for Hget {
    fn execute<S: Storage>(self, store: &mut S) -> (res: CommandResponse)
        ensures
            final(store).st() == old(store).st(),
            old(store).infallible() ==> dispatch_ok(
                Some(ReqV::Hget { table: self.table@, key: self.key@ }),
                old(store).st(),
                res@,
                final(store).st(),
            ),
            dispatch_ok(
                Some(ReqV::Hget { table: self.table@, key: self.key@ }),
                old(store).st(),
                res@,
                final(store).st(),
            ) || is_error_resp(res@),
    {
        match store.get(self.table.as_str(), self.key.as_str()) {
            Ok(Some(v)) => single_value_resp(v),
            Ok(None) => CommandResponse::from_err(KvError::NotFound(self.table, self.key)),
            Err(e) => CommandResponse::from_err(e),
        }
    }
}

impl CommandService for Hgetall {
    fn execute<S: Storage>(self, store: &mut S) -> (res: CommandResponse)
        ensures
            final(store).st() == old(store).st(),
            old(store).infallible() ==> dispatch_ok(
                Some(ReqV::Hgetall { table: self.table@ }),
                old(store).st(),
                res@,
                final(store).st(),
            ),
            dispatch_ok(
                Some(ReqV::Hgetall { table: self.table@ }),
                old(store).st(),
                res@,
                final(store).st(),
            ) || is_error_resp(res@),
    {
        match store.get_all(self.table.as_str()) {
            Ok(pairs) => {
                let ghost psv = pairs@;
                let r = CommandResponse::ok_pairs(pairs);
                proof {
                    let rp = r@.pairs;
                    assert(rp =~= pairs_view(psv));
                    assert forall|i: int|
                        0 <= i < rp.len() implies store_get(
                        store.st(),
                        self.table@,
                        (#[trigger] rp[i]).key,
                    ) == Some(rp[i].value) by {
                        assert(rp[i] == psv[i]@);
                    }
                    assert forall|k: Seq<char>|
                        store_get(store.st(), self.table@, k) is Some implies exists|i: int|
                        0 <= i < rp.len() && (#[trigger] rp[i]).key == k by {
                        let i = choose|i: int| 0 <= i < psv.len() && (#[trigger] psv[i])@.key == k;
                        assert(rp[i].key == k);
                    }
                    assert forall|i: int, j: int|
                        0 <= i < j < rp.len() implies (#[trigger] rp[i]).key != (
                    #[trigger] rp[j]).key by {
                        assert(rp[i] == psv[i]@);
                        assert(rp[j] == psv[j]@);
                    }
                    assert(hgetall_ok(store.st(), self.table@, r@));
                }
                r
            },
            Err(e) => CommandResponse::from_err(e),
        }
    }
}

impl CommandService for Hset {
    fn execute<S: Storage>(self, store: &mut S) -> (res: CommandResponse)
        ensures
            old(store).infallible() ==> dispatch_ok(
                Some(
                    ReqV::Hset {
                        table: self.table@,
                        pair: match self.pair {
                            Some(p) => Some(p@),
                            None => None,
                        },
                    },
                ),
                old(store).st(),
                res@,
                final(store).st(),
            ),
            dispatch_ok(
                Some(
                    ReqV::Hset {
                        table: self.table@,
                        pair: match self.pair {
                            Some(p) => Some(p@),
                            None => None,
                        },
                    },
                ),
                old(store).st(),
                res@,
                final(store).st(),
            ) || is_error_resp(res@),
    {
        match self.pair {
            Some(p) => {
                let value = match p.value {
                    Some(v) => v,
                    None => Value { value: None },
                };
                match store.set(self.table.as_str(), p.key, value) {
                    Ok(prev) => single_value_resp(prev_or_default(prev)),
                    Err(e) => CommandResponse::from_err(e),
                }
            },
            None => CommandResponse::from_err(
                KvError::InvalidCommand(str_to_string("HSET command carries no pair")),
            ),
        }
    }
}

impl CommandService for Hdel {
    fn execute<S: Storage>(self, store: &mut S) -> (res: CommandResponse)
        ensures
            old(store).infallible() ==> dispatch_ok(
                Some(ReqV::Hdel { table: self.table@, key: self.key@ }),
                old(store).st(),
                res@,
                final(store).st(),
            ),
            dispatch_ok(
                Some(ReqV::Hdel { table: self.table@, key: self.key@ }),
                old(store).st(),
                res@,
                final(store).st(),
            ) || is_error_resp(res@),
    {
        match store.del(self.table.as_str(), self.key.as_str()) {
            Ok(Some(v)) => single_value_resp(v),
            Ok(None) => CommandResponse::from_err(KvError::NotFound(self.table, self.key)),
            Err(e) => CommandResponse::from_err(e),
        }
    }
}

impl CommandService for Hexist {
    fn execute<S: Storage>(self, store: &mut S) -> (res: CommandResponse)
        ensures
            final(store).st() == old(store).st(),
            old(store).infallible() ==> dispatch_ok(
                Some(ReqV::Hexist { table: self.table@, key: self.key@ }),
                old(store).st(),
                res@,
                final(store).st(),
            ),
            dispatch_ok(
                Some(ReqV::Hexist { table: self.table@, key: self.key@ }),
                old(store).st(),
                res@,
                final(store).st(),
            ) || is_error_resp(res@),
    {
        match store.contains(self.table.as_str(), self.key.as_str()) {
            Ok(b) => single_value_resp(Value { value: Some(crate::pb::Val::Bool(b)) }),
            Err(e) => CommandResponse::from_err(e),
        }
    }
}

impl CommandService for Hmget {
    fn execute<S: Storage>(self, store: &mut S) -> (res: CommandResponse)
        ensures
            final(store).st() == old(store).st(),
            old(store).infallible() ==> dispatch_ok(
                Some(ReqV::Hmget { table: self.table@, keys: keys_view(self.keys@) }),
                old(store).st(),
                res@,
                final(store).st(),
            ),
            dispatch_ok(
                Some(ReqV::Hmget { table: self.table@, keys: keys_view(self.keys@) }),
                old(store).st(),
                res@,
                final(store).st(),
            ) || is_error_resp(res@),
    {
        let ghost ks = keys_view(self.keys@);
        let ghost m0 = store.st();
        let mut values: Vec<Value> = Vec::new();
        let mut i: usize = 0;
        while i < self.keys.len()
            invariant
                store.wf(),
                store == old(store),
                0 <= i <= self.keys@.len(),
                ks == keys_view(self.keys@),
                m0 == store.st(),
                values@.len() == i as int,
                forall|j: int|
                    0 <= j < i as int ==> (#[trigger] values@[j])@ == get_or_default(
                        m0,
                        self.table@,
                        ks[j],
                    ),
            decreases self.keys@.len() - i,
        {
            match store.get(self.table.as_str(), self.keys[i].as_str()) {
                Ok(ov) => {
                    values.push(prev_or_default(ov));
                },
                Err(e) => {
                    return CommandResponse::from_err(e);
                },
            }
            i = i + 1;
        }
        let r = CommandResponse::ok_values(values);
        proof {
            assert(vals_view(values@) =~= Seq::new(
                ks.len(),
                |j: int| get_or_default(m0, self.table@, ks[j]),
            ));
        }
        r
    }
}

impl CommandService for Hmexist {
    fn execute<S: Storage>(self, store: &mut S) -> (res: CommandResponse)
        ensures
            final(store).st() == old(store).st(),
            old(store).infallible() ==> dispatch_ok(
                Some(ReqV::Hmexist { table: self.table@, keys: keys_view(self.keys@) }),
                old(store).st(),
                res@,
                final(store).st(),
            ),
            dispatch_ok(
                Some(ReqV::Hmexist { table: self.table@, keys: keys_view(self.keys@) }),
                old(store).st(),
                res@,
                final(store).st(),
            ) || is_error_resp(res@),
    {
        let ghost ks = keys_view(self.keys@);
        let ghost m0 = store.st();
        let mut values: Vec<Value> = Vec::new();
        let mut i: usize = 0;
        while i < self.keys.len()
            invariant
                store.wf(),
                store == old(store),
                0 <= i <= self.keys@.len(),
                ks == keys_view(self.keys@),
                m0 == store.st(),
                values@.len() == i as int,
                forall|j: int|
                    0 <= j < i as int ==> (#[trigger] values@[j])@ == Some(
                        Vv::Bool(store_get(m0, self.table@, ks[j]) is Some),
                    ),
            decreases self.keys@.len() - i,
        {
            match store.contains(self.table.as_str(), self.keys[i].as_str()) {
                Ok(b) => {
                    values.push(Value { value: Some(crate::pb::Val::Bool(b)) });
                },
                Err(e) => {
                    return CommandResponse::from_err(e);
                },
            }
            i = i + 1;
        }
        let r = CommandResponse::ok_values(values);
        proof {
            assert(vals_view(values@) =~= Seq::new(
                ks.len(),
                |j: int| Some(Vv::Bool(store_get(m0, self.table@, ks[j]) is Some)),
            ));
        }
        r
    }
}

impl CommandService for Hmset {
    fn execute<S: Storage>(self, store: &mut S) -> (res: CommandResponse)
        ensures
            old(store).infallible() ==> dispatch_ok(
                Some(ReqV::Hmset { table: self.table@, pairs: pairs_view(self.pairs@) }),
                old(store).st(),
                res@,
                final(store).st(),
            ),
            dispatch_ok(
                Some(ReqV::Hmset { table: self.table@, pairs: pairs_view(self.pairs@) }),
                old(store).st(),
                res@,
                final(store).st(),
            ) || is_error_resp(res@),
    {
        let ghost ps = pairs_view(self.pairs@);
        let ghost m0 = store.st();
        let ghost expected = hmset_from(m0, self.table@, ps, 0);
        let n = self.pairs.len();
        let mut values: Vec<Value> = Vec::new();
        let mut i: usize = 0;
        let mut pairs = self.pairs;
        while i < n
            invariant
                store.wf(),
                store.infallible() == old(store).infallible(),
                0 <= i <= n,
                n == pairs@.len(),
                ps == pairs_view(pairs@),
                expected == hmset_from(m0, self.table@, ps, 0),
                values@.len() == i as int,
                expected.0 == hmset_from(store.st(), self.table@, ps, i as int).0,
                expected.1 =~= vals_view(values@) + hmset_from(
                    store.st(),
                    self.table@,
                    ps,
                    i as int,
                ).1,
            decreases n - i,
        {
            let pair = pairs[i].clone();
            let key = pair.key;
            let value = match pair.value {
                Some(v) => v,
                None => Value { value: None },
            };
            proof {
                assert(key@ == ps[i as int].key);
                assert(value@ == ps[i as int].value);
            }
            let ghost st_before = store.st();
            match store.set(self.table.as_str(), key, value) {
                Ok(prev) => {
                    values.push(prev_or_default(prev));
                    proof {
                        assert(hmset_from(st_before, self.table@, ps, i as int).1 =~= seq![
                            get_or_default(st_before, self.table@, ps[i as int].key),
                        ] + hmset_from(store.st(), self.table@, ps, i as int + 1).1);
                        assert(expected.1 =~= vals_view(values@) + hmset_from(
                            store.st(),
                            self.table@,
                            ps,
                            i as int + 1,
                        ).1);
                    }
                },
                Err(e) => {
                    return CommandResponse::from_err(e);
                },
            }
            i = i + 1;
        }
        let r = CommandResponse::ok_values(values);
        proof {
            assert(expected.1 =~= vals_view(values@));
        }
        r
    }
}

impl CommandService for Hmdel {
    fn execute<S: Storage>(self, store: &mut S) -> (res: CommandResponse)
        ensures
            old(store).infallible() ==> dispatch_ok(
                Some(ReqV::Hmdel { table: self.table@, keys: keys_view(self.keys@) }),
                old(store).st(),
                res@,
                final(store).st(),
            ),
            dispatch_ok(
                Some(ReqV::Hmdel { table: self.table@, keys: keys_view(self.keys@) }),
                old(store).st(),
                res@,
                final(store).st(),
            ) || is_error_resp(res@),
    {
        let ghost ks = keys_view(self.keys@);
        let ghost m0 = store.st();
        let ghost expected = hmdel_from(m0, self.table@, ks, 0);
        let n = self.keys.len();
        let mut values: Vec<Value> = Vec::new();
        let mut i: usize = 0;
        while i < n
            invariant
                store.wf(),
                store.infallible() == old(store).infallible(),
                0 <= i <= n,
                n == self.keys@.len(),
                ks == keys_view(self.keys@),
                expected == hmdel_from(m0, self.table@, ks, 0),
                values@.len() == i as int,
                expected.0 == hmdel_from(store.st(), self.table@, ks, i as int).0,
                expected.1 =~= vals_view(values@) + hmdel_from(
                    store.st(),
                    self.table@,
                    ks,
                    i as int,
                ).1,
            decreases n - i,
        {
            let ghost st_before = store.st();
            match store.del(self.table.as_str(), self.keys[i].as_str()) {
                Ok(prev) => {
                    values.push(prev_or_default(prev));
                    proof {
                        assert(hmdel_from(st_before, self.table@, ks, i as int).1 =~= seq![
                            get_or_default(st_before, self.table@, ks[i as int]),
                        ] + hmdel_from(store.st(), self.table@, ks, i as int + 1).1);
                        assert(expected.1 =~= vals_view(values@) + hmdel_from(
                            store.st(),
                            self.table@,
                            ks,
                            i as int + 1,
                        ).1);
                    }
                },
                Err(e) => {
                    return CommandResponse::from_err(e);
                },
            }
            i = i + 1;
        }
        let r = CommandResponse::ok_values(values);
        proof {
            assert(expected.1 =~= vals_view(values@));
        }
        r
    }
}

/// Whether two pair sequences carry the same pairs, in any order: equal
/// length, and each side's pairs all occur on the other.  HGETALL yields its
/// pairs in backend-defined order, so a check of its response must not depend
/// on the order.
pub open spec fn pair_in_seq(p: KvpairV, ps: Seq<KvpairV>) -> bool {
    exists|j: int| 0 <= j < ps.len() && p == #[trigger] ps[j]
}

pub open spec fn pairs_match(a: Seq<KvpairV>, b: Seq<KvpairV>) -> bool {
    &&& a.len() == b.len()
    &&& forall|i: int| 0 <= i < a.len() ==> pair_in_seq(#[trigger] a[i], b)
    &&& forall|j: int| 0 <= j < b.len() ==> pair_in_seq(#[trigger] b[j], a)
}

/// Whether `p` occurs among `ps`, by model equality.
fn pair_in(p: &Kvpair, ps: &[Kvpair]) -> (r: bool)
    ensures
        r == exists|j: int| 0 <= j < ps@.len() && p@ == (#[trigger] ps@[j])@,
{
    let mut j: usize = 0;
    while j < ps.len()
        invariant
            0 <= j <= ps@.len(),
            forall|k: int| 0 <= k < j as int ==> p@ != (#[trigger] ps@[k])@,
        decreases ps@.len() - j,
    {
        if crate::pb::kvpair_eq(p, &ps[j]) {
            return true;
        }
        j = j + 1;
    }
    false
}

/// Checks that a response is the success carrying exactly `values` (in order)
/// and `pairs` (in any order).
pub fn assert_res_ok(res: &CommandResponse, values: &[Value], pairs: &[Kvpair]) -> (r: bool)
    ensures
        r == (res@.status == crate::STATUS_OK && res@.message == Seq::<char>::empty()
            && res@.values == vals_view(values@) && pairs_match(
            res@.pairs,
            pairs_view(pairs@),
        )),
{
    if res.status != crate::STATUS_OK {
        return false;
    }
    if !res.message.as_str().is_empty() {
        proof {
            assert(res@.message != Seq::<char>::empty());
        }
        return false;
    }
    proof {
        assert(res@.message =~= Seq::<char>::empty());
    }
    if res.values.len() != values.len() {
        proof {
            assert(res@.values.len() != vals_view(values@).len());
        }
        return false;
    }
    let mut i: usize = 0;
    while i < values.len()
        invariant
            0 <= i <= values@.len(),
            res@.values.len() == values@.len(),
            forall|j: int| 0 <= j < i as int ==> res@.values[j] == vals_view(values@)[j],
        decreases values@.len() - i,
    {
        if !crate::pb::value_eq(&res.values[i], &values[i]) {
            proof {
                assert(res@.values[i as int] != vals_view(values@)[i as int]);
            }
            return false;
        }
        i = i + 1;
    }
    proof {
        assert(res@.values =~= vals_view(values@));
    }
    if res.pairs.len() != pairs.len() {
        proof {
            assert(res@.pairs.len() != pairs_view(pairs@).len());
        }
        return false;
    }
    let ghost a = res@.pairs;
    let ghost b = pairs_view(pairs@);
    let mut i: usize = 0;
    while i < res.pairs.len()
        invariant
            0 <= i <= res.pairs@.len(),
            a == res@.pairs,
            b == pairs_view(pairs@),
            a.len() == b.len(),
            pairs@.len() == b.len(),
            forall|k: int| 0 <= k < i as int ==> pair_in_seq(#[trigger] a[k], b),
        decreases res.pairs@.len() - i,
    {
        if !pair_in(&res.pairs[i], pairs) {
            proof {
                assert(forall|j: int| 0 <= j < b.len() ==> a[i as int] != (#[trigger] b[j])) by {
                    assert(forall|j: int|
                        0 <= j < pairs@.len() ==> (#[trigger] pairs_view(pairs@)[j]) == pairs@[j]@);
                }
                assert(!pair_in_seq(a[i as int], b));
                assert(!pairs_match(a, b));
            }
            return false;
        }
        proof {
            let j = choose|j: int| 0 <= j < pairs@.len() && res.pairs@[i as int]@ == (
            #[trigger] pairs@[j])@;
            assert(a[i as int] == b[j]);
            assert(pair_in_seq(a[i as int], b));
        }
        i = i + 1;
    }
    let mut i: usize = 0;
    while i < pairs.len()
        invariant
            0 <= i <= pairs@.len(),
            a == res@.pairs,
            b == pairs_view(pairs@),
            a.len() == b.len(),
            pairs@.len() == b.len(),
            forall|k: int| 0 <= k < i as int ==> pair_in_seq(#[trigger] b[k], a),
        decreases pairs@.len() - i,
    {
        if !pair_in(&pairs[i], res.pairs.as_slice()) {
            proof {
                assert(forall|j: int| 0 <= j < a.len() ==> b[i as int] != (#[trigger] a[j])) by {
                    assert(forall|j: int|
                        0 <= j < res.pairs@.len() ==> (#[trigger] res@.pairs[j])
                            == res.pairs@.index(j)@);
                }
                assert(!pair_in_seq(b[i as int], a));
                assert(!pairs_match(a, b));
            }
            return false;
        }
        proof {
            let j = choose|j: int| 0 <= j < res.pairs@.len() && pairs@[i as int]@ == (
            #[trigger] res.pairs@[j])@;
            assert(b[i as int] == a[j]);
            assert(pair_in_seq(b[i as int], a));
        }
        i = i + 1;
    }
    proof {
        assert(pairs_match(a, b));
    }
    true
}

/// Checks that a response reports a failure: the given status, a message that
/// mentions `msg`, and no payload.
pub fn assert_res_error(res: &CommandResponse, code: u32, msg: &str) -> (r: bool)
    ensures
        r == (res@.status == code && crate::strutil::contains_seq(res@.message, msg@)
            && res@.values == Seq::<Option<Vv>>::empty() && res@.pairs == Seq::<KvpairV>::empty()),
{
    if res.status != code {
        return false;
    }
    if !crate::strutil::str_contains(res.message.as_str(), msg) {
        return false;
    }
    if res.values.len() != 0 {
        proof {
            assert(res@.values.len() != 0);
        }
        return false;
    }
    if res.pairs.len() != 0 {
        proof {
            assert(res@.pairs.len() != 0);
        }
        return false;
    }
    proof {
        assert(res@.values =~= Seq::<Option<Vv>>::empty());
        assert(res@.pairs =~= Seq::<KvpairV>::empty());
    }
    true
}

/// An inspection hook over a borrowed argument, registered by the user of
/// the service (the service itself registers none).
pub trait Notify<Arg> {
    /// Called with the value under inspection.
    fn notify(&self, arg: &Arg);
}

/// A mutation hook, registered by the user of the service; it may rewrite
/// the value it is handed.
pub trait NotifyMut<Arg> {
    /// Called with the value it may rewrite.
    fn notify(&self, arg: &mut Arg);
}

/// The response of a request: a single response for the unary commands,
/// UNSUBSCRIBE and PUBLISH, or the handle of a freshly opened subscription,
/// whose responses stream from `Broadcaster::recv`.
pub enum StreamingResponse {
    Single(CommandResponse),
    Subscription(u32),
}

/// The model of a streaming response.
pub enum StreamV {
    Single(RespV),
    Subscription(u32),
}

impl View for StreamingResponse {
    type V = StreamV;

    open spec fn view(&self) -> StreamV {
        match self {
            StreamingResponse::Single(r) => StreamV::Single(r@),
            StreamingResponse::Subscription(id) => StreamV::Subscription(*id),
        }
    }
}

/// The response of an UNSUBSCRIBE that named no live subscription.
pub open spec fn unsub_missing_resp() -> RespV {
    RespV {
        status: crate::STATUS_NOT_FOUND,
        message: "subscription not found"@,
        values: Seq::<Option<Vv>>::empty(),
        pairs: Seq::<KvpairV>::empty(),
    }
}

/// The streaming dispatch semantics: starting from broker `b0`, the streaming
/// request `req` produces `res` and leaves the broker at `b1`.
pub open spec fn dispatch_stream_ok(req: Option<ReqV>, b0: BcastV, res: StreamV, b1: BcastV) -> bool {
    match req {
        Some(ReqV::Subscribe { topic }) => match res {
            StreamV::Subscription(id) => subscribe_post(b0, b1, topic, id),
            _ => false,
        },
        Some(ReqV::Unsubscribe { topic, id }) => {
            &&& unsubscribe_post(b0, b1, topic, id, res == StreamV::Single(ok_resp()))
            &&& (res == StreamV::Single(ok_resp()) || res == StreamV::Single(unsub_missing_resp()))
        },
        Some(ReqV::Publish { topic, data }) => {
            &&& publish_post(b0, b1, topic, resp_values(data))
            &&& res == StreamV::Single(ok_resp())
        },
        _ => false,
    }
}

/// Routes a streaming request (SUBSCRIBE, UNSUBSCRIBE or PUBLISH) to the
/// broker.  The unary commands never reach this dispatcher: the default
/// response produced for the streaming commands by `dispatch` is the routing
/// sentinel.
pub fn dispatch_stream(cmd: CommandRequest, topic: &mut Broadcaster) -> (res: StreamingResponse)
    requires
        old(topic).wf(),
        streaming_req(cmd@),
        cmd@ matches Some(ReqV::Subscribe { .. }) ==> old(topic)@.next_id < u32::MAX,
    ensures
        final(topic).wf(),
        dispatch_stream_ok(cmd@, old(topic)@, res@, final(topic)@),
{
    match cmd.request_data {
        Some(RequestData::Subscribe(param)) => {
            let id = topic.subscribe(param.topic);
            StreamingResponse::Subscription(id)
        },
        Some(RequestData::Unsubscribe(param)) => {
            let found = topic.unsubscribe(param.topic.as_str(), param.id);
            if found {
                StreamingResponse::Single(CommandResponse::ok())
            } else {
                let r = CommandResponse {
                    status: crate::STATUS_NOT_FOUND,
                    message: str_to_string("subscription not found"),
                    values: Vec::new(),
                    pairs: Vec::new(),
                };
                proof {
                    assert(r@.values =~= Seq::<Option<Vv>>::empty());
                    assert(r@.pairs =~= Seq::<KvpairV>::empty());
                }
                StreamingResponse::Single(r)
            }
        },
        Some(RequestData::Publish(param)) => {
            topic.publish(param.topic.as_str(), param.data);
            StreamingResponse::Single(CommandResponse::ok())
        },
        _ => {
            proof {
                assert(false);
            }
            StreamingResponse::Single(CommandResponse::ok())
        },
    }
}

/// The state a service handle owns besides the shared broadcaster: the
/// storage backend.  Hook registration wraps this from outside the verified
/// core, through the `Notify` and `NotifyMut` traits.
pub struct ServiceInner<Store> {
    store: Store,
}

impl<Store: Storage> ServiceInner<Store> {
    /// The model of the owned backend.
    pub closed spec fn st(&self) -> StoreModel {
        self.store.st()
    }

    /// The backend's well-formedness.
    pub closed spec fn wf(&self) -> bool {
        self.store.wf()
    }

    /// Whether the backend is infallible.
    pub closed spec fn infallible(&self) -> bool {
        self.store.infallible()
    }

    /// Wraps a storage backend.
    pub fn new(store: Store) -> (r: Self)
        ensures
            r.st() == store.st(),
            r.wf() == store.wf(),
            r.infallible() == store.infallible(),
    {
        ServiceInner { store }
    }
}

/// A service: a storage backend and the pub/sub broker, dispatching command
/// requests to one or the other.
pub struct Service<Store = crate::storage::MemTable> {
    inner: ServiceInner<Store>,
    broadcaster: Broadcaster,
}

/// What `Service::execute` does: a streaming command goes to the broker and
/// leaves the store alone; everything else goes to the unary dispatcher and
/// leaves the broker alone.
pub open spec fn execute_post(
    req: Option<ReqV>,
    m0: StoreModel,
    b0: BcastV,
    res: StreamV,
    m1: StoreModel,
    b1: BcastV,
) -> bool {
    if streaming_req(req) {
        &&& m1 == m0
        &&& dispatch_stream_ok(req, b0, res, b1)
    } else {
        &&& b1 == b0
        &&& match res {
            StreamV::Single(r) => dispatch_ok(req, m0, r, m1) || is_error_resp(r),
            _ => false,
        }
    }
}

impl<Store: Storage> Service<Store> {
    /// The model of the storage backend.
    pub closed spec fn st(&self) -> StoreModel {
        self.inner.st()
    }

    /// The model of the broker.
    pub closed spec fn bv(&self) -> BcastV {
        self.broadcaster@
    }

    /// Whether the backend is infallible.
    pub closed spec fn infallible(&self) -> bool {
        self.inner.infallible()
    }

    /// Well-formedness of both halves.
    pub closed spec fn wf(&self) -> bool {
        self.inner.wf() && self.broadcaster.wf()
    }

    /// Builds a service over `inner` with a fresh broadcaster.
    pub fn from_inner(inner: ServiceInner<Store>) -> (r: Self)
        ensures
            r.st() == inner.st(),
            r.wf() == inner.wf(),
            r.infallible() == inner.infallible(),
            r.bv().topics == Map::<Seq<char>, Seq<u32>>::empty(),
            r.bv().queues == Map::<u32, Seq<RespV>>::empty(),
            r.bv().next_id == 1u32,
    {
        Service { inner, broadcaster: Broadcaster::new() }
    }

    /// Executes one request: unary commands against the store, streaming
    /// commands against the broker.  The streamed items of a subscription are
    /// read from the returned id through `recv`.
    pub fn execute(&mut self, cmd: CommandRequest) -> (res: StreamingResponse)
        requires
            old(self).wf(),
            cmd@ matches Some(ReqV::Subscribe { .. }) ==> old(self).bv().next_id < u32::MAX,
        ensures
            final(self).wf(),
            final(self).infallible() == old(self).infallible(),
            execute_post(
                cmd@,
                old(self).st(),
                old(self).bv(),
                res@,
                final(self).st(),
                final(self).bv(),
            ),
            (old(self).infallible() || cmd@ is None) && !streaming_req(cmd@) ==> match res@ {
                StreamV::Single(r) => dispatch_ok(cmd@, old(self).st(), r, final(self).st()),
                _ => false,
            },
            read_only_req(cmd@) ==> final(self).st() == old(self).st(),
    {
        match cmd.request_data {
            Some(RequestData::Subscribe(param)) => dispatch_stream(
                CommandRequest { request_data: Some(RequestData::Subscribe(param)) },
                &mut self.broadcaster,
            ),
            Some(RequestData::Unsubscribe(param)) => dispatch_stream(
                CommandRequest { request_data: Some(RequestData::Unsubscribe(param)) },
                &mut self.broadcaster,
            ),
            Some(RequestData::Publish(param)) => dispatch_stream(
                CommandRequest { request_data: Some(RequestData::Publish(param)) },
                &mut self.broadcaster,
            ),
            other => {
                let res = dispatch(CommandRequest { request_data: other }, &mut self.inner.store);
                StreamingResponse::Single(res)
            },
        }
    }

    /// Reads the oldest pending response of subscription `id`; see
    /// `Broadcaster::recv`.
    pub fn recv(&mut self, id: u32) -> (r: Option<CommandResponse>)
        requires
            old(self).wf(),
        ensures
            final(self).wf(),
            final(self).st() == old(self).st(),
            final(self).infallible() == old(self).infallible(),
            crate::broadcast::recv_post(
                old(self).bv(),
                final(self).bv(),
                id,
                match r {
                    Some(resp) => Some(resp@),
                    None => None,
                },
            ),
    {
        self.broadcaster.recv(id)
    }
}

impl<Store: Storage> vstd::std_specs::convert::FromSpecImpl<ServiceInner<Store>> for Service<Store> {
    open spec fn obeys_from_spec() -> bool {
        false
    }

    open spec fn from_spec(inner: ServiceInner<Store>) -> Self {
        arbitrary()
    }
}

impl<Store: Storage> From<ServiceInner<Store>> for Service<Store> {
    /// Builds a service with a fresh broadcaster; the verified constructor is
    /// `Service::from_inner`, of which this is the idiomatic alias.
    fn from(inner: ServiceInner<Store>) -> (r: Self) {
        Service::from_inner(inner)
    }
}

/// Routes a request to its unary handler.  The three streaming commands
/// produce the default response, the sentinel that sends the caller to the
/// streaming dispatcher; an empty request produces the invalid-command error.
pub fn dispatch<S: Storage>(cmd: CommandRequest, store: &mut S) -> (res: CommandResponse)
    requires
        old(store).wf(),
    ensures
        final(store).wf(),
        final(store).infallible() == old(store).infallible(),
        old(store).infallible() ==> dispatch_ok(cmd@, old(store).st(), res@, final(store).st()),
        dispatch_ok(cmd@, old(store).st(), res@, final(store).st()) || is_error_resp(res@),
        streaming_req(cmd@) || cmd@ is None ==> dispatch_ok(
            cmd@,
            old(store).st(),
            res@,
            final(store).st(),
        ),
        read_only_req(cmd@) ==> final(store).st() == old(store).st(),
{
    match cmd.request_data {
        Some(RequestData::Hget(param)) => param.execute(store),
        Some(RequestData::Hset(param)) => param.execute(store),
        Some(RequestData::Hdel(param)) => param.execute(store),
        Some(RequestData::Hexist(param)) => param.execute(store),
        Some(RequestData::Hmget(param)) => param.execute(store),
        Some(RequestData::Hmset(param)) => param.execute(store),
        Some(RequestData::Hmdel(param)) => param.execute(store),
        Some(RequestData::Hmexist(param)) => param.execute(store),
        Some(RequestData::Hgetall(param)) => param.execute(store),
        Some(RequestData::Subscribe(_)) => CommandResponse::default(),
        Some(RequestData::Unsubscribe(_)) => CommandResponse::default(),
        Some(RequestData::Publish(_)) => CommandResponse::default(),
        None => CommandResponse::from_err(
            KvError::InvalidCommand(str_to_string("Request has no data")),
        ),
    }
}

} // verus!
