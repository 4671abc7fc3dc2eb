use vstd::prelude::*;
use vstd::bytes::{
    spec_u32_to_le_bytes, spec_u32_from_le_bytes, spec_u64_to_le_bytes, spec_u64_from_le_bytes,
    lemma_auto_spec_u32_to_from_le_bytes, lemma_auto_spec_u64_to_from_le_bytes, u32_from_le_bytes,
    u32_to_le_bytes, u64_from_le_bytes, u64_to_le_bytes,
};
use vstd::utf8::{encode_utf8, decode_utf8, valid_utf8, encode_utf8_valid_utf8,
    encode_utf8_decode_utf8};

use crate::error::KvError;
use crate::pb::{
    keys_view, pairs_view, vals_view, CommandRequest, CommandResponse, Hdel, Hexist, Hget,
    Hgetall, Hmdel, Hmexist, Hmget, Hmset, Hset, Kvpair, KvpairV, Publish, ReqV, RequestData,
    RespV, Subscribe, Unsubscribe, Val, Value, Vv,
};

verus! {

// ---------------------------------------------------------------------------
// The byte encoding of messages: this library's own verified format (all
// integers little-endian; strings and byte blobs length-prefixed; lists
// count-prefixed).  Only the frame header and the gzip payload compression
// are fixed by the wire protocol; the message payload encoding below is
// specified, implemented and proved here rather than taken from a
// serialization framework.
// ---------------------------------------------------------------------------
/// The encoding of a string: its UTF-8 byte length, then its UTF-8 bytes.
pub open spec fn enc_str(s: Seq<char>) -> Seq<u8> {
    spec_u64_to_le_bytes(encode_utf8(s).len() as u64) + encode_utf8(s)
}

/// The encoding of one value: a tag byte, then the payload of the tagged
/// kind.  Tag 0 is the default value.
pub open spec fn enc_value(ov: Option<Vv>) -> Seq<u8> {
    match ov {
        None => seq![0u8],
        Some(Vv::Str(s)) => seq![1u8] + enc_str(s),
        Some(Vv::Integer(i)) => seq![2u8] + spec_u64_to_le_bytes(i as u64),
        Some(Vv::Float(bits)) => seq![3u8] + spec_u64_to_le_bytes(bits),
        Some(Vv::Bool(b)) => seq![
            4u8,
            if b {
                1u8
            } else {
                0u8
            },
        ],
        Some(Vv::Binary(bs)) => seq![5u8] + spec_u64_to_le_bytes(bs.len() as u64) + bs,
    }
}

/// The encoding of one pair: its key, then its value.
pub open spec fn enc_pair(p: KvpairV) -> Seq<u8> {
    enc_str(p.key) + enc_value(p.value)
}

/// The concatenated encodings of a sequence of values.
pub open spec fn cat_values(vs: Seq<Option<Vv>>) -> Seq<u8>
    decreases vs.len(),
{
    if vs.len() == 0 {
        Seq::<u8>::empty()
    } else {
        enc_value(vs[0]) + cat_values(vs.drop_first())
    }
}

/// The concatenated encodings of a sequence of pairs.
pub open spec fn cat_pairs(ps: Seq<KvpairV>) -> Seq<u8>
    decreases ps.len(),
{
    if ps.len() == 0 {
        Seq::<u8>::empty()
    } else {
        enc_pair(ps[0]) + cat_pairs(ps.drop_first())
    }
}

/// The concatenated encodings of a sequence of strings.
pub open spec fn cat_strs(ks: Seq<Seq<char>>) -> Seq<u8>
    decreases ks.len(),
{
    if ks.len() == 0 {
        Seq::<u8>::empty()
    } else {
        enc_str(ks[0]) + cat_strs(ks.drop_first())
    }
}

/// The encoding of a value list: its count, then the values.
pub open spec fn enc_values(vs: Seq<Option<Vv>>) -> Seq<u8> {
    spec_u64_to_le_bytes(vs.len() as u64) + cat_values(vs)
}

/// The encoding of a pair list.
pub open spec fn enc_pairs(ps: Seq<KvpairV>) -> Seq<u8> {
    spec_u64_to_le_bytes(ps.len() as u64) + cat_pairs(ps)
}

/// The encoding of a key list.
pub open spec fn enc_strs(ks: Seq<Seq<char>>) -> Seq<u8> {
    spec_u64_to_le_bytes(ks.len() as u64) + cat_strs(ks)
}

/// The encoding of a request: a variant tag, then the variant's fields.
/// Tag 0 is the empty request.
pub open spec fn enc_req(req: Option<ReqV>) -> Seq<u8> {
    match req {
        None => seq![0u8],
        Some(ReqV::Hget { table, key }) => seq![1u8] + enc_str(table) + enc_str(key),
        Some(ReqV::Hgetall { table }) => seq![2u8] + enc_str(table),
        Some(ReqV::Hset { table, pair }) => seq![3u8] + enc_str(table) + match pair {
            None => seq![0u8],
            Some(p) => seq![1u8] + enc_pair(p),
        },
        Some(ReqV::Hdel { table, key }) => seq![4u8] + enc_str(table) + enc_str(key),
        Some(ReqV::Hexist { table, key }) => seq![5u8] + enc_str(table) + enc_str(key),
        Some(ReqV::Hmget { table, keys }) => seq![6u8] + enc_str(table) + enc_strs(keys),
        Some(ReqV::Hmset { table, pairs }) => seq![7u8] + enc_str(table) + enc_pairs(pairs),
        Some(ReqV::Hmdel { table, keys }) => seq![8u8] + enc_str(table) + enc_strs(keys),
        Some(ReqV::Hmexist { table, keys }) => seq![9u8] + enc_str(table) + enc_strs(keys),
        Some(ReqV::Subscribe { topic }) => seq![10u8] + enc_str(topic),
        Some(ReqV::Unsubscribe { topic, id }) => seq![11u8] + enc_str(topic)
            + spec_u32_to_le_bytes(id),
        Some(ReqV::Publish { topic, data }) => seq![12u8] + enc_str(topic) + enc_values(data),
    }
}

/// The encoding of a response: status, message, values, pairs.
pub open spec fn enc_resp(r: RespV) -> Seq<u8> {
    spec_u32_to_le_bytes(r.status) + enc_str(r.message) + enc_values(r.values) + enc_pairs(r.pairs)
}

// ---------------------------------------------------------------------------
// Size bounds under which the encoding is faithful (met by every value an
// executable message can hold).
// ---------------------------------------------------------------------------
pub open spec fn str_fits(s: Seq<char>) -> bool {
    encode_utf8(s).len() <= u64::MAX
}

pub open spec fn value_fits(ov: Option<Vv>) -> bool {
    match ov {
        Some(Vv::Str(s)) => str_fits(s),
        Some(Vv::Binary(bs)) => bs.len() <= u64::MAX,
        _ => true,
    }
}

pub open spec fn pair_fits(p: KvpairV) -> bool {
    str_fits(p.key) && value_fits(p.value)
}

pub open spec fn values_fit(vs: Seq<Option<Vv>>) -> bool {
    vs.len() <= u64::MAX && forall|i: int| 0 <= i < vs.len() ==> value_fits(#[trigger] vs[i])
}

pub open spec fn pairs_fit(ps: Seq<KvpairV>) -> bool {
    ps.len() <= u64::MAX && forall|i: int| 0 <= i < ps.len() ==> pair_fits(#[trigger] ps[i])
}

pub open spec fn strs_fit(ks: Seq<Seq<char>>) -> bool {
    ks.len() <= u64::MAX && forall|i: int| 0 <= i < ks.len() ==> str_fits(#[trigger] ks[i])
}

pub open spec fn req_fits(req: Option<ReqV>) -> bool {
    match req {
        None => true,
        Some(ReqV::Hget { table, key }) => str_fits(table) && str_fits(key),
        Some(ReqV::Hgetall { table }) => str_fits(table),
        Some(ReqV::Hset { table, pair }) => str_fits(table) && match pair {
            None => true,
            Some(p) => pair_fits(p),
        },
        Some(ReqV::Hdel { table, key }) => str_fits(table) && str_fits(key),
        Some(ReqV::Hexist { table, key }) => str_fits(table) && str_fits(key),
        Some(ReqV::Hmget { table, keys }) => str_fits(table) && strs_fit(keys),
        Some(ReqV::Hmset { table, pairs }) => str_fits(table) && pairs_fit(pairs),
        Some(ReqV::Hmdel { table, keys }) => str_fits(table) && strs_fit(keys),
        Some(ReqV::Hmexist { table, keys }) => str_fits(table) && strs_fit(keys),
        Some(ReqV::Subscribe { topic }) => str_fits(topic),
        Some(ReqV::Unsubscribe { topic, id }) => str_fits(topic),
        Some(ReqV::Publish { topic, data }) => str_fits(topic) && values_fit(data),
    }
}

pub open spec fn resp_fits(r: RespV) -> bool {
    str_fits(r.message) && values_fit(r.values) && pairs_fit(r.pairs)
}

// ---------------------------------------------------------------------------
// The deterministic parser over byte sequences, position-based.
// ---------------------------------------------------------------------------
pub open spec fn dec_u64(b: Seq<u8>, pos: int) -> Option<(u64, int)> {
    if 0 <= pos && pos + 8 <= b.len() {
        Some((spec_u64_from_le_bytes(b.subrange(pos, pos + 8)), pos + 8))
    } else {
        None
    }
}

pub open spec fn dec_u32(b: Seq<u8>, pos: int) -> Option<(u32, int)> {
    if 0 <= pos && pos + 4 <= b.len() {
        Some((spec_u32_from_le_bytes(b.subrange(pos, pos + 4)), pos + 4))
    } else {
        None
    }
}

pub open spec fn dec_str(b: Seq<u8>, pos: int) -> Option<(Seq<char>, int)> {
    match dec_u64(b, pos) {
        None => None,
        Some((n, p)) => if p + n <= b.len() && valid_utf8(b.subrange(p, p + n)) {
            Some((decode_utf8(b.subrange(p, p + n)), p + n))
        } else {
            None
        },
    }
}

pub open spec fn dec_value(b: Seq<u8>, pos: int) -> Option<(Option<Vv>, int)> {
    if !(0 <= pos && pos + 1 <= b.len()) {
        None
    } else {
        let tag = b[pos];
        if tag == 0 {
            Some((None, pos + 1))
        } else if tag == 1 {
            match dec_str(b, pos + 1) {
                None => None,
                Some((s, p)) => Some((Some(Vv::Str(s)), p)),
            }
        } else if tag == 2 {
            match dec_u64(b, pos + 1) {
                None => None,
                Some((x, p)) => Some((Some(Vv::Integer(x as i64)), p)),
            }
        } else if tag == 3 {
            match dec_u64(b, pos + 1) {
                None => None,
                Some((x, p)) => Some((Some(Vv::Float(x)), p)),
            }
        } else if tag == 4 {
            if pos + 2 <= b.len() && (b[pos + 1] == 0 || b[pos + 1] == 1) {
                Some((Some(Vv::Bool(b[pos + 1] == 1)), pos + 2))
            } else {
                None
            }
        } else if tag == 5 {
            match dec_u64(b, pos + 1) {
                None => None,
                Some((n, p)) => if p + n <= b.len() {
                    Some((Some(Vv::Binary(b.subrange(p, p + n))), p + n))
                } else {
                    None
                },
            }
        } else {
            None
        }
    }
}

pub open spec fn dec_pair(b: Seq<u8>, pos: int) -> Option<(KvpairV, int)> {
    match dec_str(b, pos) {
        None => None,
        Some((k, p)) => match dec_value(b, p) {
            None => None,
            Some((v, p2)) => Some((KvpairV { key: k, value: v }, p2)),
        },
    }
}

pub open spec fn dec_values_n(b: Seq<u8>, pos: int, n: nat) -> Option<(Seq<Option<Vv>>, int)>
    decreases n,
{
    if n == 0 {
        Some((Seq::<Option<Vv>>::empty(), pos))
    } else {
        match dec_value(b, pos) {
            None => None,
            Some((v, p)) => match dec_values_n(b, p, (n - 1) as nat) {
                None => None,
                Some((vs, p2)) => Some((seq![v] + vs, p2)),
            },
        }
    }
}

pub open spec fn dec_pairs_n(b: Seq<u8>, pos: int, n: nat) -> Option<(Seq<KvpairV>, int)>
    decreases n,
{
    if n == 0 {
        Some((Seq::<KvpairV>::empty(), pos))
    } else {
        match dec_pair(b, pos) {
            None => None,
            Some((v, p)) => match dec_pairs_n(b, p, (n - 1) as nat) {
                None => None,
                Some((vs, p2)) => Some((seq![v] + vs, p2)),
            },
        }
    }
}

pub open spec fn dec_strs_n(b: Seq<u8>, pos: int, n: nat) -> Option<(Seq<Seq<char>>, int)>
    decreases n,
{
    if n == 0 {
        Some((Seq::<Seq<char>>::empty(), pos))
    } else {
        match dec_str(b, pos) {
            None => None,
            Some((v, p)) => match dec_strs_n(b, p, (n - 1) as nat) {
                None => None,
                Some((vs, p2)) => Some((seq![v] + vs, p2)),
            },
        }
    }
}

pub open spec fn dec_values(b: Seq<u8>, pos: int) -> Option<(Seq<Option<Vv>>, int)> {
    match dec_u64(b, pos) {
        None => None,
        Some((n, p)) => dec_values_n(b, p, n as nat),
    }
}

pub open spec fn dec_pairs(b: Seq<u8>, pos: int) -> Option<(Seq<KvpairV>, int)> {
    match dec_u64(b, pos) {
        None => None,
        Some((n, p)) => dec_pairs_n(b, p, n as nat),
    }
}

pub open spec fn dec_strs(b: Seq<u8>, pos: int) -> Option<(Seq<Seq<char>>, int)> {
    match dec_u64(b, pos) {
        None => None,
        Some((n, p)) => dec_strs_n(b, p, n as nat),
    }
}

pub open spec fn dec_req(b: Seq<u8>, pos: int) -> Option<(Option<ReqV>, int)> {
    if !(0 <= pos && pos + 1 <= b.len()) {
        None
    } else {
        let tag = b[pos];
        let p0 = pos + 1;
        if tag == 0 {
            Some((None, p0))
        } else if tag == 1 {
            match dec_str(b, p0) {
                None => None,
                Some((t, p)) => match dec_str(b, p) {
                    None => None,
                    Some((k, p2)) => Some((Some(ReqV::Hget { table: t, key: k }), p2)),
                },
            }
        } else if tag == 2 {
            match dec_str(b, p0) {
                None => None,
                Some((t, p)) => Some((Some(ReqV::Hgetall { table: t }), p)),
            }
        } else if tag == 3 {
            match dec_str(b, p0) {
                None => None,
                Some((t, p)) => if p + 1 <= b.len() {
                    if b[p] == 0 {
                        Some((Some(ReqV::Hset { table: t, pair: None }), p + 1))
                    } else if b[p] == 1 {
                        match dec_pair(b, p + 1) {
                            None => None,
                            Some((pr, p2)) => Some(
                                (Some(ReqV::Hset { table: t, pair: Some(pr) }), p2),
                            ),
                        }
                    } else {
                        None
                    }
                } else {
                    None
                },
            }
        } else if tag == 4 {
            match dec_str(b, p0) {
                None => None,
                Some((t, p)) => match dec_str(b, p) {
                    None => None,
                    Some((k, p2)) => Some((Some(ReqV::Hdel { table: t, key: k }), p2)),
                },
            }
        } else if tag == 5 {
            match dec_str(b, p0) {
                None => None,
                Some((t, p)) => match dec_str(b, p) {
                    None => None,
                    Some((k, p2)) => Some((Some(ReqV::Hexist { table: t, key: k }), p2)),
                },
            }
        } else if tag == 6 {
            match dec_str(b, p0) {
                None => None,
                Some((t, p)) => match dec_strs(b, p) {
                    None => None,
                    Some((ks, p2)) => Some((Some(ReqV::Hmget { table: t, keys: ks }), p2)),
                },
            }
        } else if tag == 7 {
            match dec_str(b, p0) {
                None => None,
                Some((t, p)) => match dec_pairs(b, p) {
                    None => None,
                    Some((ps, p2)) => Some((Some(ReqV::Hmset { table: t, pairs: ps }), p2)),
                },
            }
        } else if tag == 8 {
            match dec_str(b, p0) {
                None => None,
                Some((t, p)) => match dec_strs(b, p) {
                    None => None,
                    Some((ks, p2)) => Some((Some(ReqV::Hmdel { table: t, keys: ks }), p2)),
                },
            }
        } else if tag == 9 {
            match dec_str(b, p0) {
                None => None,
                Some((t, p)) => match dec_strs(b, p) {
                    None => None,
                    Some((ks, p2)) => Some((Some(ReqV::Hmexist { table: t, keys: ks }), p2)),
                },
            }
        } else if tag == 10 {
            match dec_str(b, p0) {
                None => None,
                Some((t, p)) => Some((Some(ReqV::Subscribe { topic: t }), p)),
            }
        } else if tag == 11 {
            match dec_str(b, p0) {
                None => None,
                Some((t, p)) => match dec_u32(b, p) {
                    None => None,
                    Some((id, p2)) => Some((Some(ReqV::Unsubscribe { topic: t, id: id }), p2)),
                },
            }
        } else if tag == 12 {
            match dec_str(b, p0) {
                None => None,
                Some((t, p)) => match dec_values(b, p) {
                    None => None,
                    Some((vs, p2)) => Some((Some(ReqV::Publish { topic: t, data: vs }), p2)),
                },
            }
        } else {
            None
        }
    }
}

proof fn lemma_split(b: Seq<u8>, pos: int, x: Seq<u8>, y: Seq<u8>)
    requires
        0 <= pos,
        pos + x.len() + y.len() <= b.len(),
        b.subrange(pos, pos + x.len() + y.len()) == x + y,
    ensures
        b.subrange(pos, pos + x.len() as int) == x,
        b.subrange(pos + x.len() as int, pos + x.len() + y.len()) == y,
{
    let w = b.subrange(pos, pos + x.len() + y.len());
    assert(b.subrange(pos, pos + x.len() as int) =~= x) by {
        assert forall|i: int| 0 <= i < x.len() implies b.subrange(pos, pos + x.len() as int)[i]
            == x[i] by {
            assert(w[i] == (x + y)[i]);
        }
    }
    assert(b.subrange(pos + x.len() as int, pos + x.len() + y.len()) =~= y) by {
        assert forall|i: int| 0 <= i < y.len() implies b.subrange(
            pos + x.len() as int,
            pos + x.len() + y.len(),
        )[i] == y[i] by {
            assert(w[x.len() + i] == (x + y)[x.len() + i]);
        }
    }
}

proof fn lemma_dec_u64_enc(b: Seq<u8>, pos: int, x: u64)
    requires
        0 <= pos,
        pos + 8 <= b.len(),
        b.subrange(pos, pos + 8) == spec_u64_to_le_bytes(x),
    ensures
        dec_u64(b, pos) == Some((x, pos + 8)),
{
    lemma_auto_spec_u64_to_from_le_bytes();
}

proof fn lemma_dec_u32_enc(b: Seq<u8>, pos: int, x: u32)
    requires
        0 <= pos,
        pos + 4 <= b.len(),
        b.subrange(pos, pos + 4) == spec_u32_to_le_bytes(x),
    ensures
        dec_u32(b, pos) == Some((x, pos + 4)),
{
    lemma_auto_spec_u32_to_from_le_bytes();
    assert(spec_u32_to_le_bytes(x).len() == 4);
}

proof fn lemma_dec_str_enc(b: Seq<u8>, pos: int, s: Seq<char>)
    requires
        str_fits(s),
        0 <= pos,
        pos + enc_str(s).len() <= b.len(),
        b.subrange(pos, pos + enc_str(s).len()) == enc_str(s),
    ensures
        dec_str(b, pos) == Some((s, pos + enc_str(s).len())),
{
    let u = encode_utf8(s);
    let n = u.len() as u64;
    lemma_auto_spec_u64_to_from_le_bytes();
    lemma_split(b, pos, spec_u64_to_le_bytes(n), u);
    lemma_dec_u64_enc(b, pos, n);
    encode_utf8_valid_utf8(s);
    encode_utf8_decode_utf8(s);
    assert(b.subrange(pos + 8, pos + 8 + n as int) == u);
}

proof fn lemma_dec_value_enc(b: Seq<u8>, pos: int, ov: Option<Vv>)
    requires
        value_fits(ov),
        0 <= pos,
        pos + enc_value(ov).len() <= b.len(),
        b.subrange(pos, pos + enc_value(ov).len()) == enc_value(ov),
    ensures
        dec_value(b, pos) == Some((ov, pos + enc_value(ov).len())),
{
    let e = enc_value(ov);
    assert(b[pos] == e[0]) by {
        assert(b.subrange(pos, pos + e.len())[0] == e[0]);
    }
    lemma_auto_spec_u64_to_from_le_bytes();
    match ov {
        None => {},
        Some(Vv::Str(s)) => {
            assert(e =~= seq![1u8] + enc_str(s));
            lemma_split(b, pos, seq![1u8], enc_str(s));
            lemma_dec_str_enc(b, pos + 1, s);
        },
        Some(Vv::Integer(i)) => {
            assert(e =~= seq![2u8] + spec_u64_to_le_bytes(i as u64));
            lemma_split(b, pos, seq![2u8], spec_u64_to_le_bytes(i as u64));
            lemma_dec_u64_enc(b, pos + 1, i as u64);
            assert((i as u64) as i64 == i) by (bit_vector);
        },
        Some(Vv::Float(bits)) => {
            assert(e =~= seq![3u8] + spec_u64_to_le_bytes(bits));
            lemma_split(b, pos, seq![3u8], spec_u64_to_le_bytes(bits));
            lemma_dec_u64_enc(b, pos + 1, bits);
        },
        Some(Vv::Bool(v)) => {
            assert(b[pos + 1] == e[1]) by {
                assert(b.subrange(pos, pos + e.len())[1] == e[1]);
            }
        },
        Some(Vv::Binary(bs)) => {
            assert(e =~= seq![5u8] + (spec_u64_to_le_bytes(bs.len() as u64) + bs));
            lemma_split(b, pos, seq![5u8], spec_u64_to_le_bytes(bs.len() as u64) + bs);
            lemma_split(b, pos + 1, spec_u64_to_le_bytes(bs.len() as u64), bs);
            lemma_dec_u64_enc(b, pos + 1, bs.len() as u64);
        },
    }
}

proof fn lemma_dec_pair_enc(b: Seq<u8>, pos: int, p: KvpairV)
    requires
        pair_fits(p),
        0 <= pos,
        pos + enc_pair(p).len() <= b.len(),
        b.subrange(pos, pos + enc_pair(p).len()) == enc_pair(p),
    ensures
        dec_pair(b, pos) == Some((p, pos + enc_pair(p).len())),
{
    lemma_auto_spec_u64_to_from_le_bytes();
    lemma_auto_spec_u32_to_from_le_bytes();
    lemma_split(b, pos, enc_str(p.key), enc_value(p.value));
    lemma_dec_str_enc(b, pos, p.key);
    lemma_dec_value_enc(b, pos + enc_str(p.key).len(), p.value);
}

proof fn lemma_dec_values_n_enc(b: Seq<u8>, pos: int, vs: Seq<Option<Vv>>)
    requires
        values_fit(vs),
        0 <= pos,
        pos + cat_values(vs).len() <= b.len(),
        b.subrange(pos, pos + cat_values(vs).len()) == cat_values(vs),
    ensures
        dec_values_n(b, pos, vs.len() as nat) == Some((vs, pos + cat_values(vs).len())),
    decreases vs.len(),
{
    lemma_auto_spec_u64_to_from_le_bytes();
    lemma_auto_spec_u32_to_from_le_bytes();
    if vs.len() > 0 {
        lemma_split(b, pos, enc_value(vs[0]), cat_values(vs.drop_first()));
        lemma_dec_value_enc(b, pos, vs[0]);
        assert(values_fit(vs.drop_first())) by {
            assert(forall|i: int|
                0 <= i < vs.drop_first().len() ==> #[trigger] vs.drop_first()[i] == vs[i + 1]);
        }
        lemma_dec_values_n_enc(b, pos + enc_value(vs[0]).len(), vs.drop_first());
        assert(seq![vs[0]] + vs.drop_first() =~= vs);
    }
}

proof fn lemma_dec_pairs_n_enc(b: Seq<u8>, pos: int, ps: Seq<KvpairV>)
    requires
        pairs_fit(ps),
        0 <= pos,
        pos + cat_pairs(ps).len() <= b.len(),
        b.subrange(pos, pos + cat_pairs(ps).len()) == cat_pairs(ps),
    ensures
        dec_pairs_n(b, pos, ps.len() as nat) == Some((ps, pos + cat_pairs(ps).len())),
    decreases ps.len(),
{
    lemma_auto_spec_u64_to_from_le_bytes();
    lemma_auto_spec_u32_to_from_le_bytes();
    if ps.len() > 0 {
        lemma_split(b, pos, enc_pair(ps[0]), cat_pairs(ps.drop_first()));
        lemma_dec_pair_enc(b, pos, ps[0]);
        assert(pairs_fit(ps.drop_first())) by {
            assert(forall|i: int|
                0 <= i < ps.drop_first().len() ==> #[trigger] ps.drop_first()[i] == ps[i + 1]);
        }
        lemma_dec_pairs_n_enc(b, pos + enc_pair(ps[0]).len(), ps.drop_first());
        assert(seq![ps[0]] + ps.drop_first() =~= ps);
    }
}

proof fn lemma_dec_strs_n_enc(b: Seq<u8>, pos: int, ks: Seq<Seq<char>>)
    requires
        strs_fit(ks),
        0 <= pos,
        pos + cat_strs(ks).len() <= b.len(),
        b.subrange(pos, pos + cat_strs(ks).len()) == cat_strs(ks),
    ensures
        dec_strs_n(b, pos, ks.len() as nat) == Some((ks, pos + cat_strs(ks).len())),
    decreases ks.len(),
{
    lemma_auto_spec_u64_to_from_le_bytes();
    lemma_auto_spec_u32_to_from_le_bytes();
    if ks.len() > 0 {
        lemma_split(b, pos, enc_str(ks[0]), cat_strs(ks.drop_first()));
        lemma_dec_str_enc(b, pos, ks[0]);
        assert(strs_fit(ks.drop_first())) by {
            assert(forall|i: int|
                0 <= i < ks.drop_first().len() ==> #[trigger] ks.drop_first()[i] == ks[i + 1]);
        }
        lemma_dec_strs_n_enc(b, pos + enc_str(ks[0]).len(), ks.drop_first());
        assert(seq![ks[0]] + ks.drop_first() =~= ks);
    }
}

proof fn lemma_dec_values_enc(b: Seq<u8>, pos: int, vs: Seq<Option<Vv>>)
    requires
        values_fit(vs),
        0 <= pos,
        pos + enc_values(vs).len() <= b.len(),
        b.subrange(pos, pos + enc_values(vs).len()) == enc_values(vs),
    ensures
        dec_values(b, pos) == Some((vs, pos + enc_values(vs).len())),
{
    lemma_auto_spec_u64_to_from_le_bytes();
    lemma_auto_spec_u32_to_from_le_bytes();
    lemma_split(b, pos, spec_u64_to_le_bytes(vs.len() as u64), cat_values(vs));
    lemma_dec_u64_enc(b, pos, vs.len() as u64);
    lemma_dec_values_n_enc(b, pos + 8, vs);
}

proof fn lemma_dec_pairs_enc(b: Seq<u8>, pos: int, ps: Seq<KvpairV>)
    requires
        pairs_fit(ps),
        0 <= pos,
        pos + enc_pairs(ps).len() <= b.len(),
        b.subrange(pos, pos + enc_pairs(ps).len()) == enc_pairs(ps),
    ensures
        dec_pairs(b, pos) == Some((ps, pos + enc_pairs(ps).len())),
{
    lemma_auto_spec_u64_to_from_le_bytes();
    lemma_auto_spec_u32_to_from_le_bytes();
    lemma_split(b, pos, spec_u64_to_le_bytes(ps.len() as u64), cat_pairs(ps));
    lemma_dec_u64_enc(b, pos, ps.len() as u64);
    lemma_dec_pairs_n_enc(b, pos + 8, ps);
}

proof fn lemma_dec_strs_enc(b: Seq<u8>, pos: int, ks: Seq<Seq<char>>)
    requires
        strs_fit(ks),
        0 <= pos,
        pos + enc_strs(ks).len() <= b.len(),
        b.subrange(pos, pos + enc_strs(ks).len()) == enc_strs(ks),
    ensures
        dec_strs(b, pos) == Some((ks, pos + enc_strs(ks).len())),
{
    lemma_auto_spec_u64_to_from_le_bytes();
    lemma_auto_spec_u32_to_from_le_bytes();
    lemma_split(b, pos, spec_u64_to_le_bytes(ks.len() as u64), cat_strs(ks));
    lemma_dec_u64_enc(b, pos, ks.len() as u64);
    lemma_dec_strs_n_enc(b, pos + 8, ks);
}

/// Parsing inverts encoding: a buffer that carries the encoding of a request
/// at `pos` parses back to exactly that request.
#[verifier::rlimit(100)]
pub proof fn lemma_dec_req_enc(b: Seq<u8>, pos: int, req: Option<ReqV>)
    requires
        req_fits(req),
        0 <= pos,
        pos + enc_req(req).len() <= b.len(),
        b.subrange(pos, pos + enc_req(req).len()) == enc_req(req),
    ensures
        dec_req(b, pos) == Some((req, pos + enc_req(req).len())),
{
    lemma_auto_spec_u64_to_from_le_bytes();
    lemma_auto_spec_u32_to_from_le_bytes();
    let e = enc_req(req);
    assert(b[pos] == e[0]) by {
        assert(b.subrange(pos, pos + e.len())[0] == e[0]);
    }
    match req {
        None => {},
        Some(ReqV::Hget { table, key }) => {
            assert(e =~= seq![1u8] + (enc_str(table) + enc_str(key)));
            lemma_split(b, pos, seq![1u8], enc_str(table) + enc_str(key));
            lemma_split(b, pos + 1, enc_str(table), enc_str(key));
            lemma_dec_str_enc(b, pos + 1, table);
            lemma_dec_str_enc(b, pos + 1 + enc_str(table).len(), key);
        },
        Some(ReqV::Hgetall { table }) => {
            lemma_split(b, pos, seq![2u8], enc_str(table));
            lemma_dec_str_enc(b, pos + 1, table);
        },
        Some(ReqV::Hset { table, pair }) => {
            match pair {
                None => {
                    assert(e =~= seq![3u8] + (enc_str(table) + seq![0u8]));
                    lemma_split(b, pos, seq![3u8], enc_str(table) + seq![0u8]);
                    lemma_split(b, pos + 1, enc_str(table), seq![0u8]);
                    lemma_dec_str_enc(b, pos + 1, table);
                    let p = pos + 1 + enc_str(table).len();
                    assert(b[p] == 0u8) by {
                        assert(b.subrange(p, p + 1)[0] == seq![0u8][0]);
                    }
                },
                Some(pr) => {
                    assert(e =~= seq![3u8] + (enc_str(table) + (seq![1u8] + enc_pair(pr))));
                    lemma_split(b, pos, seq![3u8], enc_str(table) + (seq![1u8] + enc_pair(pr)));
                    lemma_split(b, pos + 1, enc_str(table), seq![1u8] + enc_pair(pr));
                    lemma_dec_str_enc(b, pos + 1, table);
                    let p = pos + 1 + enc_str(table).len();
                    lemma_split(b, p, seq![1u8], enc_pair(pr));
                    assert(b[p] == 1u8) by {
                        assert(b.subrange(p, p + 1)[0] == seq![1u8][0]);
                    }
                    lemma_dec_pair_enc(b, p + 1, pr);
                },
            }
        },
        Some(ReqV::Hdel { table, key }) => {
            assert(e =~= seq![4u8] + (enc_str(table) + enc_str(key)));
            lemma_split(b, pos, seq![4u8], enc_str(table) + enc_str(key));
            lemma_split(b, pos + 1, enc_str(table), enc_str(key));
            lemma_dec_str_enc(b, pos + 1, table);
            lemma_dec_str_enc(b, pos + 1 + enc_str(table).len(), key);
        },
        Some(ReqV::Hexist { table, key }) => {
            assert(e =~= seq![5u8] + (enc_str(table) + enc_str(key)));
            lemma_split(b, pos, seq![5u8], enc_str(table) + enc_str(key));
            lemma_split(b, pos + 1, enc_str(table), enc_str(key));
            lemma_dec_str_enc(b, pos + 1, table);
            lemma_dec_str_enc(b, pos + 1 + enc_str(table).len(), key);
        },
        Some(ReqV::Hmget { table, keys }) => {
            assert(e =~= seq![6u8] + (enc_str(table) + enc_strs(keys)));
            lemma_split(b, pos, seq![6u8], enc_str(table) + enc_strs(keys));
            lemma_split(b, pos + 1, enc_str(table), enc_strs(keys));
            lemma_dec_str_enc(b, pos + 1, table);
            lemma_dec_strs_enc(b, pos + 1 + enc_str(table).len(), keys);
        },
        Some(ReqV::Hmset { table, pairs }) => {
            assert(e =~= seq![7u8] + (enc_str(table) + enc_pairs(pairs)));
            lemma_split(b, pos, seq![7u8], enc_str(table) + enc_pairs(pairs));
            lemma_split(b, pos + 1, enc_str(table), enc_pairs(pairs));
            lemma_dec_str_enc(b, pos + 1, table);
            lemma_dec_pairs_enc(b, pos + 1 + enc_str(table).len(), pairs);
        },
        Some(ReqV::Hmdel { table, keys }) => {
            assert(e =~= seq![8u8] + (enc_str(table) + enc_strs(keys)));
            lemma_split(b, pos, seq![8u8], enc_str(table) + enc_strs(keys));
            lemma_split(b, pos + 1, enc_str(table), enc_strs(keys));
            lemma_dec_str_enc(b, pos + 1, table);
            lemma_dec_strs_enc(b, pos + 1 + enc_str(table).len(), keys);
        },
        Some(ReqV::Hmexist { table, keys }) => {
            assert(e =~= seq![9u8] + (enc_str(table) + enc_strs(keys)));
            lemma_split(b, pos, seq![9u8], enc_str(table) + enc_strs(keys));
            lemma_split(b, pos + 1, enc_str(table), enc_strs(keys));
            lemma_dec_str_enc(b, pos + 1, table);
            lemma_dec_strs_enc(b, pos + 1 + enc_str(table).len(), keys);
        },
        Some(ReqV::Subscribe { topic }) => {
            lemma_split(b, pos, seq![10u8], enc_str(topic));
            lemma_dec_str_enc(b, pos + 1, topic);
        },
        Some(ReqV::Unsubscribe { topic, id }) => {
            assert(e =~= seq![11u8] + (enc_str(topic) + spec_u32_to_le_bytes(id)));
            lemma_split(b, pos, seq![11u8], enc_str(topic) + spec_u32_to_le_bytes(id));
            lemma_split(b, pos + 1, enc_str(topic), spec_u32_to_le_bytes(id));
            lemma_dec_str_enc(b, pos + 1, topic);
            lemma_dec_u32_enc(b, pos + 1 + enc_str(topic).len(), id);
        },
        Some(ReqV::Publish { topic, data }) => {
            assert(e =~= seq![12u8] + (enc_str(topic) + enc_values(data)));
            lemma_split(b, pos, seq![12u8], enc_str(topic) + enc_values(data));
            lemma_split(b, pos + 1, enc_str(topic), enc_values(data));
            lemma_dec_str_enc(b, pos + 1, topic);
            lemma_dec_values_enc(b, pos + 1 + enc_str(topic).len(), data);
        },
    }
}

/// Parsing inverts encoding for responses as well.
pub proof fn lemma_dec_resp_enc(b: Seq<u8>, pos: int, r: RespV)
    requires
        resp_fits(r),
        0 <= pos,
        pos + enc_resp(r).len() <= b.len(),
        b.subrange(pos, pos + enc_resp(r).len()) == enc_resp(r),
    ensures
        dec_resp(b, pos) == Some((r, pos + enc_resp(r).len())),
{
    lemma_auto_spec_u64_to_from_le_bytes();
    lemma_auto_spec_u32_to_from_le_bytes();
    assert(enc_resp(r) =~= spec_u32_to_le_bytes(r.status) + (enc_str(r.message) + enc_values(
        r.values,
    ) + enc_pairs(r.pairs)));
    lemma_split(
        b,
        pos,
        spec_u32_to_le_bytes(r.status),
        enc_str(r.message) + enc_values(r.values) + enc_pairs(r.pairs),
    );
    lemma_dec_u32_enc(b, pos, r.status);
    let p = pos + 4;
    assert(enc_str(r.message) + enc_values(r.values) + enc_pairs(r.pairs) =~= enc_str(r.message)
        + (enc_values(r.values) + enc_pairs(r.pairs)));
    lemma_split(b, p, enc_str(r.message), enc_values(r.values) + enc_pairs(r.pairs));
    lemma_dec_str_enc(b, p, r.message);
    let p2 = p + enc_str(r.message).len();
    lemma_split(b, p2, enc_values(r.values), enc_pairs(r.pairs));
    lemma_dec_values_enc(b, p2, r.values);
    lemma_dec_pairs_enc(b, p2 + enc_values(r.values).len(), r.pairs);
}

pub open spec fn dec_resp(b: Seq<u8>, pos: int) -> Option<(RespV, int)> {
    match dec_u32(b, pos) {
        None => None,
        Some((status, p)) => match dec_str(b, p) {
            None => None,
            Some((msg, p2)) => match dec_values(b, p2) {
                None => None,
                Some((vs, p3)) => match dec_pairs(b, p3) {
                    None => None,
                    Some((ps, p4)) => Some(
                        (RespV { status, message: msg, values: vs, pairs: ps }, p4),
                    ),
                },
            },
        },
    }
}

// ---------------------------------------------------------------------------
// Executable encoders.
// ---------------------------------------------------------------------------
fn encode_u64(buf: &mut Vec<u8>, x: u64)
    ensures
        final(buf)@ == old(buf)@ + spec_u64_to_le_bytes(x),
{
    let mut v = u64_to_le_bytes(x);
    buf.append(&mut v);
}

fn encode_u32(buf: &mut Vec<u8>, x: u32)
    ensures
        final(buf)@ == old(buf)@ + spec_u32_to_le_bytes(x),
{
    let mut v = u32_to_le_bytes(x);
    buf.append(&mut v);
}

fn encode_str(buf: &mut Vec<u8>, s: &str)
    ensures
        final(buf)@ == old(buf)@ + enc_str(s@),
        str_fits(s@),
{
    let mut bs = s.as_bytes_vec();
    proof {
        vstd::string::is_ascii_spec_bytes(s);
    }
    encode_u64(buf, bs.len() as u64);
    buf.append(&mut bs);
    proof {
        assert(final(buf)@ =~= old(buf)@ + enc_str(s@));
    }
}

/// Appends the byte encoding of one value.
pub fn encode_value(buf: &mut Vec<u8>, v: &Value)
    ensures
        final(buf)@ == old(buf)@ + enc_value(v@),
        value_fits(v@),
{
    match &v.value {
        None => {
            buf.push(0u8);
            proof {
                assert(final(buf)@ =~= old(buf)@ + enc_value(v@));
            }
        },
        Some(Val::Str(s)) => {
            buf.push(1u8);
            encode_str(buf, s.as_str());
            proof {
                assert(final(buf)@ =~= old(buf)@ + enc_value(v@));
            }
        },
        Some(Val::Integer(i)) => {
            buf.push(2u8);
            encode_u64(buf, *i as u64);
            proof {
                assert(final(buf)@ =~= old(buf)@ + enc_value(v@));
            }
        },
        Some(Val::Float(bits)) => {
            buf.push(3u8);
            encode_u64(buf, *bits);
            proof {
                assert(final(buf)@ =~= old(buf)@ + enc_value(v@));
            }
        },
        Some(Val::Bool(b)) => {
            buf.push(4u8);
            if *b {
                buf.push(1u8);
            } else {
                buf.push(0u8);
            }
            proof {
                assert(final(buf)@ =~= old(buf)@ + enc_value(v@));
            }
        },
        Some(Val::Binary(bs)) => {
            buf.push(5u8);
            encode_u64(buf, bs.len() as u64);
            let mut c = bs.clone();
            proof {
                assert(c@ =~= bs@);
            }
            buf.append(&mut c);
            proof {
                assert(final(buf)@ =~= old(buf)@ + enc_value(v@));
            }
        },
    }
}

fn encode_pair(buf: &mut Vec<u8>, p: &Kvpair)
    ensures
        final(buf)@ == old(buf)@ + enc_pair(p@),
        pair_fits(p@),
{
    encode_str(buf, p.key.as_str());
    match &p.value {
        Some(v) => {
            encode_value(buf, v);
        },
        None => {
            let d = Value { value: None };
            encode_value(buf, &d);
        },
    }
    proof {
        assert(final(buf)@ =~= old(buf)@ + enc_pair(p@));
    }
}

proof fn lemma_cat_values_snoc(vs: Seq<Option<Vv>>, v: Option<Vv>)
    ensures
        cat_values(vs.push(v)) == cat_values(vs) + enc_value(v),
    decreases vs.len(),
{
    if vs.len() == 0 {
        assert(vs.push(v)[0] == v);
        assert(vs.push(v).drop_first() =~= vs);
        assert(cat_values(vs.push(v)) =~= cat_values(vs) + enc_value(v));
    } else {
        assert(vs.push(v).drop_first() =~= vs.drop_first().push(v));
        lemma_cat_values_snoc(vs.drop_first(), v);
        assert(vs.push(v)[0] == vs[0]);
        assert(cat_values(vs.push(v)) =~= cat_values(vs) + enc_value(v));
    }
}

proof fn lemma_cat_pairs_snoc(ps: Seq<KvpairV>, p: KvpairV)
    ensures
        cat_pairs(ps.push(p)) == cat_pairs(ps) + enc_pair(p),
    decreases ps.len(),
{
    if ps.len() == 0 {
        assert(ps.push(p)[0] == p);
        assert(ps.push(p).drop_first() =~= ps);
        assert(cat_pairs(ps.push(p)) =~= cat_pairs(ps) + enc_pair(p));
    } else {
        assert(ps.push(p).drop_first() =~= ps.drop_first().push(p));
        lemma_cat_pairs_snoc(ps.drop_first(), p);
        assert(ps.push(p)[0] == ps[0]);
        assert(cat_pairs(ps.push(p)) =~= cat_pairs(ps) + enc_pair(p));
    }
}

proof fn lemma_cat_strs_snoc(ks: Seq<Seq<char>>, k: Seq<char>)
    ensures
        cat_strs(ks.push(k)) == cat_strs(ks) + enc_str(k),
    decreases ks.len(),
{
    if ks.len() == 0 {
        assert(ks.push(k)[0] == k);
        assert(ks.push(k).drop_first() =~= ks);
        assert(cat_strs(ks.push(k)) =~= cat_strs(ks) + enc_str(k));
    } else {
        assert(ks.push(k).drop_first() =~= ks.drop_first().push(k));
        lemma_cat_strs_snoc(ks.drop_first(), k);
        assert(ks.push(k)[0] == ks[0]);
        assert(cat_strs(ks.push(k)) =~= cat_strs(ks) + enc_str(k));
    }
}

fn encode_values(buf: &mut Vec<u8>, vs: &Vec<Value>)
    ensures
        final(buf)@ == old(buf)@ + enc_values(vals_view(vs@)),
        values_fit(vals_view(vs@)),
{
    let ghost vv = vals_view(vs@);
    encode_u64(buf, vs.len() as u64);
    let mut i: usize = 0;
    while i < vs.len()
        invariant
            0 <= i <= vs@.len(),
            vv == vals_view(vs@),
            vv.len() == vs@.len(),
            forall|j: int| 0 <= j < vs@.len() ==> vv[j] == (#[trigger] vs@[j])@,
            buf@ == old(buf)@ + spec_u64_to_le_bytes(vs@.len() as u64) + cat_values(
                vv.subrange(0, i as int),
            ),
            forall|j: int| 0 <= j < i as int ==> value_fits(#[trigger] vv[j]),
        decreases vs@.len() - i,
    {
        encode_value(buf, &vs[i]);
        proof {
            assert(vv.subrange(0, i as int + 1) =~= vv.subrange(0, i as int).push(vv[i as int]));
            lemma_cat_values_snoc(vv.subrange(0, i as int), vv[i as int]);
            assert(buf@ =~= old(buf)@ + spec_u64_to_le_bytes(vs@.len() as u64) + cat_values(
                vv.subrange(0, i as int + 1),
            ));
        }
        i = i + 1;
    }
    proof {
        assert(vv.subrange(0, vv.len() as int) =~= vv);
        assert(buf@ =~= old(buf)@ + enc_values(vv));
    }
}

fn encode_pairs(buf: &mut Vec<u8>, ps: &Vec<Kvpair>)
    ensures
        final(buf)@ == old(buf)@ + enc_pairs(pairs_view(ps@)),
        pairs_fit(pairs_view(ps@)),
{
    let ghost pv = pairs_view(ps@);
    encode_u64(buf, ps.len() as u64);
    let mut i: usize = 0;
    while i < ps.len()
        invariant
            0 <= i <= ps@.len(),
            pv == pairs_view(ps@),
            pv.len() == ps@.len(),
            forall|j: int| 0 <= j < ps@.len() ==> pv[j] == (#[trigger] ps@[j])@,
            buf@ == old(buf)@ + spec_u64_to_le_bytes(ps@.len() as u64) + cat_pairs(
                pv.subrange(0, i as int),
            ),
            forall|j: int| 0 <= j < i as int ==> pair_fits(#[trigger] pv[j]),
        decreases ps@.len() - i,
    {
        encode_pair(buf, &ps[i]);
        proof {
            assert(pv.subrange(0, i as int + 1) =~= pv.subrange(0, i as int).push(pv[i as int]));
            lemma_cat_pairs_snoc(pv.subrange(0, i as int), pv[i as int]);
            assert(buf@ =~= old(buf)@ + spec_u64_to_le_bytes(ps@.len() as u64) + cat_pairs(
                pv.subrange(0, i as int + 1),
            ));
        }
        i = i + 1;
    }
    proof {
        assert(pv.subrange(0, pv.len() as int) =~= pv);
        assert(buf@ =~= old(buf)@ + enc_pairs(pv));
    }
}

fn encode_strs(buf: &mut Vec<u8>, ks: &Vec<String>)
    ensures
        final(buf)@ == old(buf)@ + enc_strs(keys_view(ks@)),
        strs_fit(keys_view(ks@)),
{
    let ghost kv = keys_view(ks@);
    encode_u64(buf, ks.len() as u64);
    let mut i: usize = 0;
    while i < ks.len()
        invariant
            0 <= i <= ks@.len(),
            kv == keys_view(ks@),
            kv.len() == ks@.len(),
            forall|j: int| 0 <= j < ks@.len() ==> kv[j] == (#[trigger] ks@[j])@,
            buf@ == old(buf)@ + spec_u64_to_le_bytes(ks@.len() as u64) + cat_strs(
                kv.subrange(0, i as int),
            ),
            forall|j: int| 0 <= j < i as int ==> str_fits(#[trigger] kv[j]),
        decreases ks@.len() - i,
    {
        encode_str(buf, ks[i].as_str());
        proof {
            assert(kv.subrange(0, i as int + 1) =~= kv.subrange(0, i as int).push(kv[i as int]));
            lemma_cat_strs_snoc(kv.subrange(0, i as int), kv[i as int]);
            assert(buf@ =~= old(buf)@ + spec_u64_to_le_bytes(ks@.len() as u64) + cat_strs(
                kv.subrange(0, i as int + 1),
            ));
        }
        i = i + 1;
    }
    proof {
        assert(kv.subrange(0, kv.len() as int) =~= kv);
        assert(buf@ =~= old(buf)@ + enc_strs(kv));
    }
}

/// Appends the byte encoding of a request.
pub fn encode_req(buf: &mut Vec<u8>, req: &CommandRequest)
    ensures
        final(buf)@ == old(buf)@ + enc_req(req@),
        req_fits(req@),
{
    match &req.request_data {
        None => {
            buf.push(0u8);
            proof {
                assert(final(buf)@ =~= old(buf)@ + enc_req(req@));
            }
        },
        Some(RequestData::Hget(p)) => {
            buf.push(1u8);
            encode_str(buf, p.table.as_str());
            encode_str(buf, p.key.as_str());
            proof {
                assert(final(buf)@ =~= old(buf)@ + enc_req(req@));
            }
        },
        Some(RequestData::Hgetall(p)) => {
            buf.push(2u8);
            encode_str(buf, p.table.as_str());
            proof {
                assert(final(buf)@ =~= old(buf)@ + enc_req(req@));
            }
        },
        Some(RequestData::Hset(p)) => {
            buf.push(3u8);
            encode_str(buf, p.table.as_str());
            match &p.pair {
                None => {
                    buf.push(0u8);
                },
                Some(pr) => {
                    buf.push(1u8);
                    encode_pair(buf, pr);
                },
            }
            proof {
                assert(final(buf)@ =~= old(buf)@ + enc_req(req@));
            }
        },
        Some(RequestData::Hdel(p)) => {
            buf.push(4u8);
            encode_str(buf, p.table.as_str());
            encode_str(buf, p.key.as_str());
            proof {
                assert(final(buf)@ =~= old(buf)@ + enc_req(req@));
            }
        },
        Some(RequestData::Hexist(p)) => {
            buf.push(5u8);
            encode_str(buf, p.table.as_str());
            encode_str(buf, p.key.as_str());
            proof {
                assert(final(buf)@ =~= old(buf)@ + enc_req(req@));
            }
        },
        Some(RequestData::Hmget(p)) => {
            buf.push(6u8);
            encode_str(buf, p.table.as_str());
            encode_strs(buf, &p.keys);
            proof {
                assert(final(buf)@ =~= old(buf)@ + enc_req(req@));
            }
        },
        Some(RequestData::Hmset(p)) => {
            buf.push(7u8);
            encode_str(buf, p.table.as_str());
            encode_pairs(buf, &p.pairs);
            proof {
                assert(final(buf)@ =~= old(buf)@ + enc_req(req@));
            }
        },
        Some(RequestData::Hmdel(p)) => {
            buf.push(8u8);
            encode_str(buf, p.table.as_str());
            encode_strs(buf, &p.keys);
            proof {
                assert(final(buf)@ =~= old(buf)@ + enc_req(req@));
            }
        },
        Some(RequestData::Hmexist(p)) => {
            buf.push(9u8);
            encode_str(buf, p.table.as_str());
            encode_strs(buf, &p.keys);
            proof {
                assert(final(buf)@ =~= old(buf)@ + enc_req(req@));
            }
        },
        Some(RequestData::Subscribe(p)) => {
            buf.push(10u8);
            encode_str(buf, p.topic.as_str());
            proof {
                assert(final(buf)@ =~= old(buf)@ + enc_req(req@));
            }
        },
        Some(RequestData::Unsubscribe(p)) => {
            buf.push(11u8);
            encode_str(buf, p.topic.as_str());
            encode_u32(buf, p.id);
            proof {
                assert(final(buf)@ =~= old(buf)@ + enc_req(req@));
            }
        },
        Some(RequestData::Publish(p)) => {
            buf.push(12u8);
            encode_str(buf, p.topic.as_str());
            encode_values(buf, &p.data);
            proof {
                assert(final(buf)@ =~= old(buf)@ + enc_req(req@));
            }
        },
    }
}

/// Appends the byte encoding of a response.
pub fn encode_resp(buf: &mut Vec<u8>, resp: &CommandResponse)
    ensures
        final(buf)@ == old(buf)@ + enc_resp(resp@),
        resp_fits(resp@),
{
    encode_u32(buf, resp.status);
    encode_str(buf, resp.message.as_str());
    encode_values(buf, &resp.values);
    encode_pairs(buf, &resp.pairs);
    proof {
        assert(final(buf)@ =~= old(buf)@ + enc_resp(resp@));
    }
}

// ---------------------------------------------------------------------------
// Executable decoders, each matching its parser exactly.
// ---------------------------------------------------------------------------
/// Copies `n` bytes of `buf` starting at `pos`, when that many are there.
fn take_bytes(buf: &Vec<u8>, pos: usize, n: usize) -> (r: Option<Vec<u8>>)
    ensures
        match r {
            Some(v) => pos + n <= buf@.len() && v@ == buf@.subrange(
                pos as int,
                pos as int + n as int,
            ),
            None => pos + n > buf@.len(),
        },
{
    let l: usize = buf.len();
    if pos <= l && n <= l - pos {
        let mut v: Vec<u8> = Vec::new();
        let mut i: usize = 0;
        while i < n
            invariant
                pos + n <= buf@.len(),
                buf@.len() <= usize::MAX,
                0 <= i <= n,
                v@.len() == i as int,
                forall|j: int| 0 <= j < i as int ==> v@[j] == buf@[pos + j],
            decreases n - i,
        {
            v.push(buf[pos + i]);
            i = i + 1;
        }
        proof {
            assert(v@ =~= buf@.subrange(pos as int, pos as int + n as int));
        }
        Some(v)
    } else {
        None
    }
}

fn dec_u64_x(buf: &Vec<u8>, pos: usize) -> (r: Option<(u64, usize)>)
    ensures
        match r {
            Some(p) => dec_u64(buf@, pos as int) == Some((p.0, p.1 as int)),
            None => dec_u64(buf@, pos as int) is None,
        },
{
    let l: usize = buf.len();
    match take_bytes(buf, pos, 8) {
        Some(v) => {
            let x = u64_from_le_bytes(v.as_slice());
            Some((x, pos + 8))
        },
        None => None,
    }
}

fn dec_u32_x(buf: &Vec<u8>, pos: usize) -> (r: Option<(u32, usize)>)
    ensures
        match r {
            Some(p) => dec_u32(buf@, pos as int) == Some((p.0, p.1 as int)),
            None => dec_u32(buf@, pos as int) is None,
        },
{
    let l: usize = buf.len();
    match take_bytes(buf, pos, 4) {
        Some(v) => {
            let x = u32_from_le_bytes(v.as_slice());
            Some((x, pos + 4))
        },
        None => None,
    }
}

/// Relies on `String::from_utf8`: it accepts exactly the valid UTF-8 byte
/// sequences and decodes them to their characters.
#[verifier::external_body]
pub(crate) fn string_from_utf8(bytes: Vec<u8>) -> (r: Option<String>)
    ensures
        r matches Some(s) ==> valid_utf8(bytes@) && s@ == decode_utf8(bytes@),
        r is None ==> !valid_utf8(bytes@),
{
    String::from_utf8(bytes).ok()
}

fn dec_str_x(buf: &Vec<u8>, pos: usize) -> (r: Option<(String, usize)>)
    ensures
        match r {
            Some(p) => dec_str(buf@, pos as int) == Some((p.0@, p.1 as int)),
            None => dec_str(buf@, pos as int) is None,
        },
{
    match dec_u64_x(buf, pos) {
        None => None,
        Some((n, p)) => {
            let l: usize = buf.len();
            if n > usize::MAX as u64 {
                proof {
                    assert(p + n > buf@.len());
                }
                return None;
            }
            match take_bytes(buf, p, n as usize) {
                None => None,
                Some(v) => {
                    let ghost bs = v@;
                    match string_from_utf8(v) {
                        Some(s) => Some((s, p + n as usize)),
                        None => {
                            proof {
                                assert(!valid_utf8(bs));
                            }
                            None
                        },
                    }
                },
            }
        },
    }
}

/// Parses the byte encoding of one value.
pub fn dec_value_x(buf: &Vec<u8>, pos: usize) -> (r: Option<(Value, usize)>)
    ensures
        match r {
            Some(p) => dec_value(buf@, pos as int) == Some((p.0@, p.1 as int)),
            None => dec_value(buf@, pos as int) is None,
        },
{
    if pos >= buf.len() {
        return None;
    }
    let tag = buf[pos];
    if tag == 0 {
        Some((Value { value: None }, pos + 1))
    } else if tag == 1 {
        match dec_str_x(buf, pos + 1) {
            None => None,
            Some((s, p)) => Some((Value { value: Some(Val::Str(s)) }, p)),
        }
    } else if tag == 2 {
        match dec_u64_x(buf, pos + 1) {
            None => None,
            Some((x, p)) => Some((Value { value: Some(Val::Integer(x as i64)) }, p)),
        }
    } else if tag == 3 {
        match dec_u64_x(buf, pos + 1) {
            None => None,
            Some((x, p)) => Some((Value { value: Some(Val::Float(x)) }, p)),
        }
    } else if tag == 4 {
        if pos + 1 < buf.len() {
            let bb = buf[pos + 1];
            if bb == 0 || bb == 1 {
                Some((Value { value: Some(Val::Bool(bb == 1)) }, pos + 2))
            } else {
                None
            }
        } else {
            None
        }
    } else if tag == 5 {
        match dec_u64_x(buf, pos + 1) {
            None => None,
            Some((n, p)) => {
                let l: usize = buf.len();
                if n > usize::MAX as u64 {
                    proof {
                        assert(p + n > buf@.len());
                    }
                    return None;
                }
                match take_bytes(buf, p, n as usize) {
                    None => None,
                    Some(v) => Some((Value { value: Some(Val::Binary(v)) }, p + n as usize)),
                }
            },
        }
    } else {
        None
    }
}

fn dec_pair_x(buf: &Vec<u8>, pos: usize) -> (r: Option<(Kvpair, usize)>)
    ensures
        match r {
            Some(p) => dec_pair(buf@, pos as int) == Some((p.0@, p.1 as int)),
            None => dec_pair(buf@, pos as int) is None,
        },
{
    match dec_str_x(buf, pos) {
        None => None,
        Some((k, p)) => match dec_value_x(buf, p) {
            None => None,
            Some((v, p2)) => Some((Kvpair { key: k, value: Some(v) }, p2)),
        },
    }
}

fn dec_values_x(buf: &Vec<u8>, pos: usize) -> (r: Option<(Vec<Value>, usize)>)
    ensures
        match r {
            Some(p) => dec_values(buf@, pos as int) == Some((vals_view(p.0@), p.1 as int)),
            None => dec_values(buf@, pos as int) is None,
        },
{
    match dec_u64_x(buf, pos) {
        None => None,
        Some((n, p0)) => {
            let mut out: Vec<Value> = Vec::new();
            let mut p = p0;
            let mut i: u64 = 0;
            while i < n
                invariant
                    0 <= i <= n,
                    dec_u64(buf@, pos as int) == Some((n, p0 as int)),
                    dec_values_n(buf@, p0 as int, n as nat) == (match dec_values_n(
                        buf@,
                        p as int,
                        (n - i) as nat,
                    ) {
                        None => None::<(Seq<Option<Vv>>, int)>,
                        Some((vs, q)) => Some((vals_view(out@) + vs, q)),
                    }),
                decreases n - i,
            {
                match dec_value_x(buf, p) {
                    None => {
                        proof {
                            assert(dec_values_n(buf@, p as int, (n - i) as nat) is None);
                        }
                        return None;
                    },
                    Some((v, p2)) => {
                        let ghost out0 = out@;
                        out.push(v);
                        proof {
                            assert(out@ =~= out0.push(v));
                            assert(vals_view(out@) =~= vals_view(out0).push(v@));
                            assert forall|vs: Seq<Option<Vv>>|
                                true implies vals_view(out0) + (seq![v@] + vs) =~= vals_view(out@)
                                + vs by {}
                        }
                        p = p2;
                    },
                }
                i = i + 1;
            }
            proof {
                assert(dec_values_n(buf@, p as int, 0nat) == Some(
                    (Seq::<Option<Vv>>::empty(), p as int),
                ));
                assert(vals_view(out@) + Seq::<Option<Vv>>::empty() =~= vals_view(out@));
            }
            Some((out, p))
        },
    }
}

fn dec_pairs_x(buf: &Vec<u8>, pos: usize) -> (r: Option<(Vec<Kvpair>, usize)>)
    ensures
        match r {
            Some(p) => dec_pairs(buf@, pos as int) == Some((pairs_view(p.0@), p.1 as int)),
            None => dec_pairs(buf@, pos as int) is None,
        },
{
    match dec_u64_x(buf, pos) {
        None => None,
        Some((n, p0)) => {
            let mut out: Vec<Kvpair> = Vec::new();
            let mut p = p0;
            let mut i: u64 = 0;
            while i < n
                invariant
                    0 <= i <= n,
                    dec_u64(buf@, pos as int) == Some((n, p0 as int)),
                    dec_pairs_n(buf@, p0 as int, n as nat) == (match dec_pairs_n(
                        buf@,
                        p as int,
                        (n - i) as nat,
                    ) {
                        None => None::<(Seq<KvpairV>, int)>,
                        Some((vs, q)) => Some((pairs_view(out@) + vs, q)),
                    }),
                decreases n - i,
            {
                match dec_pair_x(buf, p) {
                    None => {
                        proof {
                            assert(dec_pairs_n(buf@, p as int, (n - i) as nat) is None);
                        }
                        return None;
                    },
                    Some((v, p2)) => {
                        let ghost out0 = out@;
                        let ghost vv = v@;
                        out.push(v);
                        proof {
                            assert(out@ =~= out0.push(out@.last()));
                            assert(pairs_view(out@) =~= pairs_view(out0).push(vv));
                            assert forall|vs: Seq<KvpairV>|
                                true implies pairs_view(out0) + (seq![vv] + vs) =~= pairs_view(
                                out@) + vs by {}
                        }
                        p = p2;
                    },
                }
                i = i + 1;
            }
            proof {
                assert(dec_pairs_n(buf@, p as int, 0nat) == Some(
                    (Seq::<KvpairV>::empty(), p as int),
                ));
                assert(pairs_view(out@) + Seq::<KvpairV>::empty() =~= pairs_view(out@));
            }
            Some((out, p))
        },
    }
}

fn dec_strs_x(buf: &Vec<u8>, pos: usize) -> (r: Option<(Vec<String>, usize)>)
    ensures
        match r {
            Some(p) => dec_strs(buf@, pos as int) == Some((keys_view(p.0@), p.1 as int)),
            None => dec_strs(buf@, pos as int) is None,
        },
{
    match dec_u64_x(buf, pos) {
        None => None,
        Some((n, p0)) => {
            let mut out: Vec<String> = Vec::new();
            let mut p = p0;
            let mut i: u64 = 0;
            while i < n
                invariant
                    0 <= i <= n,
                    dec_u64(buf@, pos as int) == Some((n, p0 as int)),
                    dec_strs_n(buf@, p0 as int, n as nat) == (match dec_strs_n(
                        buf@,
                        p as int,
                        (n - i) as nat,
                    ) {
                        None => None::<(Seq<Seq<char>>, int)>,
                        Some((vs, q)) => Some((keys_view(out@) + vs, q)),
                    }),
                decreases n - i,
            {
                match dec_str_x(buf, p) {
                    None => {
                        proof {
                            assert(dec_strs_n(buf@, p as int, (n - i) as nat) is None);
                        }
                        return None;
                    },
                    Some((v, p2)) => {
                        let ghost out0 = out@;
                        let ghost vv = v@;
                        out.push(v);
                        proof {
                            assert(out@ =~= out0.push(out@.last()));
                            assert(keys_view(out@) =~= keys_view(out0).push(vv));
                            assert forall|vs: Seq<Seq<char>>|
                                true implies keys_view(out0) + (seq![vv] + vs) =~= keys_view(out@)
                                + vs by {}
                        }
                        p = p2;
                    },
                }
                i = i + 1;
            }
            proof {
                assert(dec_strs_n(buf@, p as int, 0nat) == Some(
                    (Seq::<Seq<char>>::empty(), p as int),
                ));
                assert(keys_view(out@) + Seq::<Seq<char>>::empty() =~= keys_view(out@));
            }
            Some((out, p))
        },
    }
}

/// Parses the byte encoding of a request.
pub fn dec_req_x(buf: &Vec<u8>, pos: usize) -> (r: Option<(CommandRequest, usize)>)
    ensures
        match r {
            Some(p) => dec_req(buf@, pos as int) == Some((p.0@, p.1 as int)),
            None => dec_req(buf@, pos as int) is None,
        },
{
    if pos >= buf.len() {
        return None;
    }
    let tag = buf[pos];
    let p0 = pos + 1;
    if tag == 0 {
        Some((CommandRequest { request_data: None }, p0))
    } else if tag == 1 {
        match dec_str_x(buf, p0) {
            None => None,
            Some((t, p)) => match dec_str_x(buf, p) {
                None => None,
                Some((k, p2)) => Some(
                    (
                        CommandRequest {
                            request_data: Some(RequestData::Hget(Hget { table: t, key: k })),
                        },
                        p2,
                    ),
                ),
            },
        }
    } else if tag == 2 {
        match dec_str_x(buf, p0) {
            None => None,
            Some((t, p)) => Some(
                (
                    CommandRequest {
                        request_data: Some(RequestData::Hgetall(Hgetall { table: t })),
                    },
                    p,
                ),
            ),
        }
    } else if tag == 3 {
        match dec_str_x(buf, p0) {
            None => None,
            Some((t, p)) => {
                if p < buf.len() {
                    let m = buf[p];
                    if m == 0 {
                        Some(
                            (
                                CommandRequest {
                                    request_data: Some(
                                        RequestData::Hset(Hset { table: t, pair: None }),
                                    ),
                                },
                                p + 1,
                            ),
                        )
                    } else if m == 1 {
                        match dec_pair_x(buf, p + 1) {
                            None => None,
                            Some((pr, p2)) => Some(
                                (
                                    CommandRequest {
                                        request_data: Some(
                                            RequestData::Hset(Hset { table: t, pair: Some(pr) }),
                                        ),
                                    },
                                    p2,
                                ),
                            ),
                        }
                    } else {
                        None
                    }
                } else {
                    None
                }
            },
        }
    } else if tag == 4 {
        match dec_str_x(buf, p0) {
            None => None,
            Some((t, p)) => match dec_str_x(buf, p) {
                None => None,
                Some((k, p2)) => Some(
                    (
                        CommandRequest {
                            request_data: Some(RequestData::Hdel(Hdel { table: t, key: k })),
                        },
                        p2,
                    ),
                ),
            },
        }
    } else if tag == 5 {
        match dec_str_x(buf, p0) {
            None => None,
            Some((t, p)) => match dec_str_x(buf, p) {
                None => None,
                Some((k, p2)) => Some(
                    (
                        CommandRequest {
                            request_data: Some(RequestData::Hexist(Hexist { table: t, key: k })),
                        },
                        p2,
                    ),
                ),
            },
        }
    } else if tag == 6 {
        match dec_str_x(buf, p0) {
            None => None,
            Some((t, p)) => match dec_strs_x(buf, p) {
                None => None,
                Some((ks, p2)) => Some(
                    (
                        CommandRequest {
                            request_data: Some(RequestData::Hmget(Hmget { table: t, keys: ks })),
                        },
                        p2,
                    ),
                ),
            },
        }
    } else if tag == 7 {
        match dec_str_x(buf, p0) {
            None => None,
            Some((t, p)) => match dec_pairs_x(buf, p) {
                None => None,
                Some((ps, p2)) => Some(
                    (
                        CommandRequest {
                            request_data: Some(RequestData::Hmset(Hmset { table: t, pairs: ps })),
                        },
                        p2,
                    ),
                ),
            },
        }
    } else if tag == 8 {
        match dec_str_x(buf, p0) {
            None => None,
            Some((t, p)) => match dec_strs_x(buf, p) {
                None => None,
                Some((ks, p2)) => Some(
                    (
                        CommandRequest {
                            request_data: Some(RequestData::Hmdel(Hmdel { table: t, keys: ks })),
                        },
                        p2,
                    ),
                ),
            },
        }
    } else if tag == 9 {
        match dec_str_x(buf, p0) {
            None => None,
            Some((t, p)) => match dec_strs_x(buf, p) {
                None => None,
                Some((ks, p2)) => Some(
                    (
                        CommandRequest {
                            request_data: Some(
                                RequestData::Hmexist(Hmexist { table: t, keys: ks }),
                            ),
                        },
                        p2,
                    ),
                ),
            },
        }
    } else if tag == 10 {
        match dec_str_x(buf, p0) {
            None => None,
            Some((t, p)) => Some(
                (
                    CommandRequest {
                        request_data: Some(RequestData::Subscribe(Subscribe { topic: t })),
                    },
                    p,
                ),
            ),
        }
    } else if tag == 11 {
        match dec_str_x(buf, p0) {
            None => None,
            Some((t, p)) => match dec_u32_x(buf, p) {
                None => None,
                Some((id, p2)) => Some(
                    (
                        CommandRequest {
                            request_data: Some(
                                RequestData::Unsubscribe(Unsubscribe { topic: t, id }),
                            ),
                        },
                        p2,
                    ),
                ),
            },
        }
    } else if tag == 12 {
        match dec_str_x(buf, p0) {
            None => None,
            Some((t, p)) => match dec_values_x(buf, p) {
                None => None,
                Some((vs, p2)) => Some(
                    (
                        CommandRequest {
                            request_data: Some(
                                RequestData::Publish(Publish { topic: t, data: vs }),
                            ),
                        },
                        p2,
                    ),
                ),
            },
        }
    } else {
        None
    }
}

// ---------------------------------------------------------------------------
// The frame layer: a 4-byte big-endian header whose high bit is the
// compression flag and whose low 31 bits are the payload length, then the
// payload, gzip-compressed when the raw encoding exceeds the threshold.
// ---------------------------------------------------------------------------
/// Payloads at most this long travel raw; longer ones are compressed.
pub const COMPRESSION_LIMIT: usize = 1436;

/// The largest on-wire payload length a decoder accepts.
pub const MAX_FRAME_LEN: usize = 16777216;

/// The four header bytes of a frame with compression flag `cf` and on-wire
/// payload length `len`.
pub open spec fn frame_header(cf: bool, len: u32) -> Seq<u8> {
    seq![
        if cf {
            ((len >> 24) as u8) | 0x80u8
        } else {
            (len >> 24) as u8
        },
        (len >> 16) as u8,
        (len >> 8) as u8,
        len as u8,
    ]
}

/// The compression flag of a header byte.
pub open spec fn header_cf(b0: u8) -> bool {
    b0 & 0x80 != 0
}

/// The payload length of the four header bytes.
pub open spec fn header_len(b0: u8, b1: u8, b2: u8, b3: u8) -> u32 {
    (((b0 & 0x7f) as u32) << 24) | ((b1 as u32) << 16) | ((b2 as u32) << 8) | (b3 as u32)
}

proof fn lemma_header_round_trip(cf: bool, len: u32)
    requires
        len < 0x80000000u32,
    ensures
        header_cf(frame_header(cf, len)[0]) == cf,
        header_len(
            frame_header(cf, len)[0],
            frame_header(cf, len)[1],
            frame_header(cf, len)[2],
            frame_header(cf, len)[3],
        ) == len,
{
    let b0: u8 = if cf {
        ((len >> 24) as u8) | 0x80u8
    } else {
        (len >> 24) as u8
    };
    let b1: u8 = (len >> 16) as u8;
    let b2: u8 = (len >> 8) as u8;
    let b3: u8 = len as u8;
    if cf {
        assert((((len >> 24) as u8 | 0x80u8) & 0x80u8) != 0 && ((((((len >> 24) as u8 | 0x80u8)
            & 0x7f) as u32) << 24) | (((len >> 16) as u8 as u32) << 16) | (((len >> 8) as u8
            as u32) << 8) | (len as u8 as u32)) == len) by (bit_vector)
            requires
                len < 0x80000000u32,
        ;
    } else {
        assert((((len >> 24) as u8) & 0x80u8) == 0 && (((((len >> 24) as u8 & 0x7f) as u32) << 24)
            | (((len >> 16) as u8 as u32) << 16) | (((len >> 8) as u8 as u32) << 8) | (len as u8
            as u32)) == len) by (bit_vector)
            requires
                len < 0x80000000u32,
        ;
    }
}

/// What gzip decompression yields on any byte sequence: a function of the
/// bytes alone.
pub uninterp spec fn inflate_of(b: Seq<u8>) -> Option<Seq<u8>>;

/// What gzip compression at the default level yields on a byte sequence: a
/// function of the bytes alone.
pub uninterp spec fn deflate_of(b: Seq<u8>) -> Seq<u8>;

/// Relies on flate2's gzip encoder: at a fixed compression level its output
/// is a function of the input bytes alone, and compression is lossless, so
/// decompressing that output yields the input again.
#[verifier::external_body]
fn gzip_compress(data: &[u8]) -> (r: Vec<u8>)
    ensures
        r@ == deflate_of(data@),
        inflate_of(r@) == Some(data@),
{
    let mut e = flate2::read::GzEncoder::new(data, flate2::Compression::default());
    let mut out = Vec::new();
    // Reading from a slice through the encoder cannot fail.
    std::io::Read::read_to_end(&mut e, &mut out).unwrap();
    out
}

/// Relies on flate2's gzip decoder: what a byte sequence decompresses to, if
/// anything, depends on the bytes alone.
#[verifier::external_body]
fn gzip_decompress(data: &[u8]) -> (r: Option<Vec<u8>>)
    ensures
        r matches Some(v) ==> inflate_of(data@) == Some(v@),
        r is None ==> inflate_of(data@) is None,
{
    let mut d = flate2::read::GzDecoder::new(data);
    let mut out = Vec::new();
    match std::io::Read::read_to_end(&mut d, &mut out) {
        Ok(_) => Some(out),
        Err(_) => None,
    }
}

/// Whether `out` is the frame for the message bytes `msg`: raw below the
/// compression threshold, gzip-compressed above it.
pub open spec fn frame_bytes_ok(msg: Seq<u8>, out: Seq<u8>) -> bool {
    if msg.len() <= COMPRESSION_LIMIT {
        out == frame_header(false, msg.len() as u32) + msg
    } else {
        &&& inflate_of(deflate_of(msg)) == Some(msg)
        &&& deflate_of(msg).len() <= MAX_FRAME_LEN
        &&& out == frame_header(true, deflate_of(msg).len() as u32) + deflate_of(msg)
    }
}

/// When a message encodes into a frame at all: always below the compression
/// threshold, and above it exactly when the compressed payload fits the
/// on-wire cap.
pub open spec fn frame_fits(msg: Seq<u8>) -> bool {
    msg.len() <= COMPRESSION_LIMIT || deflate_of(msg).len() <= MAX_FRAME_LEN
}

/// One frame parsed off the front of `b`: the message bytes it carries and
/// how many bytes it occupied.
pub open spec fn dec_frame(b: Seq<u8>) -> Option<(Seq<u8>, int)> {
    if b.len() < 4 {
        None
    } else {
        let cf = header_cf(b[0]);
        let len = header_len(b[0], b[1], b[2], b[3]) as int;
        if len <= MAX_FRAME_LEN && 4 + len <= b.len() {
            let payload = b.subrange(4, 4 + len);
            if cf {
                match inflate_of(payload) {
                    Some(p) => Some((p, 4 + len)),
                    None => None,
                }
            } else {
                Some((payload, 4 + len))
            }
        } else {
            None
        }
    }
}

/// The request carried by the frame at the front of `b`, when the frame is
/// complete, within bounds, and carries exactly one whole request.
pub open spec fn frame_decode_req(b: Seq<u8>) -> Option<(Option<ReqV>, int)> {
    match dec_frame(b) {
        None => None,
        Some((msg, c)) => match dec_req(msg, 0) {
            None => None,
            Some((m, p)) => if p == msg.len() {
                Some((m, c))
            } else {
                None
            },
        },
    }
}

/// The response carried by the frame at the front of `b`.
pub open spec fn frame_decode_resp(b: Seq<u8>) -> Option<(RespV, int)> {
    match dec_frame(b) {
        None => None,
        Some((msg, c)) => match dec_resp(msg, 0) {
            None => None,
            Some((m, p)) => if p == msg.len() {
                Some((m, c))
            } else {
                None
            },
        },
    }
}

fn push_header(buf: &mut Vec<u8>, cf: bool, len: u32)
    requires
        len < 0x80000000u32,
    ensures
        final(buf)@ == old(buf)@ + frame_header(cf, len),
{
    if cf {
        buf.push(((len >> 24u32) as u8) | 0x80u8);
    } else {
        buf.push((len >> 24u32) as u8);
    }
    buf.push((len >> 16u32) as u8);
    buf.push((len >> 8u32) as u8);
    buf.push(len as u8);
    proof {
        assert(final(buf)@ =~= old(buf)@ + frame_header(cf, len));
    }
}

/// Appends one frame carrying the message bytes `payload` to `buf`.
fn write_frame(buf: &mut Vec<u8>, payload: Vec<u8>) -> (r: Result<(), KvError>)
    ensures
        r is Ok <==> frame_fits(payload@),
        r is Ok ==> {
            &&& final(buf)@.subrange(0, old(buf)@.len() as int) == old(buf)@
            &&& frame_bytes_ok(payload@, final(buf)@.skip(old(buf)@.len() as int))
        },
        r is Err ==> final(buf)@ == old(buf)@,
{
    let ghost msg = payload@;
    if payload.len() <= COMPRESSION_LIMIT {
        let mut p = payload;
        push_header(buf, false, p.len() as u32);
        buf.append(&mut p);
        proof {
            assert(final(buf)@.subrange(0, old(buf)@.len() as int) =~= old(buf)@);
            assert(final(buf)@.skip(old(buf)@.len() as int) =~= frame_header(
                false,
                msg.len() as u32,
            ) + msg);
        }
        Ok(())
    } else {
        let mut w = gzip_compress(payload.as_slice());
        if w.len() > MAX_FRAME_LEN {
            return Err(KvError::FrameError(crate::strutil::str_to_string(
                "frame is larger than max size",
            )));
        }
        let ghost wv = w@;
        push_header(buf, true, w.len() as u32);
        buf.append(&mut w);
        proof {
            assert(final(buf)@.subrange(0, old(buf)@.len() as int) =~= old(buf)@);
            assert(final(buf)@.skip(old(buf)@.len() as int) =~= frame_header(
                true,
                wv.len() as u32,
            ) + wv);
            assert(frame_bytes_ok(msg, final(buf)@.skip(old(buf)@.len() as int)));
        }
        Ok(())
    }
}

/// Removes the first `n` bytes of `buf`.
fn drain_front(buf: &mut Vec<u8>, n: usize)
    requires
        n <= old(buf)@.len(),
    ensures
        final(buf)@ == old(buf)@.skip(n as int),
{
    let mut rest: Vec<u8> = Vec::new();
    let mut i: usize = n;
    while i < buf.len()
        invariant
            n <= i <= buf@.len(),
            buf@ == old(buf)@,
            rest@.len() == i - n,
            forall|j: int| 0 <= j < i - n ==> rest@[j] == buf@[n + j],
        decreases buf@.len() - i,
    {
        rest.push(buf[i]);
        i = i + 1;
    }
    proof {
        assert(rest@ =~= old(buf)@.skip(n as int));
    }
    *buf = rest;
}

/// Parses and removes one frame from the front of `buf`, after `read_frame`
/// has made sure a whole frame is there.
fn read_frame_payload(buf: &mut Vec<u8>) -> (r: Result<Vec<u8>, KvError>)
    ensures
        match dec_frame(old(buf)@) {
            Some((msg, c)) => r matches Ok(p) && p@ == msg && final(buf)@ == old(buf)@.skip(c),
            None => r is Err && final(buf)@ == old(buf)@,
        },
{
    let l: usize = buf.len();
    if l < 4 {
        return Err(KvError::FrameError(crate::strutil::str_to_string("frame header truncated")));
    }
    let b0 = buf[0];
    let cf = b0 & 0x80 != 0;
    let len_u32 = ((((b0 & 0x7f) as u32) << 24u32) | ((buf[1] as u32) << 16u32) | ((buf[2]
        as u32) << 8u32)) | (buf[3] as u32);
    proof {
        assert(len_u32 == header_len(old(buf)@[0], old(buf)@[1], old(buf)@[2], old(buf)@[3]));
    }
    let len = len_u32 as usize;
    if len > MAX_FRAME_LEN {
        return Err(KvError::FrameError(crate::strutil::str_to_string(
            "frame is larger than max size",
        )));
    }
    if l - 4 < len {
        return Err(KvError::FrameError(crate::strutil::str_to_string("frame truncated")));
    }
    let payload = match take_bytes(buf, 4, len) {
        Some(p) => p,
        None => {
            return Err(KvError::FrameError(crate::strutil::str_to_string("frame truncated")));
        },
    };
    if cf {
        match gzip_decompress(payload.as_slice()) {
            Some(p) => {
                drain_front(buf, 4 + len);
                Ok(p)
            },
            None => Err(KvError::FrameError(crate::strutil::str_to_string(
                "frame failed to decompress",
            ))),
        }
    } else {
        drain_front(buf, 4 + len);
        Ok(payload)
    }
}

impl CommandRequest {
    /// Appends one frame carrying this request to `buf`, compressing the
    /// payload when it exceeds the threshold.
    pub fn encode_frame(&self, buf: &mut Vec<u8>) -> (r: Result<(), KvError>)
        ensures
            r is Ok <==> frame_fits(enc_req(self@)),
            enc_req(self@).len() <= COMPRESSION_LIMIT ==> r is Ok,
            r is Ok ==> {
                &&& req_fits(self@)
                &&& final(buf)@.subrange(0, old(buf)@.len() as int) == old(buf)@
                &&& frame_bytes_ok(enc_req(self@), final(buf)@.skip(old(buf)@.len() as int))
            },
            r is Err ==> final(buf)@ == old(buf)@,
    {
        let mut payload: Vec<u8> = Vec::new();
        encode_req(&mut payload, self);
        proof {
            assert(payload@ =~= enc_req(self@));
        }
        write_frame(buf, payload)
    }

    /// Parses and removes one frame from the front of `buf`, yielding the
    /// request it carries.
    pub fn decode_frame(buf: &mut Vec<u8>) -> (r: Result<CommandRequest, KvError>)
        ensures
            match frame_decode_req(old(buf)@) {
                Some((m, c)) => r matches Ok(req) && req@ == m && final(buf)@ == old(buf)@.skip(c),
                None => r is Err,
            },
    {
        let msg = match read_frame_payload(buf) {
            Ok(p) => p,
            Err(e) => {
                return Err(e);
            },
        };
        match dec_req_x(&msg, 0) {
            Some((req, p)) => {
                if p == msg.len() {
                    Ok(req)
                } else {
                    Err(KvError::DecodeError(crate::strutil::str_to_string(
                        "trailing bytes after request",
                    )))
                }
            },
            None => Err(KvError::DecodeError(crate::strutil::str_to_string(
                "malformed request payload",
            ))),
        }
    }
}

impl CommandResponse {
    /// Appends one frame carrying this response to `buf`.
    pub fn encode_frame(&self, buf: &mut Vec<u8>) -> (r: Result<(), KvError>)
        ensures
            r is Ok <==> frame_fits(enc_resp(self@)),
            enc_resp(self@).len() <= COMPRESSION_LIMIT ==> r is Ok,
            r is Ok ==> {
                &&& resp_fits(self@)
                &&& final(buf)@.subrange(0, old(buf)@.len() as int) == old(buf)@
                &&& frame_bytes_ok(enc_resp(self@), final(buf)@.skip(old(buf)@.len() as int))
            },
            r is Err ==> final(buf)@ == old(buf)@,
    {
        let mut payload: Vec<u8> = Vec::new();
        encode_resp(&mut payload, self);
        proof {
            assert(payload@ =~= enc_resp(self@));
        }
        write_frame(buf, payload)
    }

    /// Parses and removes one frame from the front of `buf`, yielding the
    /// response it carries.
    pub fn decode_frame(buf: &mut Vec<u8>) -> (r: Result<CommandResponse, KvError>)
        ensures
            match frame_decode_resp(old(buf)@) {
                Some((m, c)) => r matches Ok(resp) && resp@ == m && final(buf)@ == old(buf)@.skip(
                    c,
                ),
                None => r is Err,
            },
    {
        let msg = match read_frame_payload(buf) {
            Ok(p) => p,
            Err(e) => {
                return Err(e);
            },
        };
        match dec_resp_x(&msg, 0) {
            Some((resp, p)) => {
                if p == msg.len() {
                    Ok(resp)
                } else {
                    Err(KvError::DecodeError(crate::strutil::str_to_string(
                        "trailing bytes after response",
                    )))
                }
            },
            None => Err(KvError::DecodeError(crate::strutil::str_to_string(
                "malformed response payload",
            ))),
        }
    }
}

proof fn lemma_frame_decodes(msg: Seq<u8>, out: Seq<u8>, rest: Seq<u8>)
    requires
        frame_bytes_ok(msg, out),
    ensures
        dec_frame(out + rest) == Some((msg, out.len() as int)),
{
    let b = out + rest;
    if msg.len() <= COMPRESSION_LIMIT {
        let h = frame_header(false, msg.len() as u32);
        lemma_header_round_trip(false, msg.len() as u32);
        assert(b[0] == h[0] && b[1] == h[1] && b[2] == h[2] && b[3] == h[3]) by {
            assert((h + msg)[0] == h[0]);
            assert((h + msg)[1] == h[1]);
            assert((h + msg)[2] == h[2]);
            assert((h + msg)[3] == h[3]);
        }
        assert(b.subrange(4, 4 + msg.len() as int) =~= msg) by {
            assert forall|i: int| 0 <= i < msg.len() implies b[4 + i] == msg[i] by {
                assert((h + msg)[4 + i] == msg[i]);
            }
        }
    } else {
        let w = deflate_of(msg);
        let h = frame_header(true, w.len() as u32);
        lemma_header_round_trip(true, w.len() as u32);
        assert(b[0] == h[0] && b[1] == h[1] && b[2] == h[2] && b[3] == h[3]) by {
            assert((h + w)[0] == h[0]);
            assert((h + w)[1] == h[1]);
            assert((h + w)[2] == h[2]);
            assert((h + w)[3] == h[3]);
        }
        assert(b.subrange(4, 4 + w.len() as int) =~= w) by {
            assert forall|i: int| 0 <= i < w.len() implies b[4 + i] == w[i] by {
                assert((h + w)[4 + i] == w[i]);
            }
        }
    }
}

/// The round trip of the frame codec: decoding a well-formed frame for a
/// request — raw or compressed — yields exactly the request that was encoded,
/// consumes exactly the frame, and leaves the rest of the buffer.
pub proof fn lemma_frame_round_trip_req(m: Option<ReqV>, out: Seq<u8>, rest: Seq<u8>)
    requires
        req_fits(m),
        frame_bytes_ok(enc_req(m), out),
    ensures
        frame_decode_req(out + rest) == Some((m, out.len() as int)),
{
    lemma_frame_decodes(enc_req(m), out, rest);
    let msg = enc_req(m);
    assert(msg.subrange(0, msg.len() as int) =~= msg);
    lemma_dec_req_enc(msg, 0, m);
}

/// The same round trip for responses.
pub proof fn lemma_frame_round_trip_resp(m: RespV, out: Seq<u8>, rest: Seq<u8>)
    requires
        resp_fits(m),
        frame_bytes_ok(enc_resp(m), out),
    ensures
        frame_decode_resp(out + rest) == Some((m, out.len() as int)),
{
    lemma_frame_decodes(enc_resp(m), out, rest);
    let msg = enc_resp(m);
    assert(msg.subrange(0, msg.len() as int) =~= msg);
    lemma_dec_resp_enc(msg, 0, m);
}

/// Parses the byte encoding of a response.
pub fn dec_resp_x(buf: &Vec<u8>, pos: usize) -> (r: Option<(CommandResponse, usize)>)
    ensures
        match r {
            Some(p) => dec_resp(buf@, pos as int) == Some((p.0@, p.1 as int)),
            None => dec_resp(buf@, pos as int) is None,
        },
{
    match dec_u32_x(buf, pos) {
        None => None,
        Some((status, p)) => match dec_str_x(buf, p) {
            None => None,
            Some((msg, p2)) => match dec_values_x(buf, p2) {
                None => None,
                Some((vs, p3)) => match dec_pairs_x(buf, p3) {
                    None => None,
                    Some((ps, p4)) => Some(
                        (
                            CommandResponse {
                                status,
                                message: msg,
                                values: vs,
                                pairs: ps,
                            },
                            p4,
                        ),
                    ),
                },
            },
        },
    }
}

} // verus!
