use vstd::prelude::*;

use crate::error::KvError;
use crate::{STATUS_INTERNAL, STATUS_OK};

verus! {

// ---------------------------------------------------------------------------
// Values
// ---------------------------------------------------------------------------
/// The payload of a populated value: a tagged union of the five wire kinds.
///
/// A 64-bit float travels as its IEEE-754 bit pattern so that the codec and
/// the storage layer work on plain integers.
#[derive(Debug, PartialEq)]
pub enum Val {
    Str(String),
    Integer(i64),
    Float(u64),
    Bool(bool),
    Binary(Vec<u8>),
}

/// A value as a command or response carries it.  `value == None` is the
/// distinguished "default value", standing for absent/unit.
#[derive(Debug, PartialEq)]
pub struct Value {
    pub value: Option<Val>,
}

/// The mathematical model of a populated value.
pub enum Vv {
    Str(Seq<char>),
    Integer(i64),
    Float(u64),
    Bool(bool),
    Binary(Seq<u8>),
}

impl View for Val {
    type V = Vv;

    open spec fn view(&self) -> Vv {
        match self {
            Val::Str(s) => Vv::Str(s@),
            Val::Integer(i) => Vv::Integer(*i),
            Val::Float(bits) => Vv::Float(*bits),
            Val::Bool(b) => Vv::Bool(*b),
            Val::Binary(b) => Vv::Binary(b@),
        }
    }
}

impl View for Value {
    type V = Option<Vv>;

    open spec fn view(&self) -> Option<Vv> {
        match &self.value {
            Option::Some(v) => Option::Some(v@),
            Option::None => Option::None,
        }
    }
}

impl Clone for Val {
    fn clone(&self) -> (r: Self)
        ensures
            r@ == self@,
    {
        match self {
            Val::Str(s) => Val::Str(s.clone()),
            Val::Integer(i) => Val::Integer(*i),
            Val::Float(bits) => Val::Float(*bits),
            Val::Bool(b) => Val::Bool(*b),
            Val::Binary(b) => {
                let c = b.clone();
                proof {
                    assert(c@ =~= b@);
                }
                Val::Binary(c)
            },
        }
    }
}

impl Clone for Value {
    fn clone(&self) -> (r: Self)
        ensures
            r@ == self@,
    {
        match &self.value {
            Option::Some(v) => Value { value: Option::Some(v.clone()) },
            Option::None => Value { value: Option::None },
        }
    }
}

impl Default for Value {
    /// The default value: no tag set, standing for absent/unit.
    fn default() -> (r: Self)
        ensures
            r@ is None,
    {
        Value { value: Option::None }
    }
}

impl Value {
    /// Renders the value for error reporting.
    ///
    /// Relies on the derived `Debug` formatting of `Value` through `format!`.
    #[verifier::external_body]
    pub fn format(&self) -> String {
        format!("{:?}", self)
    }

    /// The integer this value carries, or the conversion error.
    pub fn as_integer(self) -> (r: Result<i64, KvError>)
        ensures
            r matches Ok(i) ==> self@ == Some(Vv::Integer(i)),
            r is Ok <==> self@ matches Some(Vv::Integer(_)),
            r matches Err(e) ==> e matches KvError::ConvertError(..),
    {
        match &self.value {
            Some(Val::Integer(i)) => Ok(*i),
            _ => Err(KvError::ConvertError(self.format(), "Integer")),
        }
    }

    /// The bit pattern of the float this value carries, or the conversion
    /// error.
    pub fn as_float_bits(self) -> (r: Result<u64, KvError>)
        ensures
            r matches Ok(bits) ==> self@ == Some(Vv::Float(bits)),
            r is Ok <==> self@ matches Some(Vv::Float(_)),
            r matches Err(e) ==> e matches KvError::ConvertError(..),
    {
        match &self.value {
            Some(Val::Float(bits)) => Ok(*bits),
            _ => Err(KvError::ConvertError(self.format(), "Float")),
        }
    }

    /// The boolean this value carries, or the conversion error.
    pub fn as_bool(self) -> (r: Result<bool, KvError>)
        ensures
            r matches Ok(b) ==> self@ == Some(Vv::Bool(b)),
            r is Ok <==> self@ matches Some(Vv::Bool(_)),
            r matches Err(e) ==> e matches KvError::ConvertError(..),
    {
        match &self.value {
            Some(Val::Bool(b)) => Ok(*b),
            _ => Err(KvError::ConvertError(self.format(), "Bool")),
        }
    }

    /// The byte blob this value carries, or the conversion error.
    pub fn as_binary(self) -> (r: Result<Vec<u8>, KvError>)
        ensures
            r matches Ok(b) ==> self@ == Some(Vv::Binary(b@)),
            r is Ok <==> self@ matches Some(Vv::Binary(_)),
            r matches Err(e) ==> e matches KvError::ConvertError(..),
    {
        let fallback = self.format();
        match self.value {
            Some(Val::Binary(b)) => Ok(b),
            _ => Err(KvError::ConvertError(fallback, "Binary")),
        }
    }
}

// ---------------------------------------------------------------------------
// Key-value pairs
// ---------------------------------------------------------------------------
/// One `(key, value)` pair of a table.
#[derive(Debug, PartialEq)]
pub struct Kvpair {
    pub key: String,
    pub value: Option<Value>,
}

/// The model of a pair.  An absent `value` field and a present default value
/// coincide: both model the default value.
pub struct KvpairV {
    pub key: Seq<char>,
    pub value: Option<Vv>,
}

impl View for Kvpair {
    type V = KvpairV;

    open spec fn view(&self) -> KvpairV {
        KvpairV {
            key: self.key@,
            value: match &self.value {
                Option::Some(v) => v@,
                Option::None => Option::None,
            },
        }
    }
}

impl Clone for Kvpair {
    fn clone(&self) -> (r: Self)
        ensures
            r@ == self@,
    {
        Kvpair {
            key: self.key.clone(),
            value: match &self.value {
                Option::Some(v) => Option::Some(v.clone()),
                Option::None => Option::None,
            },
        }
    }
}

impl Kvpair {
    /// Creates a pair with a populated value.
    pub fn new(key: String, value: Value) -> (r: Self)
        ensures
            r@.key == key@,
            r@.value == value@,
    {
        Kvpair { key, value: Option::Some(value) }
    }
}

/// The models of a sequence of values.
pub open spec fn vals_view(vs: Seq<Value>) -> Seq<Option<Vv>> {
    vs.map_values(|v: Value| v@)
}

/// The models of a sequence of pairs.
pub open spec fn pairs_view(ps: Seq<Kvpair>) -> Seq<KvpairV> {
    ps.map_values(|p: Kvpair| p@)
}

// ---------------------------------------------------------------------------
// Requests
// ---------------------------------------------------------------------------
#[derive(Debug, PartialEq)]
pub struct Hget {
    pub table: String,
    pub key: String,
}

#[derive(Debug, PartialEq)]
pub struct Hgetall {
    pub table: String,
}

#[derive(Debug, PartialEq)]
pub struct Hset {
    pub table: String,
    pub pair: Option<Kvpair>,
}

#[derive(Debug, PartialEq)]
pub struct Hdel {
    pub table: String,
    pub key: String,
}

#[derive(Debug, PartialEq)]
pub struct Hexist {
    pub table: String,
    pub key: String,
}

#[derive(Debug, PartialEq)]
pub struct Hmget {
    pub table: String,
    pub keys: Vec<String>,
}

#[derive(Debug, PartialEq)]
pub struct Hmset {
    pub table: String,
    pub pairs: Vec<Kvpair>,
}

#[derive(Debug, PartialEq)]
pub struct Hmdel {
    pub table: String,
    pub keys: Vec<String>,
}

#[derive(Debug, PartialEq)]
pub struct Hmexist {
    pub table: String,
    pub keys: Vec<String>,
}

#[derive(Debug, PartialEq)]
pub struct Subscribe {
    pub topic: String,
}

#[derive(Debug, PartialEq)]
pub struct Unsubscribe {
    pub topic: String,
    pub id: u32,
}

#[derive(Debug, PartialEq)]
pub struct Publish {
    pub topic: String,
    pub data: Vec<Value>,
}

/// Exactly one command.
#[derive(Debug, PartialEq)]
pub enum RequestData {
    Hget(Hget),
    Hgetall(Hgetall),
    Hset(Hset),
    Hdel(Hdel),
    Hexist(Hexist),
    Hmget(Hmget),
    Hmset(Hmset),
    Hmdel(Hmdel),
    Hmexist(Hmexist),
    Subscribe(Subscribe),
    Unsubscribe(Unsubscribe),
    Publish(Publish),
}

/// A command request; `request_data == None` is the invalid empty request.
#[derive(Debug, PartialEq)]
pub struct CommandRequest {
    pub request_data: Option<RequestData>,
}

/// The model of a command.
pub enum ReqV {
    Hget { table: Seq<char>, key: Seq<char> },
    Hgetall { table: Seq<char> },
    Hset { table: Seq<char>, pair: Option<KvpairV> },
    Hdel { table: Seq<char>, key: Seq<char> },
    Hexist { table: Seq<char>, key: Seq<char> },
    Hmget { table: Seq<char>, keys: Seq<Seq<char>> },
    Hmset { table: Seq<char>, pairs: Seq<KvpairV> },
    Hmdel { table: Seq<char>, keys: Seq<Seq<char>> },
    Hmexist { table: Seq<char>, keys: Seq<Seq<char>> },
    Subscribe { topic: Seq<char> },
    Unsubscribe { topic: Seq<char>, id: u32 },
    Publish { topic: Seq<char>, data: Seq<Option<Vv>> },
}

/// The models of a sequence of keys.
pub open spec fn keys_view(ks: Seq<String>) -> Seq<Seq<char>> {
    ks.map_values(|k: String| k@)
}

impl View for RequestData {
    type V = ReqV;

    open spec fn view(&self) -> ReqV {
        match self {
            RequestData::Hget(p) => ReqV::Hget { table: p.table@, key: p.key@ },
            RequestData::Hgetall(p) => ReqV::Hgetall { table: p.table@ },
            RequestData::Hset(p) => ReqV::Hset {
                table: p.table@,
                pair: match &p.pair {
                    Option::Some(pr) => Option::Some(pr@),
                    Option::None => Option::None,
                },
            },
            RequestData::Hdel(p) => ReqV::Hdel { table: p.table@, key: p.key@ },
            RequestData::Hexist(p) => ReqV::Hexist { table: p.table@, key: p.key@ },
            RequestData::Hmget(p) => ReqV::Hmget { table: p.table@, keys: keys_view(p.keys@) },
            RequestData::Hmset(p) => ReqV::Hmset { table: p.table@, pairs: pairs_view(p.pairs@) },
            RequestData::Hmdel(p) => ReqV::Hmdel { table: p.table@, keys: keys_view(p.keys@) },
            RequestData::Hmexist(p) => ReqV::Hmexist { table: p.table@, keys: keys_view(p.keys@) },
            RequestData::Subscribe(p) => ReqV::Subscribe { topic: p.topic@ },
            RequestData::Unsubscribe(p) => ReqV::Unsubscribe { topic: p.topic@, id: p.id },
            RequestData::Publish(p) => ReqV::Publish { topic: p.topic@, data: vals_view(p.data@) },
        }
    }
}

impl View for CommandRequest {
    type V = Option<ReqV>;

    open spec fn view(&self) -> Option<ReqV> {
        match &self.request_data {
            Option::Some(d) => Option::Some(d@),
            Option::None => Option::None,
        }
    }
}

impl CommandRequest {
    /// Creates an HGET command.
    pub fn new_hget(table: String, key: String) -> (r: Self)
        ensures
            r@ == Some(ReqV::Hget { table: table@, key: key@ }),
    {
        CommandRequest {
            request_data: Option::Some(RequestData::Hget(Hget { table, key })),
        }
    }

    /// Creates an HGETALL command.
    pub fn new_hgetall(table: String) -> (r: Self)
        ensures
            r@ == Some(ReqV::Hgetall { table: table@ }),
    {
        CommandRequest {
            request_data: Option::Some(RequestData::Hgetall(Hgetall { table })),
        }
    }

    /// Creates an HSET command.
    pub fn new_hset(table: String, key: String, value: Value) -> (r: Self)
        ensures
            r@ == Some(
                ReqV::Hset {
                    table: table@,
                    pair: Some(KvpairV { key: key@, value: value@ }),
                },
            ),
    {
        CommandRequest {
            request_data: Option::Some(
                RequestData::Hset(Hset { table, pair: Option::Some(Kvpair::new(key, value)) }),
            ),
        }
    }

    /// Creates an HDEL command.
    pub fn new_hdel(table: String, key: String) -> (r: Self)
        ensures
            r@ == Some(ReqV::Hdel { table: table@, key: key@ }),
    {
        CommandRequest {
            request_data: Option::Some(RequestData::Hdel(Hdel { table, key })),
        }
    }

    /// Creates an HEXIST command.
    pub fn new_hexist(table: String, key: String) -> (r: Self)
        ensures
            r@ == Some(ReqV::Hexist { table: table@, key: key@ }),
    {
        CommandRequest {
            request_data: Option::Some(RequestData::Hexist(Hexist { table, key })),
        }
    }

    /// Creates an HMGET command.
    pub fn new_hmget(table: String, keys: Vec<String>) -> (r: Self)
        ensures
            r@ == Some(ReqV::Hmget { table: table@, keys: keys_view(keys@) }),
    {
        CommandRequest {
            request_data: Option::Some(RequestData::Hmget(Hmget { table, keys })),
        }
    }

    /// Creates an HMSET command.
    pub fn new_hmset(table: String, pairs: Vec<Kvpair>) -> (r: Self)
        ensures
            r@ == Some(ReqV::Hmset { table: table@, pairs: pairs_view(pairs@) }),
    {
        CommandRequest {
            request_data: Option::Some(RequestData::Hmset(Hmset { table, pairs })),
        }
    }

    /// Creates an HMDEL command.
    pub fn new_hmdel(table: String, keys: Vec<String>) -> (r: Self)
        ensures
            r@ == Some(ReqV::Hmdel { table: table@, keys: keys_view(keys@) }),
    {
        CommandRequest {
            request_data: Option::Some(RequestData::Hmdel(Hmdel { table, keys })),
        }
    }

    /// Creates an HMEXIST command.
    pub fn new_hmexist(table: String, keys: Vec<String>) -> (r: Self)
        ensures
            r@ == Some(ReqV::Hmexist { table: table@, keys: keys_view(keys@) }),
    {
        CommandRequest {
            request_data: Option::Some(RequestData::Hmexist(Hmexist { table, keys })),
        }
    }

    /// Creates a SUBSCRIBE command.
    pub fn new_subscribe(name: String) -> (r: Self)
        ensures
            r@ == Some(ReqV::Subscribe { topic: name@ }),
    {
        CommandRequest {
            request_data: Option::Some(RequestData::Subscribe(Subscribe { topic: name })),
        }
    }

    /// Creates an UNSUBSCRIBE command.
    pub fn new_unsubscribe(name: String, id: u32) -> (r: Self)
        ensures
            r@ == Some(ReqV::Unsubscribe { topic: name@, id: id }),
    {
        CommandRequest {
            request_data: Option::Some(
                RequestData::Unsubscribe(Unsubscribe { topic: name, id }),
            ),
        }
    }

    /// Creates a PUBLISH command.
    pub fn new_publish(name: String, data: Vec<Value>) -> (r: Self)
        ensures
            r@ == Some(ReqV::Publish { topic: name@, data: vals_view(data@) }),
    {
        CommandRequest {
            request_data: Option::Some(RequestData::Publish(Publish { topic: name, data })),
        }
    }

    /// Renders the request for error reporting.
    ///
    /// Relies on the derived `Debug` formatting of `CommandRequest` through
    /// `format!`.
    #[verifier::external_body]
    pub fn format(&self) -> String {
        format!("{:?}", self)
    }
}

// ---------------------------------------------------------------------------
// Responses
// ---------------------------------------------------------------------------
/// A command response: an HTTP-style status, a message, and result values or
/// pairs.
#[derive(Debug, PartialEq)]
pub struct CommandResponse {
    pub status: u32,
    pub message: String,
    pub values: Vec<Value>,
    pub pairs: Vec<Kvpair>,
}

/// The model of a response.
pub struct RespV {
    pub status: u32,
    pub message: Seq<char>,
    pub values: Seq<Option<Vv>>,
    pub pairs: Seq<KvpairV>,
}

impl View for CommandResponse {
    type V = RespV;

    open spec fn view(&self) -> RespV {
        RespV {
            status: self.status,
            message: self.message@,
            values: vals_view(self.values@),
            pairs: pairs_view(self.pairs@),
        }
    }
}

impl Clone for CommandResponse {
    fn clone(&self) -> (r: Self)
        ensures
            r@ == self@,
    {
        let mut values: Vec<Value> = Vec::new();
        let mut i: usize = 0;
        while i < self.values.len()
            invariant
                0 <= i <= self.values.len(),
                values@.len() == i as int,
                forall|j: int| 0 <= j < i as int ==> values@[j]@ == self.values@[j]@,
            decreases self.values.len() - i,
        {
            values.push(self.values[i].clone());
            i = i + 1;
        }
        let mut pairs: Vec<Kvpair> = Vec::new();
        let mut i: usize = 0;
        while i < self.pairs.len()
            invariant
                0 <= i <= self.pairs.len(),
                pairs@.len() == i as int,
                forall|j: int| 0 <= j < i as int ==> pairs@[j]@ == self.pairs@[j]@,
            decreases self.pairs.len() - i,
        {
            pairs.push(self.pairs[i].clone());
            i = i + 1;
        }
        let r = CommandResponse {
            status: self.status,
            message: self.message.clone(),
            values,
            pairs,
        };
        proof {
            assert(vals_view(r.values@) =~= vals_view(self.values@));
            assert(pairs_view(r.pairs@) =~= pairs_view(self.pairs@));
        }
        r
    }
}

/// The model of the default response: the in-band sentinel between the unary
/// and the streaming dispatcher phases.
pub open spec fn default_resp() -> RespV {
    RespV {
        status: 0,
        message: Seq::<char>::empty(),
        values: Seq::<Option<Vv>>::empty(),
        pairs: Seq::<KvpairV>::empty(),
    }
}

/// The model of a bare OK response.
pub open spec fn ok_resp() -> RespV {
    RespV {
        status: STATUS_OK,
        message: Seq::<char>::empty(),
        values: Seq::<Option<Vv>>::empty(),
        pairs: Seq::<KvpairV>::empty(),
    }
}

impl Default for CommandResponse {
    /// The default response: status 0 and empty fields.
    fn default() -> (r: Self)
        ensures
            r@ == default_resp(),
    {
        let r = CommandResponse {
            status: 0,
            message: String::new(),
            values: Vec::new(),
            pairs: Vec::new(),
        };
        proof {
            assert(r@.message =~= default_resp().message);
            assert(r@.values =~= default_resp().values);
            assert(r@.pairs =~= default_resp().pairs);
        }
        r
    }
}

impl CommandResponse {
    /// A bare success response.
    pub fn ok() -> (r: Self)
        ensures
            r@ == ok_resp(),
    {
        let r = CommandResponse {
            status: STATUS_OK,
            message: String::new(),
            values: Vec::new(),
            pairs: Vec::new(),
        };
        proof {
            assert(r@.message =~= ok_resp().message);
            assert(r@.values =~= ok_resp().values);
            assert(r@.pairs =~= ok_resp().pairs);
        }
        r
    }

    /// An internal-error response carrying `msg`.
    pub fn internal_error(msg: String) -> (r: Self)
        ensures
            r@.status == STATUS_INTERNAL,
            r@.message == msg@,
            r@.values =~= Seq::<Option<Vv>>::empty(),
            r@.pairs =~= Seq::<KvpairV>::empty(),
    {
        let r = CommandResponse {
            status: STATUS_INTERNAL,
            message: msg,
            values: Vec::new(),
            pairs: Vec::new(),
        };
        proof {
            assert(r@.values =~= Seq::<Option<Vv>>::empty());
            assert(r@.pairs =~= Seq::<KvpairV>::empty());
        }
        r
    }

    /// Renders the response for error reporting.
    ///
    /// Relies on the derived `Debug` formatting of `CommandResponse` through
    /// `format!`.
    #[verifier::external_body]
    pub fn format(&self) -> String {
        format!("{:?}", self)
    }

    /// A success response carrying `values`.
    pub fn ok_values(values: Vec<Value>) -> (r: Self)
        ensures
            r@ == resp_values(vals_view(values@)),
    {
        let ghost vs = vals_view(values@);
        let r = CommandResponse {
            status: STATUS_OK,
            message: String::new(),
            values,
            pairs: Vec::new(),
        };
        proof {
            assert(r@.message =~= Seq::<char>::empty());
            assert(r@.pairs =~= Seq::<KvpairV>::empty());
        }
        r
    }

    /// A success response carrying `pairs`.
    pub fn ok_pairs(pairs: Vec<Kvpair>) -> (r: Self)
        ensures
            r@ == resp_pairs(pairs_view(pairs@)),
    {
        let r = CommandResponse {
            status: STATUS_OK,
            message: String::new(),
            values: Vec::new(),
            pairs,
        };
        proof {
            assert(r@.message =~= Seq::<char>::empty());
            assert(r@.values =~= Seq::<Option<Vv>>::empty());
        }
        r
    }

    /// The integer a successful response's first value carries, or the
    /// conversion error.
    pub fn first_integer(&self) -> (r: Result<i64, KvError>)
        ensures
            r matches Ok(i) ==> self@.status == STATUS_OK && self@.values.len() > 0
                && self@.values[0] == Some(Vv::Integer(i)),
            r is Ok <==> (self@.status == STATUS_OK && self@.values.len() > 0 && self@.values[0]
                matches Some(Vv::Integer(_))),
            r matches Err(e) ==> e matches KvError::ConvertError(..),
    {
        if self.status != STATUS_OK {
            return Err(KvError::ConvertError(self.format(), "CommandResponse"));
        }
        if self.values.len() == 0 {
            return Err(KvError::ConvertError(self.format(), "CommandResponse"));
        }
        proof {
            assert(self@.values[0] == self.values@[0]@);
        }
        match &self.values[0].value {
            Some(Val::Integer(i)) => Ok(*i),
            _ => Err(KvError::ConvertError(self.values[0].format(), "Integer")),
        }
    }

    /// The response of an error: its status code and rendered message, with
    /// no values and no pairs.
    pub fn from_err(e: KvError) -> (r: Self)
        ensures
            r@ == resp_err(&e),
    {
        let status = e.status();
        let message = e.message();
        let r = CommandResponse { status, message, values: Vec::new(), pairs: Vec::new() };
        proof {
            assert(r@.values =~= Seq::<Option<Vv>>::empty());
            assert(r@.pairs =~= Seq::<KvpairV>::empty());
        }
        r
    }
}

/// A success response carrying the given values.
pub open spec fn resp_values(vs: Seq<Option<Vv>>) -> RespV {
    RespV {
        status: STATUS_OK,
        message: Seq::<char>::empty(),
        values: vs,
        pairs: Seq::<KvpairV>::empty(),
    }
}

/// A success response carrying the given pairs.
pub open spec fn resp_pairs(ps: Seq<KvpairV>) -> RespV {
    RespV {
        status: STATUS_OK,
        message: Seq::<char>::empty(),
        values: Seq::<Option<Vv>>::empty(),
        pairs: ps,
    }
}

/// The response that reports an error.
pub open spec fn resp_err(e: &KvError) -> RespV {
    RespV {
        status: crate::error::spec_error_status(e),
        message: crate::error::spec_error_message(e),
        values: Seq::<Option<Vv>>::empty(),
        pairs: Seq::<KvpairV>::empty(),
    }
}

fn val_eq(a: &Val, b: &Val) -> (r: bool)
    ensures
        r == (a@ == b@),
{
    match (a, b) {
        (Val::Str(x), Val::Str(y)) => (*x).eq(y),
        (Val::Integer(x), Val::Integer(y)) => *x == *y,
        (Val::Float(x), Val::Float(y)) => *x == *y,
        (Val::Bool(x), Val::Bool(y)) => *x == *y,
        (Val::Binary(x), Val::Binary(y)) => {
            let r = x == y;
            proof {
                if r {
                    assert(x@ =~= y@);
                }
            }
            r
        },
        _ => false,
    }
}

/// Compares two values by their models.
pub fn value_eq(a: &Value, b: &Value) -> (r: bool)
    ensures
        r == (a@ == b@),
{
    match (&a.value, &b.value) {
        (Option::None, Option::None) => true,
        (Option::Some(x), Option::Some(y)) => val_eq(x, y),
        _ => false,
    }
}

/// Compares two pairs by their models; an absent value and a present default
/// value coincide.
pub fn kvpair_eq(a: &Kvpair, b: &Kvpair) -> (r: bool)
    ensures
        r == (a@ == b@),
{
    if !a.key.eq(&b.key) {
        return false;
    }
    match (&a.value, &b.value) {
        (Option::None, Option::None) => true,
        (Option::None, Option::Some(v)) => v.value.is_none(),
        (Option::Some(v), Option::None) => v.value.is_none(),
        (Option::Some(x), Option::Some(y)) => value_eq(x, y),
    }
}

/// Whether a response reports an error: one of the three error statuses, a
/// message, and no payload.
pub open spec fn is_error_resp(r: RespV) -> bool {
    &&& (r.status == crate::STATUS_NOT_FOUND || r.status == crate::STATUS_BAD_REQUEST || r.status
        == crate::STATUS_INTERNAL)
    &&& r.values == Seq::<Option<Vv>>::empty()
    &&& r.pairs == Seq::<KvpairV>::empty()
}

} // verus!
