//! Reading the node's replies: the JSON envelope of a `getblock` reply, the
//! shape of each transaction in it, and the two-step fallback from a request
//! by height to a request by block hash.
use vstd::prelude::*;
use crate::model::TxShape;
use crate::range::{trim, trimmed};
use crate::util::{bucket_of, size_bucket};

verus! {

broadcast use vstd::string::group_string_axioms;

/// A JSON value as the node sends it. Numbers are told apart only as far as
/// the replies need: an unsigned integer, or anything else.
pub enum Json {
    Null,
    Bool(bool),
    UInt(u64),
    /// A negative or fractional number.
    OtherNumber,
    Str(String),
    Array(Vec<Json>),
    Object(Vec<(String, Json)>),
}

/// Why a block could not be fetched.
#[derive(Clone, Debug, PartialEq, Eq)]
pub enum FetchError {
    /// The request did not complete (connection, timeout).
    Transport,
    /// The node answered with a status outside 200 to 299; the reply's text
    /// without surrounding white space.
    Status(u16, String),
    /// The reply is not shaped as expected.
    Parse,
    /// The reply has neither a `result` nor an `error` member.
    MissingResult,
}

/// The mathematical content of a `FetchError`.
pub enum ErrorView {
    Transport,
    Status(u16, Seq<char>),
    Parse,
    MissingResult,
}

pub open spec fn error_view(e: FetchError) -> ErrorView {
    match e {
        FetchError::Transport => ErrorView::Transport,
        FetchError::Status(s, text) => ErrorView::Status(s, text@),
        FetchError::Parse => ErrorView::Parse,
        FetchError::MissingResult => ErrorView::MissingResult,
    }
}

/// The first value stored under `name` among `es`.
pub open spec fn lookup(es: Seq<(String, Json)>, name: Seq<char>) -> Option<Json>
    decreases es.len(),
{
    if es.len() == 0 {
        None
    } else if es[0].0@ == name {
        Some(es[0].1)
    } else {
        lookup(es.drop_first(), name)
    }
}

/// The member `name` of an object; nothing for any other value.
pub open spec fn field(j: Json, name: Seq<char>) -> Option<Json> {
    match j {
        Json::Object(es) => lookup(es@, name),
        _ => None,
    }
}

/// Looks up the member `name` of an object.
pub fn get_field<'a>(j: &'a Json, name: &str) -> (r: Option<&'a Json>)
    ensures
        match r {
            Some(x) => field(*j, name@) == Some(*x),
            None => field(*j, name@) is None,
        },
{
    match j {
        Json::Object(es) => {
            let key = name.to_string();
            let mut i: usize = 0;
            assert(es@.subrange(0, es@.len() as int) == es@);
            while i < es.len()
                invariant
                    0 <= i <= es@.len(),
                    key@ == name@,
                    field(*j, name@) == lookup(es@, name@),
                    lookup(es@, name@) == lookup(es@.subrange(i as int, es@.len() as int), name@),
                decreases es@.len() - i,
            {
                let ghost rest = es@.subrange(i as int, es@.len() as int);
                assert(rest.drop_first() == es@.subrange(i + 1, es@.len() as int));
                assert(rest[0] == es@[i as int]);
                let same = es[i].0 == key;
                if same {
                    assert(es@[i as int].0@ == name@);
                    assert(lookup(rest, name@) == Some(es@[i as int].1));
                    let x = &es[i].1;
                    assert(*x == es@[i as int].1);
                    return Some(x);
                }
                i += 1;
            }
            None
        },
        _ => None,
    }
}

/// Count rule of a list member: absent or null counts 0, a list its length.
pub open spec fn list_count(f: Option<Json>) -> Option<u32> {
    match f {
        None => Some(0),
        Some(Json::Null) => Some(0),
        Some(Json::Array(v)) => if v.len() <= u32::MAX {
            Some(v.len() as u32)
        } else {
            None
        },
        _ => None,
    }
}

/// Rule of a numeric member: absent or null gives `default`, an integer
/// that fits in 32 bits gives itself.
pub open spec fn number_or(f: Option<Json>, default: u32) -> Option<u32> {
    match f {
        None => Some(default),
        Some(Json::Null) => Some(default),
        Some(Json::UInt(n)) => if n <= u32::MAX {
            Some(n as u32)
        } else {
            None
        },
        _ => None,
    }
}

/// Count rule of the Orchard part: absent or null counts 0, an object
/// counts its `actions` list.
pub open spec fn orchard_count(f: Option<Json>) -> Option<u32> {
    match f {
        None => Some(0),
        Some(Json::Null) => Some(0),
        Some(Json::Object(es)) => list_count(lookup(es@, "actions"@)),
        _ => None,
    }
}

/// The shape of a transaction record, if it is well formed.
pub open spec fn shape_of(tx: Json) -> Option<TxShape> {
    let vin = list_count(field(tx, "vin"@));
    let vout = list_count(field(tx, "vout"@));
    let js = list_count(field(tx, "vjoinsplit"@));
    let spend = list_count(field(tx, "vShieldedSpend"@));
    let output = list_count(field(tx, "vShieldedOutput"@));
    let orchard = orchard_count(field(tx, "orchard"@));
    let size = number_or(field(tx, "size"@), 0);
    let version = number_or(field(tx, "version"@), 1);
    if tx is Object && vin is Some && vout is Some && js is Some && spend is Some && output is Some
        && orchard is Some && size is Some && version is Some {
        Some(
            TxShape {
                n_vin: vin->0,
                n_vout: vout->0,
                n_joinsplit: js->0,
                n_sapling_spend: spend->0,
                n_sapling_output: output->0,
                n_orchard_action: orchard->0,
                size_bucket: bucket_of(size->0 as int) as u8,
                version: version->0,
            },
        )
    } else {
        None
    }
}

fn count_list(f: Option<&Json>) -> (r: Option<u32>)
    ensures
        r == list_count(
            match f {
                Some(x) => Some(*x),
                None => None,
            },
        ),
{
    match f {
        None => Some(0),
        Some(Json::Null) => Some(0),
        Some(Json::Array(v)) => if v.len() <= 0xffff_ffff {
            Some(v.len() as u32)
        } else {
            None
        },
        _ => None,
    }
}

fn read_number(f: Option<&Json>, default: u32) -> (r: Option<u32>)
    ensures
        r == number_or(
            match f {
                Some(x) => Some(*x),
                None => None,
            },
            default,
        ),
{
    match f {
        None => Some(default),
        Some(Json::Null) => Some(default),
        Some(Json::UInt(n)) => if *n <= 0xffff_ffff {
            Some(*n as u32)
        } else {
            None
        },
        _ => None,
    }
}

/// The shape of one transaction record: each count is the length of its
/// list (absent lists count 0), an absent size is 0, an absent version 1.
pub fn extract_shape(tx: &Json) -> (r: Result<TxShape, FetchError>)
    ensures
        match shape_of(*tx) {
            Some(s) => r == Ok::<TxShape, FetchError>(s),
            None => r == Err::<TxShape, FetchError>(FetchError::Parse),
        },
{
    if !matches!(tx, Json::Object(_)) {
        return Err(FetchError::Parse);
    }
    let vin = count_list(get_field(tx, "vin"));
    let vout = count_list(get_field(tx, "vout"));
    let js = count_list(get_field(tx, "vjoinsplit"));
    let spend = count_list(get_field(tx, "vShieldedSpend"));
    let output = count_list(get_field(tx, "vShieldedOutput"));
    let orchard = match get_field(tx, "orchard") {
        None => Some(0u32),
        Some(Json::Null) => Some(0u32),
        Some(o) => if matches!(o, Json::Object(_)) {
            count_list(get_field(o, "actions"))
        } else {
            None
        },
    };
    let size = read_number(get_field(tx, "size"), 0);
    let version = read_number(get_field(tx, "version"), 1);
    match (vin, vout, js, spend, output, orchard, size, version) {
        (
            Some(n_vin),
            Some(n_vout),
            Some(n_joinsplit),
            Some(n_sapling_spend),
            Some(n_sapling_output),
            Some(n_orchard_action),
            Some(size),
            Some(version),
        ) => Ok(
            TxShape {
                n_vin,
                n_vout,
                n_joinsplit,
                n_sapling_spend,
                n_sapling_output,
                n_orchard_action,
                size_bucket: size_bucket(size),
                version,
            },
        ),
        _ => Err(FetchError::Parse),
    }
}

/// Every record of `v` is a well-formed transaction.
pub open spec fn all_shapes(v: Seq<Json>) -> bool {
    forall|i: int| 0 <= i < v.len() ==> (#[trigger] shape_of(v[i])) is Some
}

/// The transaction shapes of a block record, if it is well formed: an
/// object whose optional `height` is a 32-bit integer and whose optional
/// `tx` is a list of transaction records. A missing list is an empty block.
pub open spec fn block_txs(block: Json) -> Option<Seq<TxShape>> {
    if block is Object && number_or(field(block, "height"@), 0) is Some {
        match field(block, "tx"@) {
            None => Some(Seq::empty()),
            Some(Json::Null) => Some(Seq::empty()),
            Some(Json::Array(v)) => if all_shapes(v@) {
                Some(Seq::new(v@.len(), |i: int| shape_of(v@[i])->0))
            } else {
                None
            },
            _ => None,
        }
    } else {
        None
    }
}

/// The shapes of the transactions of a block record.
pub fn block_shapes(block: &Json) -> (r: Result<Vec<TxShape>, FetchError>)
    ensures
        match block_txs(*block) {
            Some(s) => r matches Ok(v) && v@ == s,
            None => r == Err::<Vec<TxShape>, FetchError>(FetchError::Parse),
        },
{
    if !matches!(block, Json::Object(_)) {
        return Err(FetchError::Parse);
    }
    if read_number(get_field(block, "height"), 0).is_none() {
        return Err(FetchError::Parse);
    }
    match get_field(block, "tx") {
        None => Ok(Vec::new()),
        Some(Json::Null) => Ok(Vec::new()),
        Some(Json::Array(txs)) => {
            let mut out: Vec<TxShape> = Vec::new();
            let mut i: usize = 0;
            while i < txs.len()
                invariant
                    0 <= i <= txs@.len(),
                    field(*block, "tx"@) == Some(Json::Array(*txs)),
                    block_txs(*block) == (if all_shapes(txs@) {
                        Some(Seq::new(txs@.len(), |k: int| shape_of(txs@[k])->0))
                    } else {
                        None::<Seq<TxShape>>
                    }),
                    out@.len() == i,
                    forall|k: int| 0 <= k < i ==> (#[trigger] shape_of(txs@[k])) == Some(out@[k]),
                decreases txs@.len() - i,
            {
                match extract_shape(&txs[i]) {
                    Ok(s) => {
                        out.push(s);
                    },
                    Err(e) => {
                        assert(!all_shapes(txs@));
                        return Err(e);
                    },
                }
                i += 1;
            }
            assert(all_shapes(txs@));
            assert(out@ =~= Seq::new(txs@.len(), |k: int| shape_of(txs@[k])->0));
            Ok(out)
        },
        _ => Err(FetchError::Parse),
    }
}

/// What a `getblock` reply means: a status outside 200 to 299 is an error
/// that carries the status and the trimmed reply text; a body that is not
/// JSON is a parse error; a `null` result, or an `error` member without a
/// result, means that the block is not available.
pub open spec fn reply_spec(status: u16, text: Seq<char>, body: Option<Json>) -> Result<
    Option<Seq<TxShape>>,
    ErrorView,
> {
    if !(200 <= status <= 299) {
        Err(ErrorView::Status(status, trim(text)))
    } else {
        match body {
            None => Err(ErrorView::Parse),
            Some(j) => match field(j, "result"@) {
                Some(Json::Null) => Ok(None),
                Some(b) => match block_txs(b) {
                    Some(s) => Ok(Some(s)),
                    None => Err(ErrorView::Parse),
                },
                None => if field(j, "error"@) is Some {
                    Ok(None)
                } else {
                    Err(ErrorView::MissingResult)
                },
            },
        }
    }
}

/// The mathematical content of a fetch result.
pub open spec fn fetched_view(r: Result<Option<Vec<TxShape>>, FetchError>) -> Result<
    Option<Seq<TxShape>>,
    ErrorView,
> {
    match r {
        Ok(Some(v)) => Ok(Some(v@)),
        Ok(None) => Ok(None),
        Err(e) => Err(error_view(e)),
    }
}

/// Reads a `getblock` reply with its HTTP status and its text; `body` is
/// `None` when the text is not JSON.
pub fn read_block_reply(status: u16, text: &str, body: &Option<Json>) -> (r: Result<
    Option<Vec<TxShape>>,
    FetchError,
>)
    ensures
        fetched_view(r) == reply_spec(status, text@, *body),
{
    if !(200 <= status && status <= 299) {
        return Err(FetchError::Status(status, trimmed(text)));
    }
    let j = match body {
        None => {
            return Err(FetchError::Parse);
        },
        Some(j) => j,
    };
    match get_field(j, "result") {
        Some(Json::Null) => Ok(None),
        Some(b) => match block_shapes(b) {
            Ok(v) => Ok(Some(v)),
            Err(e) => Err(e),
        },
        None => if get_field(j, "error").is_some() {
            Ok(None)
        } else {
            Err(FetchError::MissingResult)
        },
    }
}

/// A request to the node.
#[derive(Clone, Debug, PartialEq, Eq)]
pub enum RpcCall {
    /// `getblock` with full transaction detail, by height.
    BlockByHeight(u32),
    /// `getblockhash` of a height.
    HashOfHeight(u32),
    /// `getblock` with full transaction detail, by block hash.
    BlockByHash(String),
}

/// What came back from a request.
pub enum CallOutcome {
    /// No reply: connection failure or timeout.
    TransportFailed,
    /// A reply: its HTTP status, its body as text, and the body parsed as
    /// JSON if it is JSON.
    Reply(u16, String, Option<Json>),
}

/// What to do next while fetching one block.
pub enum FetchStep {
    /// Make this request and hand its outcome to `next_step`.
    Call(RpcCall),
    /// The fetch is over: the block's shapes, no data, or an error.
    Done(Result<Option<Vec<TxShape>>, FetchError>),
}

pub enum CallView {
    BlockByHeight(u32),
    HashOfHeight(u32),
    BlockByHash(Seq<char>),
}

pub enum StepView {
    Call(CallView),
    Done(Result<Option<Seq<TxShape>>, ErrorView>),
}

pub open spec fn call_view(c: RpcCall) -> CallView {
    match c {
        RpcCall::BlockByHeight(h) => CallView::BlockByHeight(h),
        RpcCall::HashOfHeight(h) => CallView::HashOfHeight(h),
        RpcCall::BlockByHash(s) => CallView::BlockByHash(s@),
    }
}

pub open spec fn step_view(s: FetchStep) -> StepView {
    match s {
        FetchStep::Call(c) => StepView::Call(call_view(c)),
        FetchStep::Done(r) => StepView::Done(fetched_view(r)),
    }
}

/// The statuses after which a request by height is retried by block hash:
/// the node is not ready to answer by height.
pub open spec fn server_not_ready(e: ErrorView) -> bool {
    match e {
        ErrorView::Status(s, _) => 500 <= s <= 502,
        _ => false,
    }
}

/// The fetch of one block. A request by height that fails with a
/// server-not-ready status is retried by hash: the hash of the height is
/// asked for, then the block by that hash. The hash request is read by the
/// same envelope rules as a block request: a refused status, a body that is
/// not JSON, or a result that is neither a string nor `null` is an error;
/// a `null` result, or an `error` member without a result, is no data. A
/// `null` block result is no data at once, with no fallback. A failed
/// transport ends the fetch with an error.
pub open spec fn step_spec(call: CallView, outcome: CallOutcome) -> StepView {
    match outcome {
        CallOutcome::TransportFailed => StepView::Done(Err(ErrorView::Transport)),
        CallOutcome::Reply(status, text, body) => match call {
            CallView::BlockByHeight(h) => match reply_spec(status, text@, body) {
                Err(e) => if server_not_ready(e) {
                    StepView::Call(CallView::HashOfHeight(h))
                } else {
                    StepView::Done(Err(e))
                },
                ok => StepView::Done(ok),
            },
            CallView::HashOfHeight(_) => if !(200 <= status <= 299) {
                StepView::Done(Err(ErrorView::Status(status, trim(text@))))
            } else {
                match body {
                    None => StepView::Done(Err(ErrorView::Parse)),
                    Some(j) => match field(j, "result"@) {
                        Some(Json::Str(hash)) => StepView::Call(CallView::BlockByHash(hash@)),
                        Some(Json::Null) => StepView::Done(Ok(None)),
                        Some(_) => StepView::Done(Err(ErrorView::Parse)),
                        None => if field(j, "error"@) is Some {
                            StepView::Done(Ok(None))
                        } else {
                            StepView::Done(Err(ErrorView::MissingResult))
                        },
                    },
                }
            },
            CallView::BlockByHash(_) => StepView::Done(reply_spec(status, text@, body)),
        },
    }
}

/// Position of a request in the fetch: each step moves strictly forward.
pub open spec fn call_rank(c: CallView) -> int {
    match c {
        CallView::BlockByHeight(_) => 0,
        CallView::HashOfHeight(_) => 1,
        CallView::BlockByHash(_) => 2,
    }
}

/// The first request of the fetch of the block at `height`.
pub fn first_call(height: u32) -> (r: RpcCall)
    ensures
        call_view(r) == CallView::BlockByHeight(height),
{
    RpcCall::BlockByHeight(height)
}

/// Decides what follows the outcome of `call`.
pub fn next_step(call: &RpcCall, outcome: &CallOutcome) -> (r: FetchStep)
    ensures
        step_view(r) == step_spec(call_view(*call), *outcome),
        r matches FetchStep::Call(c) ==> call_rank(call_view(c)) > call_rank(call_view(*call)),
{
    match outcome {
        CallOutcome::TransportFailed => FetchStep::Done(Err(FetchError::Transport)),
        CallOutcome::Reply(status, text, body) => match call {
            RpcCall::BlockByHeight(h) => match read_block_reply(*status, text.as_str(), body) {
                Err(FetchError::Status(s, msg)) => if 500 <= s && s <= 502 {
                    FetchStep::Call(RpcCall::HashOfHeight(*h))
                } else {
                    FetchStep::Done(Err(FetchError::Status(s, msg)))
                },
                other => FetchStep::Done(other),
            },
            RpcCall::HashOfHeight(_) => {
                if !(200 <= *status && *status <= 299) {
                    return FetchStep::Done(Err(FetchError::Status(*status, trimmed(text.as_str()))));
                }
                match body {
                    None => FetchStep::Done(Err(FetchError::Parse)),
                    Some(j) => match get_field(j, "result") {
                        Some(Json::Str(hash)) => FetchStep::Call(RpcCall::BlockByHash(hash.clone())),
                        Some(Json::Null) => FetchStep::Done(Ok(None)),
                        Some(_) => FetchStep::Done(Err(FetchError::Parse)),
                        None => if get_field(j, "error").is_some() {
                            FetchStep::Done(Ok(None))
                        } else {
                            FetchStep::Done(Err(FetchError::MissingResult))
                        },
                    },
                }
            },
            RpcCall::BlockByHash(_) => FetchStep::Done(read_block_reply(*status, text.as_str(), body)),
        },
    }
}

} // verus!
