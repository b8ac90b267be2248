//! Messages in, answers out.

use vstd::prelude::*;
use vstd::string::*;

use super::catalogue::{
    multivariate_properties, multivariate_tool_model, server_model, tool_model, tools_model,
    trend_properties, trend_tool_model, univariate_properties, univariate_tool_model,
};
use super::catalogue::{server_description, tool_list};
use super::decode::{check_arguments, find_argument, Field, Kind, Signature};
use super::decode::{
    absence, argument, complaint, members_fault, position, FieldModel, SignatureModel,
};
use super::engine::Forecaster;
use super::tools::{
    call_evaluate_trend, call_forecast_multivariate, call_forecast_univariate, failure,
    CallToolResult,
};
use super::tools::{
    is_failure, is_multivariate_call, is_trend_call, is_univariate_call, multivariate_model, refuses,
    required_model, trend_model, univariate_model,
};
use crate::json::{are_distinct, has_distinct_names, member, parse_json, reading, Json, JsonModel};
use crate::text::{is_empty_text, same_text, trim, trimmed};
use super::decode::law_member_is_found;
use super::tools::has_value;

verus! {

/// A request in JSON-RPC notation.
#[derive(Debug, Clone)]
pub struct JsonRpcRequest {
    pub jsonrpc: String,
    pub id: Option<Json>,
    pub method: String,
    pub params: Option<Json>,
}

/// What a request came to.
#[derive(Debug, Clone)]
pub enum RpcResult {
    Value(Json),
    Tool(CallToolResult),
}

/// The answer to a request.
#[derive(Debug, Clone)]
pub struct JsonRpcResponse {
    pub jsonrpc: String,
    pub id: Json,
    pub result: Option<RpcResult>,
    pub error: Option<JsonRpcError>,
}

/// Why a request was not answered.
#[derive(Debug, Clone)]
pub struct JsonRpcError {
    pub code: i64,
    pub message: String,
    pub data: Option<Json>,
}

/// An answer that says what went wrong.
pub open spec fn is_error_response(
    r: JsonRpcResponse,
    id: JsonModel,
    code: int,
    message: Seq<char>,
) -> bool {
    &&& r.jsonrpc@ == "2.0"@
    &&& r.id@ == id
    &&& r.result is None
    &&& r.error matches Some(e) && e.code == code && e.message@ == message && e.data is None
}

/// An answer that has a result.
pub open spec fn is_result_response(r: JsonRpcResponse, id: JsonModel) -> bool {
    &&& r.jsonrpc@ == "2.0"@
    &&& r.id@ == id
    &&& r.result is Some
    &&& r.error is None
}

/// An answer whose result is a value.
pub open spec fn is_value_response(r: JsonRpcResponse, id: JsonModel, value: JsonModel) -> bool {
    is_result_response(r, id) && (r.result matches Some(RpcResult::Value(v)) && v@ == value)
}

fn error_response(id: Json, code: i64, message: String) -> (r: JsonRpcResponse)
    ensures
        is_error_response(r, id@, code as int, message@),
{
    JsonRpcResponse {
        jsonrpc: "2.0".to_owned(),
        id,
        result: None,
        error: Some(JsonRpcError { code, message, data: None }),
    }
}

fn result_response(id: Json, result: RpcResult) -> (r: JsonRpcResponse)
    ensures
        is_result_response(r, id@),
        r.result == Some(result),
{
    JsonRpcResponse { jsonrpc: "2.0".to_owned(), id, result: Some(result), error: None }
}

/// The members of a request. Without an `id` it is a notification.
pub open spec fn request_model() -> SignatureModel {
    SignatureModel {
        title: "JsonRpcRequest"@,
        fields: seq![
            required_model("jsonrpc"@, Kind::Text),
            FieldModel {
                name: "id"@,
                kind: Kind::Anything,
                required_in_object: false,
                required_in_array: true,
            },
            required_model("method"@, Kind::Text),
            FieldModel {
                name: "params"@,
                kind: Kind::Anything,
                required_in_object: false,
                required_in_array: false,
            },
        ],
    }
}

fn request_signature() -> (r: Signature)
    ensures
        r@ == request_model(),
{
    let mut fields: Vec<Field> = Vec::new();
    fields.push(
        Field {
            name: "jsonrpc",
            kind: Kind::Text,
            required_in_object: true,
            required_in_array: true,
        },
    );
    fields.push(
        Field {
            name: "id",
            kind: Kind::Anything,
            required_in_object: false,
            required_in_array: true,
        },
    );
    fields.push(
        Field {
            name: "method",
            kind: Kind::Text,
            required_in_object: true,
            required_in_array: true,
        },
    );
    fields.push(
        Field {
            name: "params",
            kind: Kind::Anything,
            required_in_object: false,
            required_in_array: false,
        },
    );
    let r = Signature { title: "JsonRpcRequest", fields };
    assert(r@.fields =~= request_model().fields);
    r
}

/// A value that is given, `null` counting as none.
pub open spec fn given_value(a: Option<JsonModel>) -> Option<JsonModel> {
    match a {
        Some(JsonModel::Null) => None,
        other => other,
    }
}

/// A text that is given, or an empty one.
pub open spec fn given_text(a: Option<JsonModel>) -> Seq<char> {
    match a {
        Some(JsonModel::Text(s)) => s,
        _ => ""@,
    }
}

/// What an optional value holds.
pub open spec fn optional_value(o: Option<Json>) -> Option<JsonModel> {
    match o {
        Some(j) => Some(j@),
        None => None,
    }
}

/// What a request says.
pub open spec fn is_request(r: JsonRpcRequest, j: JsonModel) -> bool {
    let s = request_model();
    &&& r.jsonrpc@ == given_text(argument(s, j, 0))
    &&& optional_value(r.id) == given_value(argument(s, j, 1))
    &&& r.method@ == given_text(argument(s, j, 2))
    &&& optional_value(r.params) == given_value(argument(s, j, 3))
}

fn take_text(s: &Signature, j: &Json, i: usize) -> (r: String)
    requires
        i < s.fields@.len(),
    ensures
        r@ == given_text(argument(s@, j@, i as int)),
{
    match find_argument(s, j, i) {
        Some(Json::Text(t)) => t.clone(),
        _ => "".to_owned(),
    }
}

fn take_value(s: &Signature, j: &Json, i: usize) -> (r: Option<Json>)
    requires
        i < s.fields@.len(),
    ensures
        optional_value(r) == given_value(argument(s@, j@, i as int)),
{
    match find_argument(s, j, i) {
        Some(v) => match v {
            Json::Null => None,
            _ => Some(v.clone()),
        },
        None => None,
    }
}

/// Reads a request out of a value.
pub fn read_request(j: &Json) -> (r: Result<JsonRpcRequest, String>)
    ensures
        refuses(r, complaint(request_model(), j@)),
        complaint(request_model(), j@) is None ==> (r matches Ok(q) && is_request(q, j@)),
{
    let s = request_signature();
    match check_arguments(&s, j) {
        Err(m) => Err(m),
        Ok(_) => Ok(
            JsonRpcRequest {
                jsonrpc: take_text(&s, j, 0),
                id: take_value(&s, j, 1),
                method: take_text(&s, j, 2),
                params: take_value(&s, j, 3),
            },
        ),
    }
}

fn handle_initialize(id: Json) -> (r: JsonRpcResponse)
    ensures
        is_value_response(r, id@, server_model()),
{
    result_response(id, RpcResult::Value(server_description()))
}

fn handle_ping(id: Json) -> (r: JsonRpcResponse)
    ensures
        is_value_response(r, id@, JsonModel::object()),
{
    result_response(id, RpcResult::Value(Json::object()))
}

fn handle_tools_list(id: Json) -> (r: JsonRpcResponse)
    ensures
        is_value_response(r, id@, tools_model()),
{
    result_response(id, RpcResult::Value(tool_list()))
}

/// What the tool of a name gives back for its arguments.
pub open spec fn is_tool_call<F: Forecaster + ?Sized>(
    r: CallToolResult,
    name: Seq<char>,
    arguments: JsonModel,
    forecaster: &F,
) -> bool {
    if name == "forecast_univariate"@ {
        is_univariate_call(r, arguments, forecaster)
    } else if name == "forecast_multivariate"@ {
        is_multivariate_call(r, arguments, forecaster)
    } else if name == "evaluate_trend"@ {
        is_trend_call(r, arguments)
    } else {
        is_failure(r, "Unknown tool: "@ + name)
    }
}

/// The name of the tool to call.
pub open spec fn tool_name(params: JsonModel) -> Option<Seq<char>> {
    match params.get("name"@) {
        Some(JsonModel::Text(s)) => Some(s),
        _ => None,
    }
}

/// The arguments of the tool; none at all where they are left out.
pub open spec fn tool_arguments(params: JsonModel) -> JsonModel {
    match params.get("arguments"@) {
        Some(a) => a,
        None => JsonModel::object(),
    }
}

/// The answer to a tool call.
pub open spec fn is_call_response<F: Forecaster + ?Sized>(
    r: JsonRpcResponse,
    id: JsonModel,
    params: Option<JsonModel>,
    forecaster: &F,
) -> bool {
    match params {
        None => is_error_response(r, id, -32602, "Missing params in tools/call"@),
        Some(p) => match tool_name(p) {
            None => is_error_response(r, id, -32602, "Missing 'name' in tools/call params"@),
            Some(name) => is_result_response(r, id) && (r.result matches Some(RpcResult::Tool(t))
                && is_tool_call(t, name, tool_arguments(p), forecaster)),
        },
    }
}

fn call_tool<F: Forecaster + ?Sized>(name: &str, arguments: &Json, forecaster: &F) -> (r:
    CallToolResult)
    ensures
        is_tool_call(r, name@, arguments@, forecaster),
{
    if same_text(name, "forecast_univariate") {
        call_forecast_univariate(arguments, forecaster)
    } else if same_text(name, "forecast_multivariate") {
        call_forecast_multivariate(arguments, forecaster)
    } else if same_text(name, "evaluate_trend") {
        call_evaluate_trend(arguments)
    } else {
        let mut t = "Unknown tool: ".to_owned();
        t.append(name);
        failure(t)
    }
}

fn handle_tools_call<F: Forecaster + ?Sized>(id: Json, params: Option<Json>, forecaster: &F) -> (r:
    JsonRpcResponse)
    ensures
        is_call_response(r, id@, optional_value(params), forecaster),
{
    let params = match params {
        Some(p) => p,
        None => {
            return error_response(id, -32602, "Missing params in tools/call".to_owned());
        },
    };
    let name = match params.get("name") {
        Some(Json::Text(n)) => n,
        _ => {
            return error_response(id, -32602, "Missing 'name' in tools/call params".to_owned());
        },
    };
    let result = match params.get("arguments") {
        Some(a) => call_tool(name, a, forecaster),
        None => call_tool(name, &Json::object(), forecaster),
    };
    result_response(id, RpcResult::Tool(result))
}

/// The answer to a request that has an `id`.
pub open spec fn is_response<F: Forecaster + ?Sized>(
    r: JsonRpcResponse,
    id: JsonModel,
    method: Seq<char>,
    params: Option<JsonModel>,
    forecaster: &F,
) -> bool {
    if method == "initialize"@ {
        is_value_response(r, id, server_model())
    } else if method == "ping"@ {
        is_value_response(r, id, JsonModel::object())
    } else if method == "tools/list"@ {
        is_value_response(r, id, tools_model())
    } else if method == "tools/call"@ {
        is_call_response(r, id, params, forecaster)
    } else {
        is_error_response(r, id, -32601, "Method not found: "@ + method)
    }
}

/// What is answered to a message: `message` is what it reads as, if it is JSON at all.
pub open spec fn is_answer<F: Forecaster + ?Sized>(
    r: Option<JsonRpcResponse>,
    message: Option<JsonModel>,
    forecaster: &F,
) -> bool {
    let s = request_model();
    match message {
        None => r matches Some(a) && is_error_response(a, JsonModel::Null, -32700, "Parse error"@),
        Some(j) => match complaint(s, j) {
            Some(c) => r matches Some(a) && is_error_response(
                a,
                JsonModel::Null,
                -32600,
                "Invalid Request: "@ + c,
            ),
            None => match given_value(argument(s, j, 1)) {
                None => r is None,
                Some(id) => r matches Some(a) && is_response(
                    a,
                    id,
                    given_text(argument(s, j, 2)),
                    given_value(argument(s, j, 3)),
                    forecaster,
                ),
            },
        },
    }
}

/// Answers what a message was read as.
pub fn answer<F: Forecaster + ?Sized>(message: Option<Json>, forecaster: &F) -> (r: Option<
    JsonRpcResponse,
>)
    ensures
        is_answer(r, optional_value(message), forecaster),
{
    let value = match message {
        Some(v) => v,
        None => {
            return Some(error_response(Json::Null, -32700, "Parse error".to_owned()));
        },
    };
    let req = match read_request(&value) {
        Ok(q) => q,
        Err(e) => {
            let mut t = "Invalid Request: ".to_owned();
            t.append(&e);
            return Some(error_response(Json::Null, -32600, t));
        },
    };
    let id = match req.id {
        Some(id) => id,
        None => {
            return None;
        },
    };
    let resp = if same_text(&req.method, "initialize") {
        handle_initialize(id)
    } else if same_text(&req.method, "ping") {
        handle_ping(id)
    } else if same_text(&req.method, "tools/list") {
        handle_tools_list(id)
    } else if same_text(&req.method, "tools/call") {
        handle_tools_call(id, req.params, forecaster)
    } else {
        let mut t = "Method not found: ".to_owned();
        t.append(&req.method);
        error_response(id, -32601, t)
    };
    Some(resp)
}

/// Answers one message. A notification, which has no `id`, is not answered.
pub fn handle_message<F: Forecaster + ?Sized>(msg_str: &str, forecaster: &F) -> (r: Option<
    JsonRpcResponse,
>)
    ensures
        is_answer(r, reading(msg_str@), forecaster),
        reading(msg_str@) matches Some(j) ==> has_distinct_names(j),
{
    let message = parse_json(msg_str);
    assert(optional_value(message) == reading(msg_str@));
    answer(message, forecaster)
}

/// What answers a line of input.
pub open spec fn is_line_answer<F: Forecaster + ?Sized>(
    r: Option<JsonRpcResponse>,
    line: Seq<char>,
    forecaster: &F,
) -> bool {
    if trimmed(line).len() == 0 {
        r is None
    } else {
        is_answer(r, reading(trimmed(line)), forecaster)
    }
}

/// Answers one line of input. A blank line is not answered.
pub fn handle_line<F: Forecaster + ?Sized>(line: &str, forecaster: &F) -> (r: Option<
    JsonRpcResponse,
>)
    ensures
        is_line_answer(r, line@, forecaster),
{
    let message = trim(line);
    if is_empty_text(&message) {
        return None;
    }
    handle_message(&message, forecaster)
}

/// Every answer names the protocol and has a result or an error, never both.
pub proof fn law_result_or_error<F: Forecaster + ?Sized>(
    r: Option<JsonRpcResponse>,
    message: Option<JsonModel>,
    forecaster: &F,
)
    requires
        is_answer(r, message, forecaster),
    ensures
        r matches Some(a) ==> a.jsonrpc@ == "2.0"@ && (a.result is Some <==> a.error is None),
{
}

/// The answer to a well-formed request carries the request's `id`; one to anything else carries
/// none.
pub proof fn law_answer_carries_id<F: Forecaster + ?Sized>(
    r: Option<JsonRpcResponse>,
    message: Option<JsonModel>,
    forecaster: &F,
)
    requires
        is_answer(r, message, forecaster),
    ensures
        r matches Some(a) ==> a.id@ == if message is Some && complaint(
            request_model(),
            message->Some_0,
        ) is None {
            given_value(argument(request_model(), message->Some_0, 1))->Some_0
        } else {
            JsonModel::Null
        },
{
}

proof fn lemma_member_at(members: Seq<(Seq<char>, JsonModel)>, k: int)
    requires
        are_distinct(members),
        0 <= k < members.len(),
    ensures
        member(members, members[k].0) == Some(members[k].1),
    decreases members.len(),
{
    let t = members.drop_last();
    let n = members.len() - 1;
    assert(are_distinct(t)) by {
        assert forall|a: int, b: int| 0 <= a < b < t.len() implies (#[trigger] t[a]).0 != (
        #[trigger] t[b]).0 by {
            assert(members[a].0 != members[b].0);
        }
    }
    if k < n {
        lemma_member_at(t, k);
        assert(t[k] == members[k]);
    } else {
        lemma_no_member(t, members[n].0);
    }
}

proof fn lemma_no_member(members: Seq<(Seq<char>, JsonModel)>, name: Seq<char>)
    requires
        forall|i: int| 0 <= i < members.len() ==> (#[trigger] members[i]).0 != name,
    ensures
        member(members, name) is None,
    decreases members.len(),
{
    if members.len() > 0 {
        let t = members.drop_last();
        assert forall|i: int| 0 <= i < t.len() implies (#[trigger] t[i]).0 != name by {
            assert(members[i].0 != name);
        }
        lemma_no_member(t, name);
        assert(members[members.len() - 1].0 != name);
    }
}

proof fn lemma_position(fields: Seq<FieldModel>, name: Seq<char>)
    ensures
        position(fields, name) matches Some(i) ==> 0 <= i < fields.len() && fields[i].name == name,
    decreases fields.len(),
{
    if fields.len() > 0 {
        lemma_position(fields.drop_last(), name);
    }
}

proof fn lemma_no_members_fault(members: Seq<(Seq<char>, JsonModel)>, n: int)
    requires
        are_distinct(members),
        forall|i: int|
            0 <= i < members.len() && ((#[trigger] members[i]).0 == "jsonrpc"@ || members[i].0
                == "method"@) ==> members[i].1 is Text,
        n <= members.len(),
    ensures
        members_fault(request_model(), members, n) is None,
    decreases n,
{
    if n > 0 {
        lemma_no_members_fault(members, n - 1);
        let name = members[n - 1].0;
        lemma_position(request_model().fields, name);
        assert forall|i: int| 0 <= i < n - 1 implies (#[trigger] members.take(n - 1)[i]).0
            != name by {
            assert(members[i].0 != members[n - 1].0);
        }
        lemma_no_member(members.take(n - 1), name);
    }
}

/// A request with a protocol, a method and an `id` that is not `null` is answered, under that `id`.
/// No member name comes twice in what a text reads as.
pub proof fn law_request_answered_under_its_id<F: Forecaster + ?Sized>(
    r: Option<JsonRpcResponse>,
    members: Seq<(Seq<char>, JsonModel)>,
    protocol: int,
    method: int,
    id: int,
    forecaster: &F,
)
    requires
        is_answer(r, Some(JsonModel::Object(members)), forecaster),
        are_distinct(members),
        0 <= protocol < members.len() && 0 <= method < members.len() && 0 <= id < members.len(),
        members[protocol].0 == "jsonrpc"@ && members[protocol].1 is Text,
        members[method].0 == "method"@ && members[method].1 is Text,
        members[id].0 == "id"@ && members[id].1 != JsonModel::Null,
    ensures
        r matches Some(a) && a.id@ == members[id].1,
{
    assert forall|i: int|
        0 <= i < members.len() && ((#[trigger] members[i]).0 == "jsonrpc"@ || members[i].0
            == "method"@) implies members[i].1 is Text by {
        assert(members[protocol].0 == "jsonrpc"@ && members[method].0 == "method"@);
        assert(i == protocol || i == method);
    }
    lemma_no_members_fault(members, members.len() as int);
    lemma_member_at(members, protocol);
    lemma_member_at(members, method);
    lemma_member_at(members, id);
    let s = request_model();
    assert(absence(s, members, 4) is None) by {
        reveal_with_fuel(absence, 5);
    }
    assert(complaint(s, JsonModel::Object(members)) is None);
    law_answer_carries_id(r, Some(JsonModel::Object(members)), forecaster);
}

/// A message is left unanswered exactly where it is a well-formed request without an `id`.
pub proof fn law_only_notifications_unanswered<F: Forecaster + ?Sized>(
    r: Option<JsonRpcResponse>,
    message: Option<JsonModel>,
    forecaster: &F,
)
    requires
        is_answer(r, message, forecaster),
    ensures
        r is None <==> message is Some && complaint(request_model(), message->Some_0) is None
            && given_value(argument(request_model(), message->Some_0, 1)) is None,
{
}

/// A line that is owed an answer: it is not blank, and it is no well-formed request without an `id`.
pub open spec fn is_owed(line: Seq<char>) -> bool {
    let message = reading(trimmed(line));
    &&& trimmed(line).len() > 0
    &&& !(message is Some && complaint(request_model(), message->Some_0) is None && given_value(
        argument(request_model(), message->Some_0, 1),
    ) is None)
}

/// The lines that are owed an answer, in order.
pub open spec fn owed(lines: Seq<Seq<char>>) -> Seq<Seq<char>>
    decreases lines.len(),
{
    if lines.len() == 0 {
        seq![]
    } else if is_owed(lines.last()) {
        owed(lines.drop_last()).push(lines.last())
    } else {
        owed(lines.drop_last())
    }
}

/// The answers that are sent, in order.
pub open spec fn sent(replies: Seq<Option<JsonRpcResponse>>) -> Seq<JsonRpcResponse>
    decreases replies.len(),
{
    if replies.len() == 0 {
        seq![]
    } else {
        match replies.last() {
            Some(a) => sent(replies.drop_last()).push(a),
            None => sent(replies.drop_last()),
        }
    }
}

/// Lines that are handled one after another are answered in order: there is one answer for each
/// line that is owed one, and the answers stand in the order of those lines.
pub proof fn law_answers_in_order<F: Forecaster + ?Sized>(
    lines: Seq<Seq<char>>,
    replies: Seq<Option<JsonRpcResponse>>,
    forecaster: &F,
)
    requires
        replies.len() == lines.len(),
        forall|i: int|
            0 <= i < lines.len() ==> is_line_answer(#[trigger] replies[i], lines[i], forecaster),
    ensures
        sent(replies).len() == owed(lines).len(),
        forall|k: int|
            0 <= k < owed(lines).len() ==> is_line_answer(
                Some(#[trigger] sent(replies)[k]),
                owed(lines)[k],
                forecaster,
            ),
    decreases lines.len(),
{
    if lines.len() > 0 {
        let l = lines.drop_last();
        let r = replies.drop_last();
        assert forall|i: int| 0 <= i < l.len() implies is_line_answer(
            #[trigger] r[i],
            l[i],
            forecaster,
        ) by {
            assert(r[i] == replies[i] && l[i] == lines[i]);
        }
        law_answers_in_order(l, r, forecaster);
        let n = lines.len() - 1;
        assert(is_line_answer(replies[n], lines[n], forecaster));
        if trimmed(lines[n]).len() > 0 {
            law_only_notifications_unanswered(replies[n], reading(trimmed(lines[n])), forecaster);
        }
        assert forall|k: int| 0 <= k < owed(lines).len() implies is_line_answer(
            Some(#[trigger] sent(replies)[k]),
            owed(lines)[k],
            forecaster,
        ) by {
            if k < owed(l).len() {
                assert(sent(replies)[k] == sent(r)[k]);
                assert(owed(lines)[k] == owed(l)[k]);
            }
        }
    }
}

/// The names of the members of an object.
pub open spec fn has_member(j: JsonModel, name: Seq<char>) -> bool {
    j matches JsonModel::Object(members) && exists|k: int|
        0 <= k < members.len() && (#[trigger] members[k]).0 == name
}

/// A list holds a text.
pub open spec fn lists(j: JsonModel, name: Seq<char>) -> bool {
    j matches JsonModel::Array(items) && exists|k: int|
        0 <= k < items.len() && #[trigger] items[k] == JsonModel::Text(name)
}

/// An argument of a signature.
pub open spec fn takes(s: SignatureModel, name: Seq<char>) -> bool {
    exists|k: int| 0 <= k < s.fields.len() && (#[trigger] s.fields[k]).name == name
}

/// An argument that a signature must have.
pub open spec fn demands(s: SignatureModel, name: Seq<char>) -> bool {
    exists|k: int|
        0 <= k < s.fields.len() && (#[trigger] s.fields[k]).name == name
            && s.fields[k].required_in_object
}

/// A tool is listed as a call of it is read.
pub open spec fn is_listed_as_read(
    tool: JsonModel,
    name: Seq<char>,
    properties: JsonModel,
    required: JsonModel,
    description: Seq<char>,
    s: SignatureModel,
) -> bool {
    &&& tool == tool_model(name, description, properties, required)
    &&& forall|a: Seq<char>| #[trigger] has_member(properties, a) <==> takes(s, a)
    &&& forall|a: Seq<char>| #[trigger] lists(required, a) <==> demands(s, a)
}

/// What is listed of a tool's arguments is what a call of it takes: the same names, and the same of
/// them required.
pub proof fn law_arguments_listed_as_read()
    ensures
        exists|p: JsonModel, r: JsonModel, d: Seq<char>| #[trigger]
            is_listed_as_read(
                univariate_tool_model(),
                "forecast_univariate"@,
                p,
                r,
                d,
                univariate_model(),
            ),
        exists|p: JsonModel, r: JsonModel, d: Seq<char>| #[trigger]
            is_listed_as_read(
                multivariate_tool_model(),
                "forecast_multivariate"@,
                p,
                r,
                d,
                multivariate_model(),
            ),
        exists|p: JsonModel, r: JsonModel, d: Seq<char>| #[trigger]
            is_listed_as_read(trend_tool_model(), "evaluate_trend"@, p, r, d, trend_model()),
{
    lemma_univariate_listed();
    lemma_multivariate_listed();
    lemma_trend_listed();
}

proof fn lemma_univariate_listed()
    ensures
        exists|p: JsonModel, r: JsonModel, d: Seq<char>| #[trigger]
            is_listed_as_read(
                univariate_tool_model(),
                "forecast_univariate"@,
                p,
                r,
                d,
                univariate_model(),
            ),
{
    let tool = univariate_tool_model();
    let p = univariate_properties();
    let r = JsonModel::list().and(JsonModel::Text("context"@)).and(JsonModel::Text("horizon"@));
    let s = univariate_model();
    let m = p->Object_0;
    assert(m.len() == 3);
    assert(m[0].0 == s.fields[0].name && m[1].0 == s.fields[1].name && m[2].0 == s.fields[2].name);
    assert forall|a: Seq<char>| #[trigger] has_member(p, a) <==> takes(s, a) by {
        if has_member(p, a) {
            let k = choose|k: int| 0 <= k < m.len() && (#[trigger] m[k]).0 == a;
            assert(s.fields[k].name == a);
        }
        if takes(s, a) {
            let k = choose|k: int| 0 <= k < s.fields.len() && (#[trigger] s.fields[k]).name == a;
            assert(m[k].0 == a);
        }
    }
    let items = r->Array_0;
    assert(items.len() == 2);
    assert(items[0] == JsonModel::Text(s.fields[0].name));
    assert(items[1] == JsonModel::Text(s.fields[1].name));
    assert forall|a: Seq<char>| #[trigger] lists(r, a) <==> demands(s, a) by {
        if lists(r, a) {
            let k = choose|k: int| 0 <= k < items.len() && #[trigger] items[k] == JsonModel::Text(a);
            assert(s.fields[k].name == a && s.fields[k].required_in_object);
        }
        if demands(s, a) {
            let k = choose|k: int|
                0 <= k < s.fields.len() && (#[trigger] s.fields[k]).name == a
                    && s.fields[k].required_in_object;
            assert(items[k] == JsonModel::Text(a));
        }
    }
    assert(is_listed_as_read(
        tool,
        "forecast_univariate"@,
        p,
        r,
        "Predict future values for a single univariate time series."@,
        s,
    ));
}

proof fn lemma_multivariate_listed()
    ensures
        exists|p: JsonModel, r: JsonModel, d: Seq<char>| #[trigger]
            is_listed_as_read(
                multivariate_tool_model(),
                "forecast_multivariate"@,
                p,
                r,
                d,
                multivariate_model(),
            ),
{
    let p = multivariate_properties();
    let r = JsonModel::list().and(JsonModel::Text("contexts"@)).and(JsonModel::Text("horizon"@));
    let s = multivariate_model();
    let m = p->Object_0;
    assert(m.len() == 5);
    assert(m[0].0 == s.fields[0].name && m[1].0 == s.fields[1].name);
    assert(m[2].0 == s.fields[3].name && m[3].0 == s.fields[2].name && m[4].0 == s.fields[4].name);
    assert forall|a: Seq<char>| #[trigger] has_member(p, a) <==> takes(s, a) by {
        if has_member(p, a) {
            let k = choose|k: int| 0 <= k < m.len() && (#[trigger] m[k]).0 == a;
            let j = if k == 2 {
                3
            } else if k == 3 {
                2
            } else {
                k
            };
            assert(s.fields[j].name == a);
        }
        if takes(s, a) {
            let k = choose|k: int| 0 <= k < s.fields.len() && (#[trigger] s.fields[k]).name == a;
            let j = if k == 2 {
                3
            } else if k == 3 {
                2
            } else {
                k
            };
            assert(m[j].0 == a);
        }
    }
    let items = r->Array_0;
    assert(items.len() == 2);
    assert(items[0] == JsonModel::Text(s.fields[0].name));
    assert(items[1] == JsonModel::Text(s.fields[1].name));
    assert forall|a: Seq<char>| #[trigger] lists(r, a) <==> demands(s, a) by {
        if lists(r, a) {
            let k = choose|k: int| 0 <= k < items.len() && #[trigger] items[k] == JsonModel::Text(a);
            assert(s.fields[k].name == a && s.fields[k].required_in_object);
        }
        if demands(s, a) {
            let k = choose|k: int|
                0 <= k < s.fields.len() && (#[trigger] s.fields[k]).name == a
                    && s.fields[k].required_in_object;
            assert(items[k] == JsonModel::Text(a));
        }
    }
    assert(is_listed_as_read(
        multivariate_tool_model(),
        "forecast_multivariate"@,
        p,
        r,
        "Predict future values for multivariate time series with optional covariates."@,
        s,
    ));
}

proof fn lemma_trend_listed()
    ensures
        exists|p: JsonModel, r: JsonModel, d: Seq<char>| #[trigger]
            is_listed_as_read(trend_tool_model(), "evaluate_trend"@, p, r, d, trend_model()),
{
    let p = trend_properties();
    let r = JsonModel::list().and(JsonModel::Text("series"@));
    let s = trend_model();
    let m = p->Object_0;
    assert(m.len() == 1);
    assert(m[0].0 == s.fields[0].name);
    let items = r->Array_0;
    assert(items.len() == 1);
    assert(items[0] == JsonModel::Text(s.fields[0].name));
    assert forall|a: Seq<char>| #[trigger] has_member(p, a) <==> takes(s, a) by {
        if has_member(p, a) {
            let k = choose|k: int| 0 <= k < m.len() && (#[trigger] m[k]).0 == a;
            assert(s.fields[k].name == a);
        }
        if takes(s, a) {
            let k = choose|k: int| 0 <= k < s.fields.len() && (#[trigger] s.fields[k]).name == a;
            assert(m[k].0 == a);
        }
    }
    assert forall|a: Seq<char>| #[trigger] lists(r, a) <==> demands(s, a) by {
        if lists(r, a) {
            let k = choose|k: int| 0 <= k < items.len() && #[trigger] items[k] == JsonModel::Text(a);
            assert(s.fields[k].name == a && s.fields[k].required_in_object);
        }
        if demands(s, a) {
            let k = choose|k: int|
                0 <= k < s.fields.len() && (#[trigger] s.fields[k]).name == a
                    && s.fields[k].required_in_object;
            assert(items[k] == JsonModel::Text(a));
        }
    }
    assert(is_listed_as_read(
        trend_tool_model(),
        "evaluate_trend"@,
        p,
        r,
        "Evaluate and describe the linear trend, slope, direction, and statistics of a time series."@,
        s,
    ));
}

/// What a request is answered: each method by its own name, an unknown one with the error that says so;
/// a tool call goes to the tool of its name with the arguments that it was given, or with none.
pub proof fn law_methods_and_tools<F: Forecaster + ?Sized>(
    r: JsonRpcResponse,
    id: JsonModel,
    method: Seq<char>,
    params: Seq<(Seq<char>, JsonModel)>,
    name: Seq<char>,
    arguments: Option<JsonModel>,
    forecaster: &F,
)
    requires
        is_response(r, id, method, Some(JsonModel::Object(params)), forecaster),
        are_distinct(params),
        has_value(params, "name"@, Some(JsonModel::Text(name))),
        has_value(params, "arguments"@, arguments),
    ensures
        r.id@ == id,
        r.jsonrpc@ == "2.0"@,
        method == "initialize"@ ==> r.error is None && (r.result matches Some(RpcResult::Value(v))
            && v@ == server_model()),
        method == "ping"@ ==> r.error is None && (r.result matches Some(RpcResult::Value(v)) && v@
            == JsonModel::Object(seq![])),
        method == "tools/list"@ ==> r.error is None && (r.result matches Some(RpcResult::Value(v))
            && v@ == tools_model()),
        method == "tools/call"@ ==> r.error is None && (r.result matches Some(RpcResult::Tool(t)) && {
            let given = match arguments {
                Some(a) => a,
                None => JsonModel::Object(seq![]),
            };
            &&& name == "forecast_univariate"@ ==> is_univariate_call(t, given, forecaster)
            &&& name == "forecast_multivariate"@ ==> is_multivariate_call(t, given, forecaster)
            &&& name == "evaluate_trend"@ ==> is_trend_call(t, given)
            &&& name != "forecast_univariate"@ && name != "forecast_multivariate"@ && name
                != "evaluate_trend"@ ==> t.is_error && t.content@.len() == 1
        }),
        method != "initialize"@ && method != "ping"@ && method != "tools/list"@ && method
            != "tools/call"@ ==> r.result is None && (r.error matches Some(e) && e.code == -32601
            && e.message@ == "Method not found: "@ + method),
{
    lemma_method_names();
    law_member_is_found(params, "name"@);
    law_member_is_found(params, "arguments"@);
    let p = JsonModel::Object(params);
    let k = choose|k: int|
        0 <= k < params.len() && #[trigger] params[k] == ("name"@, JsonModel::Text(name));
    assert(params[k].0 == "name"@);
    assert(p.get("name"@) == Some(JsonModel::Text(name)));
    if let Some(a) = arguments {
        let m = choose|m: int| 0 <= m < params.len() && #[trigger] params[m] == ("arguments"@, a);
        assert(params[m].0 == "arguments"@);
    }
    assert(p.get("arguments"@) == arguments);
    assert(JsonModel::object() == JsonModel::Object(seq![]));
}

proof fn lemma_method_names()
    ensures
        "initialize"@ != "ping"@,
        "initialize"@ != "tools/list"@,
        "initialize"@ != "tools/call"@,
        "ping"@ != "tools/list"@,
        "ping"@ != "tools/call"@,
        "tools/list"@ != "tools/call"@,
        "forecast_univariate"@ != "forecast_multivariate"@,
        "forecast_univariate"@ != "evaluate_trend"@,
        "forecast_multivariate"@ != "evaluate_trend"@,
{
    reveal_strlit("initialize");
    reveal_strlit("ping");
    reveal_strlit("tools/list");
    reveal_strlit("tools/call");
    reveal_strlit("forecast_univariate");
    reveal_strlit("forecast_multivariate");
    reveal_strlit("evaluate_trend");
    assert("initialize"@[0] == 'i' && "ping"@[0] == 'p' && "tools/list"@[0] == 't');
    assert("tools/call"@[0] == 't' && "tools/list"@[6] == 'l' && "tools/call"@[6] == 'c');
    assert("forecast_univariate"@.len() == 19 && "forecast_multivariate"@.len() == 21);
    assert("evaluate_trend"@.len() == 14);
}

/// What cannot be read is answered as such: a text that is not JSON with a parse error, anything that is
/// no request with an invalid request, both under no `id`; a tool call without parameters or without a
/// name with invalid parameters.
pub proof fn law_what_cannot_be_read<F: Forecaster + ?Sized>(
    r: Option<JsonRpcResponse>,
    message: Option<JsonModel>,
    forecaster: &F,
)
    requires
        is_answer(r, message, forecaster),
    ensures
        message is None ==> (r matches Some(a) && a.id@ == JsonModel::Null && a.result is None && (
        a.error matches Some(e) && e.code == -32700 && e.message@ == "Parse error"@)),
        message is Some && complaint(request_model(), message->Some_0) is Some ==> (r matches Some(a)
            && a.id@ == JsonModel::Null && a.result is None && (a.error matches Some(e) && e.code
            == -32600 && e.message@ == "Invalid Request: "@ + complaint(
            request_model(),
            message->Some_0,
        )->Some_0)),
        message matches Some(JsonModel::Null) ==> (r matches Some(a) && a.error is Some),
        message matches Some(JsonModel::Text(_)) ==> (r matches Some(a) && a.error is Some),
{
}

/// A tool call without parameters, or whose parameters have no name that is a text, is answered with
/// invalid parameters under its `id`.
pub proof fn law_calls_without_a_name<F: Forecaster + ?Sized>(
    r: JsonRpcResponse,
    id: JsonModel,
    params: Option<JsonModel>,
    forecaster: &F,
)
    requires
        is_response(r, id, "tools/call"@, params, forecaster),
        params matches Some(p) ==> !(p.get("name"@) matches Some(JsonModel::Text(_))),
    ensures
        r.id@ == id,
        r.result is None,
        r.error matches Some(e) && e.code == -32602,
        params is None ==> r.error->Some_0.message@ == "Missing params in tools/call"@,
        params is Some ==> r.error->Some_0.message@ == "Missing 'name' in tools/call params"@,
{
    lemma_method_names();
}

/// What a request says is what its members say, each under its own name: the protocol, the method and,
/// where they are given and not `null`, the `id` and the parameters.
pub proof fn law_request_says_its_members(
    q: JsonRpcRequest,
    members: Seq<(Seq<char>, JsonModel)>,
    protocol: Seq<char>,
    method: Seq<char>,
    id: Option<JsonModel>,
    params: Option<JsonModel>,
)
    requires
        is_request(q, JsonModel::Object(members)),
        are_distinct(members),
        has_value(members, "jsonrpc"@, Some(JsonModel::Text(protocol))),
        has_value(members, "method"@, Some(JsonModel::Text(method))),
        has_value(members, "id"@, id),
        has_value(members, "params"@, params),
    ensures
        q.jsonrpc@ == protocol,
        q.method@ == method,
        q.id is None <==> id is None || id == Some(JsonModel::Null),
        q.id is Some ==> Some(q.id->Some_0@) == id,
        q.params is None <==> params is None || params == Some(JsonModel::Null),
        q.params is Some ==> Some(q.params->Some_0@) == params,
{
    let s = request_model();
    lemma_value_found(members, "jsonrpc"@, Some(JsonModel::Text(protocol)));
    lemma_value_found(members, "method"@, Some(JsonModel::Text(method)));
    lemma_value_found(members, "id"@, id);
    lemma_value_found(members, "params"@, params);
    assert(s.fields[0].name == "jsonrpc"@ && s.fields[1].name == "id"@);
    assert(s.fields[2].name == "method"@ && s.fields[3].name == "params"@);
}

proof fn lemma_value_found(
    members: Seq<(Seq<char>, JsonModel)>,
    name: Seq<char>,
    value: Option<JsonModel>,
)
    requires
        are_distinct(members),
        has_value(members, name, value),
    ensures
        member(members, name) == value,
{
    law_member_is_found(members, name);
    if let Some(v) = value {
        let k = choose|k: int| 0 <= k < members.len() && #[trigger] members[k] == (name, v);
        assert(members[k].0 == name);
    }
}

} // verus!
