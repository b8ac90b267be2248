//! What the server says of itself and of its tools.

use vstd::prelude::*;
use vstd::string::*;

use crate::json::{Json, JsonModel};

verus! {

/// The version of the protocol, what the server can do, and its name.
pub open spec fn server_model() -> JsonModel {
    JsonModel::object().with(
        "capabilities"@,
        JsonModel::object().with("tools"@, JsonModel::object()),
    ).with("protocolVersion"@, JsonModel::Text("2024-11-05"@)).with(
        "serverInfo"@,
        JsonModel::object().with("name"@, JsonModel::Text("timesfm-mcp"@)).with(
            "version"@,
            JsonModel::Text("0.1.0"@),
        ),
    )
}

/// The server's answer to a handshake.
pub fn server_description() -> (r: Json)
    ensures
        r@ == server_model(),
{
    let tools = Json::object().with("tools", Json::object());
    let info = Json::object().with("name", Json::text("timesfm-mcp")).with(
        "version",
        Json::text("0.1.0"),
    );
    Json::object().with("capabilities", tools).with(
        "protocolVersion",
        Json::text("2024-11-05"),
    ).with("serverInfo", info)
}

/// A value of a type, with a description.
pub open spec fn plain_model(kind: Seq<char>, description: Seq<char>) -> JsonModel {
    JsonModel::object().with("description"@, JsonModel::Text(description)).with(
        "type"@,
        JsonModel::Text(kind),
    )
}

fn plain(kind: &str, description: &str) -> (r: Json)
    ensures
        r@ == plain_model(kind@, description@),
{
    Json::object().with("description", Json::text(description)).with("type", Json::text(kind))
}

/// A switch that is on unless it is turned off.
pub open spec fn switch_model(description: Seq<char>) -> JsonModel {
    JsonModel::object().with("default"@, JsonModel::Bool(true)).with(
        "description"@,
        JsonModel::Text(description),
    ).with("type"@, JsonModel::Text("boolean"@))
}

fn switch(description: &str) -> (r: Json)
    ensures
        r@ == switch_model(description@),
{
    Json::object().with("default", Json::Bool(true)).with(
        "description",
        Json::text(description),
    ).with("type", Json::text("boolean"))
}

pub open spec fn number_model() -> JsonModel {
    JsonModel::object().with("type"@, JsonModel::Text("number"@))
}

fn number() -> (r: Json)
    ensures
        r@ == number_model(),
{
    Json::object().with("type", Json::text("number"))
}

/// A list of values, with a description.
pub open spec fn list_model(items: JsonModel, description: Seq<char>) -> JsonModel {
    JsonModel::object().with("description"@, JsonModel::Text(description)).with("items"@, items).with(
        "type"@,
        JsonModel::Text("array"@),
    )
}

fn list(items: Json, description: &str) -> (r: Json)
    ensures
        r@ == list_model(items@, description@),
{
    Json::object().with("description", Json::text(description)).with("items", items).with(
        "type",
        Json::text("array"),
    )
}

/// A list of lists of numbers, with a description.
pub open spec fn table_model(description: Seq<char>) -> JsonModel {
    list_model(
        JsonModel::object().with("items"@, number_model()).with(
            "type"@,
            JsonModel::Text("array"@),
        ),
        description,
    )
}

fn table(description: &str) -> (r: Json)
    ensures
        r@ == table_model(description@),
{
    list(
        Json::object().with("items", number()).with("type", Json::text("array")),
        description,
    )
}

/// A tool: its name, what it does, and the arguments that it takes.
pub open spec fn tool_model(
    name: Seq<char>,
    description: Seq<char>,
    properties: JsonModel,
    required: JsonModel,
) -> JsonModel {
    JsonModel::object().with("description"@, JsonModel::Text(description)).with(
        "inputSchema"@,
        JsonModel::object().with("properties"@, properties).with("required"@, required).with(
            "type"@,
            JsonModel::Text("object"@),
        ),
    ).with("name"@, JsonModel::Text(name))
}

fn tool(name: &str, description: &str, properties: Json, required: Json) -> (r: Json)
    ensures
        r@ == tool_model(name@, description@, properties@, required@),
{
    Json::object().with("description", Json::text(description)).with(
        "inputSchema",
        Json::object().with("properties", properties).with("required", required).with(
            "type",
            Json::text("object"),
        ),
    ).with("name", Json::text(name))
}

/// What the arguments of `forecast_univariate` are.
pub open spec fn univariate_properties() -> JsonModel {
    JsonModel::object().with(
        "context"@,
        list_model(number_model(), "Historical context values for univariate time series"@),
    ).with(
        "horizon"@,
        plain_model("integer"@, "Forecast horizon (number of steps to predict)"@),
    ).with("return_quantiles"@, switch_model("Whether to return prediction quantiles"@))
}

pub open spec fn univariate_tool_model() -> JsonModel {
    tool_model(
        "forecast_univariate"@,
        "Predict future values for a single univariate time series."@,
        univariate_properties(),
        JsonModel::list().and(JsonModel::Text("context"@)).and(JsonModel::Text("horizon"@)),
    )
}

fn univariate_tool() -> (r: Json)
    ensures
        r@ == univariate_tool_model(),
{
    tool(
        "forecast_univariate",
        "Predict future values for a single univariate time series.",
        Json::object().with(
            "context",
            list(number(), "Historical context values for univariate time series"),
        ).with("horizon", plain("integer", "Forecast horizon (number of steps to predict)")).with(
            "return_quantiles",
            switch("Whether to return prediction quantiles"),
        ),
        Json::list().and(Json::text("context")).and(Json::text("horizon")),
    )
}

/// What the arguments of `forecast_multivariate` are.
pub open spec fn multivariate_properties() -> JsonModel {
    JsonModel::object().with(
        "contexts"@,
        table_model(
            "Context values for each variate (array of float arrays, all must have equal length)"@,
        ),
    ).with(
        "horizon"@,
        plain_model("integer"@, "Forecast horizon (number of steps to predict)"@),
    ).with(
        "past_future_covariates"@,
        table_model(
            "Optional past-and-future covariate series (length equal to context length + horizon)"@,
        ),
    ).with(
        "past_only_covariates"@,
        table_model("Optional past-only covariate series (matching context length)"@),
    ).with("return_quantiles"@, switch_model("Whether to return prediction quantiles"@))
}

pub open spec fn multivariate_tool_model() -> JsonModel {
    tool_model(
        "forecast_multivariate"@,
        "Predict future values for multivariate time series with optional covariates."@,
        multivariate_properties(),
        JsonModel::list().and(JsonModel::Text("contexts"@)).and(JsonModel::Text("horizon"@)),
    )
}

fn multivariate_tool() -> (r: Json)
    ensures
        r@ == multivariate_tool_model(),
{
    tool(
        "forecast_multivariate",
        "Predict future values for multivariate time series with optional covariates.",
        Json::object().with(
            "contexts",
            table(
                "Context values for each variate (array of float arrays, all must have equal length)",
            ),
        ).with("horizon", plain("integer", "Forecast horizon (number of steps to predict)")).with(
            "past_future_covariates",
            table(
                "Optional past-and-future covariate series (length equal to context length + horizon)",
            ),
        ).with(
            "past_only_covariates",
            table("Optional past-only covariate series (matching context length)"),
        ).with("return_quantiles", switch("Whether to return prediction quantiles")),
        Json::list().and(Json::text("contexts")).and(Json::text("horizon")),
    )
}

/// What the arguments of `evaluate_trend` are.
pub open spec fn trend_properties() -> JsonModel {
    JsonModel::object().with(
        "series"@,
        list_model(number_model(), "Time series data to evaluate trend for"@),
    )
}

pub open spec fn trend_tool_model() -> JsonModel {
    tool_model(
        "evaluate_trend"@,
        "Evaluate and describe the linear trend, slope, direction, and statistics of a time series."@,
        trend_properties(),
        JsonModel::list().and(JsonModel::Text("series"@)),
    )
}

fn trend_tool() -> (r: Json)
    ensures
        r@ == trend_tool_model(),
{
    tool(
        "evaluate_trend",
        "Evaluate and describe the linear trend, slope, direction, and statistics of a time series.",
        Json::object().with(
            "series",
            list(number(), "Time series data to evaluate trend for"),
        ),
        Json::list().and(Json::text("series")),
    )
}

/// The three tools.
pub open spec fn tools_model() -> JsonModel {
    JsonModel::object().with(
        "tools"@,
        JsonModel::list().and(univariate_tool_model()).and(multivariate_tool_model()).and(
            trend_tool_model(),
        ),
    )
}

/// The list of the tools.
pub fn tool_list() -> (r: Json)
    ensures
        r@ == tools_model(),
{
    Json::object().with(
        "tools",
        Json::list().and(univariate_tool()).and(multivariate_tool()).and(trend_tool()),
    )
}

proof fn lemma_object_of(a: (Seq<char>, JsonModel), b: (Seq<char>, JsonModel), c: (Seq<char>, JsonModel))
    ensures
        JsonModel::object() == JsonModel::Object(seq![]),
        JsonModel::object().with(a.0, a.1) == JsonModel::Object(seq![a]),
        JsonModel::object().with(a.0, a.1).with(b.0, b.1) == JsonModel::Object(seq![a, b]),
        JsonModel::object().with(a.0, a.1).with(b.0, b.1).with(c.0, c.1) == JsonModel::Object(
            seq![a, b, c],
        ),
{
    let x = JsonModel::object().with(a.0, a.1);
    assert(x->Object_0 =~= seq![a]);
    let y = x.with(b.0, b.1);
    assert(y->Object_0 =~= seq![a, b]);
    assert(y.with(c.0, c.1)->Object_0 =~= seq![a, b, c]);
}

proof fn lemma_longer_object(
    a: (Seq<char>, JsonModel),
    b: (Seq<char>, JsonModel),
    c: (Seq<char>, JsonModel),
    d: (Seq<char>, JsonModel),
    e: (Seq<char>, JsonModel),
)
    ensures
        JsonModel::object().with(a.0, a.1).with(b.0, b.1).with(c.0, c.1).with(d.0, d.1).with(
            e.0,
            e.1,
        ) == JsonModel::Object(seq![a, b, c, d, e]),
{
    lemma_object_of(a, b, c);
    let x = JsonModel::Object(seq![a, b, c]).with(d.0, d.1).with(e.0, e.1);
    assert(x->Object_0 =~= seq![a, b, c, d, e]);
}

proof fn lemma_list_of(a: JsonModel, b: JsonModel, c: JsonModel)
    ensures
        JsonModel::list().and(a) == JsonModel::Array(seq![a]),
        JsonModel::list().and(a).and(b) == JsonModel::Array(seq![a, b]),
        JsonModel::list().and(a).and(b).and(c) == JsonModel::Array(seq![a, b, c]),
{
    let x = JsonModel::list().and(a);
    assert(x->Array_0 =~= seq![a]);
    let y = x.and(b);
    assert(y->Array_0 =~= seq![a, b]);
    assert(y.and(c)->Array_0 =~= seq![a, b, c]);
}

/// What is listed, spelled out: a list of numbers is listed as an array of numbers, rows as an array of
/// such arrays, the horizon as an integer, the switch as a boolean that is on; of each tool its name, what
/// it does, and an object of arguments with those that must be there.
pub proof fn law_listed_schemas()
    ensures
        ({
            let text = |s: Seq<char>| JsonModel::Text(s);
            let num = JsonModel::Object(seq![("type"@, text("number"@))]);
            let row = JsonModel::Object(seq![("items"@, num), ("type"@, text("array"@))]);
            let list = |of: JsonModel, d: Seq<char>|
                JsonModel::Object(
                    seq![("description"@, text(d)), ("items"@, of), ("type"@, text("array"@))],
                );
            let steps = JsonModel::Object(
                seq![
                    ("description"@, text("Forecast horizon (number of steps to predict)"@)),
                    ("type"@, text("integer"@)),
                ],
            );
            let switch = JsonModel::Object(
                seq![
                    ("default"@, JsonModel::Bool(true)),
                    ("description"@, text("Whether to return prediction quantiles"@)),
                    ("type"@, text("boolean"@)),
                ],
            );
            let tool = |name: Seq<char>, d: Seq<char>, p: JsonModel, r: Seq<JsonModel>|
                JsonModel::Object(
                    seq![
                        ("description"@, text(d)),
                        (
                            "inputSchema"@,
                            JsonModel::Object(
                                seq![
                                    ("properties"@, p),
                                    ("required"@, JsonModel::Array(r)),
                                    ("type"@, text("object"@)),
                                ],
                            ),
                        ),
                        ("name"@, text(name)),
                    ],
                );
            let first = tool(
                "forecast_univariate"@,
                "Predict future values for a single univariate time series."@,
                JsonModel::Object(
                    seq![
                        (
                            "context"@,
                            list(num, "Historical context values for univariate time series"@),
                        ),
                        ("horizon"@, steps),
                        ("return_quantiles"@, switch),
                    ],
                ),
                seq![text("context"@), text("horizon"@)],
            );
            let second = tool(
                "forecast_multivariate"@,
                "Predict future values for multivariate time series with optional covariates."@,
                JsonModel::Object(
                    seq![
                        (
                            "contexts"@,
                            list(
                                row,
                                "Context values for each variate (array of float arrays, all must have equal length)"@,
                            ),
                        ),
                        ("horizon"@, steps),
                        (
                            "past_future_covariates"@,
                            list(
                                row,
                                "Optional past-and-future covariate series (length equal to context length + horizon)"@,
                            ),
                        ),
                        (
                            "past_only_covariates"@,
                            list(
                                row,
                                "Optional past-only covariate series (matching context length)"@,
                            ),
                        ),
                        ("return_quantiles"@, switch),
                    ],
                ),
                seq![text("contexts"@), text("horizon"@)],
            );
            let third = tool(
                "evaluate_trend"@,
                "Evaluate and describe the linear trend, slope, direction, and statistics of a time series."@,
                JsonModel::Object(
                    seq![("series"@, list(num, "Time series data to evaluate trend for"@))],
                ),
                seq![text("series"@)],
            );
            tools_model() == JsonModel::Object(
                seq![("tools"@, JsonModel::Array(seq![first, second, third]))],
            )
        }),
{
    let text = |s: Seq<char>| JsonModel::Text(s);
    let null = ("type"@, JsonModel::Null);
    lemma_object_of(("type"@, text("number"@)), null, null);
    let num = number_model();
    lemma_object_of(("items"@, num), ("type"@, text("array"@)), null);
    let row = JsonModel::Object(seq![("items"@, num), ("type"@, text("array"@))]);
    lemma_object_of(
        ("description"@, text("Forecast horizon (number of steps to predict)"@)),
        ("type"@, text("integer"@)),
        null,
    );
    lemma_object_of(
        ("default"@, JsonModel::Bool(true)),
        ("description"@, text("Whether to return prediction quantiles"@)),
        ("type"@, text("boolean"@)),
    );
    lemma_listed(num, "Historical context values for univariate time series"@);
    lemma_listed(
        row,
        "Context values for each variate (array of float arrays, all must have equal length)"@,
    );
    lemma_listed(
        row,
        "Optional past-and-future covariate series (length equal to context length + horizon)"@,
    );
    lemma_listed(row, "Optional past-only covariate series (matching context length)"@);
    lemma_listed(num, "Time series data to evaluate trend for"@);
    let steps = plain_model("integer"@, "Forecast horizon (number of steps to predict)"@);
    let switch = switch_model("Whether to return prediction quantiles"@);
    lemma_object_of(
        (
            "context"@,
            list_model(num, "Historical context values for univariate time series"@),
        ),
        ("horizon"@, steps),
        ("return_quantiles"@, switch),
    );
    lemma_longer_object(
        (
            "contexts"@,
            list_model(
                row,
                "Context values for each variate (array of float arrays, all must have equal length)"@,
            ),
        ),
        ("horizon"@, steps),
        (
            "past_future_covariates"@,
            list_model(
                row,
                "Optional past-and-future covariate series (length equal to context length + horizon)"@,
            ),
        ),
        (
            "past_only_covariates"@,
            list_model(row, "Optional past-only covariate series (matching context length)"@),
        ),
        ("return_quantiles"@, switch),
    );
    lemma_object_of(
        ("series"@, list_model(num, "Time series data to evaluate trend for"@)),
        null,
        null,
    );
    lemma_list_of(text("context"@), text("horizon"@), JsonModel::Null);
    lemma_list_of(text("contexts"@), text("horizon"@), JsonModel::Null);
    lemma_list_of(text("series"@), JsonModel::Null, JsonModel::Null);
    lemma_tool(
        "forecast_univariate"@,
        "Predict future values for a single univariate time series."@,
        univariate_properties(),
        JsonModel::Array(seq![text("context"@), text("horizon"@)]),
    );
    lemma_tool(
        "forecast_multivariate"@,
        "Predict future values for multivariate time series with optional covariates."@,
        multivariate_properties(),
        JsonModel::Array(seq![text("contexts"@), text("horizon"@)]),
    );
    lemma_tool(
        "evaluate_trend"@,
        "Evaluate and describe the linear trend, slope, direction, and statistics of a time series."@,
        trend_properties(),
        JsonModel::Array(seq![text("series"@)]),
    );
    lemma_list_of(univariate_tool_model(), multivariate_tool_model(), trend_tool_model());
    lemma_object_of(
        (
            "tools"@,
            JsonModel::Array(
                seq![univariate_tool_model(), multivariate_tool_model(), trend_tool_model()],
            ),
        ),
        null,
        null,
    );
}

proof fn lemma_listed(of: JsonModel, d: Seq<char>)
    ensures
        list_model(of, d) == JsonModel::Object(
            seq![
                ("description"@, JsonModel::Text(d)),
                ("items"@, of),
                ("type"@, JsonModel::Text("array"@)),
            ],
        ),
{
    lemma_object_of(
        ("description"@, JsonModel::Text(d)),
        ("items"@, of),
        ("type"@, JsonModel::Text("array"@)),
    );
}

proof fn lemma_tool(name: Seq<char>, d: Seq<char>, p: JsonModel, r: JsonModel)
    ensures
        tool_model(name, d, p, r) == JsonModel::Object(
            seq![
                ("description"@, JsonModel::Text(d)),
                (
                    "inputSchema"@,
                    JsonModel::Object(
                        seq![
                            ("properties"@, p),
                            ("required"@, r),
                            ("type"@, JsonModel::Text("object"@)),
                        ],
                    ),
                ),
                ("name"@, JsonModel::Text(name)),
            ],
        ),
{
    lemma_object_of(
        ("properties"@, p),
        ("required"@, r),
        ("type"@, JsonModel::Text("object"@)),
    );
    let schema = JsonModel::Object(
        seq![("properties"@, p), ("required"@, r), ("type"@, JsonModel::Text("object"@))],
    );
    lemma_object_of(
        ("description"@, JsonModel::Text(d)),
        ("inputSchema"@, schema),
        ("name"@, JsonModel::Text(name)),
    );
}

/// What the server says of itself: the version of the protocol, that it has tools, its name and its
/// version.
pub proof fn law_server_says_of_itself()
    ensures
        server_model() == JsonModel::Object(
            seq![
                (
                    "capabilities"@,
                    JsonModel::Object(seq![("tools"@, JsonModel::Object(seq![]))]),
                ),
                ("protocolVersion"@, JsonModel::Text("2024-11-05"@)),
                (
                    "serverInfo"@,
                    JsonModel::Object(
                        seq![
                            ("name"@, JsonModel::Text("timesfm-mcp"@)),
                            ("version"@, JsonModel::Text("0.1.0"@)),
                        ],
                    ),
                ),
            ],
        ),
{
    let null = ("type"@, JsonModel::Null);
    let none = JsonModel::object();
    lemma_object_of(("tools"@, none), null, null);
    let info = (
        ("name"@, JsonModel::Text("timesfm-mcp"@)),
        ("version"@, JsonModel::Text("0.1.0"@)),
    );
    lemma_object_of(info.0, info.1, null);
    lemma_object_of(
        ("capabilities"@, JsonModel::Object(seq![("tools"@, none)])),
        ("protocolVersion"@, JsonModel::Text("2024-11-05"@)),
        ("serverInfo"@, JsonModel::Object(seq![info.0, info.1])),
    );
}

} // verus!
