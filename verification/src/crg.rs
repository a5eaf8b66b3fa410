//! The client side of a code-review-graph server: MCP requests, the session they
//! belong to, and the text in its replies.
use vstd::prelude::*;

use crate::decimal::{decimal, decimal_string, signed, signed_string};
use crate::json::{
    as_str, get, get_str, items, json_parsed, lemma_array_model, no_fields, object, parse_json, string,
    with_field, Json, JsonView,
};
use crate::text::{
    join, join_strs, lines, opt_text, opt_view, starts_with, str_lines, str_strip_prefix, strip_prefix, views,
};

verus! {

/// The tools that the server offers.
pub const CRG_TOOLS: [&'static str; 4] = [
    "get_minimal_context_tool",
    "query_graph_tool",
    "get_review_context_tool",
    "detect_changes_tool",
];

/// Why a call to the server failed.
#[derive(Debug, Clone, PartialEq, Eq)]
pub enum CrgError {
    Ureq(String),
    Io(String),
    NotInitialized,
    NoSessionId,
    EmptyResult,
    Parse(String),
}

/// The text of an error.
pub open spec fn error_text(e: CrgError) -> Seq<char> {
    match e {
        CrgError::Ureq(e) => "ureq error: "@ + e@,
        CrgError::Io(e) => "io error: "@ + e@,
        CrgError::NotInitialized => "not initialized: call initialize() first"@,
        CrgError::NoSessionId => "no Mcp-Session-Id in initialize response"@,
        CrgError::EmptyResult => "empty result from CRG"@,
        CrgError::Parse(e) => "parse error: "@ + e@,
    }
}

impl CrgError {
    /// The text of the error.
    pub fn message(&self) -> (r: String)
        ensures
            r@ == error_text(*self),
    {
        match self {
            CrgError::Ureq(e) => {
                let mut m = "ureq error: ".to_owned();
                m.append(e.as_str());
                m
            },
            CrgError::Io(e) => {
                let mut m = "io error: ".to_owned();
                m.append(e.as_str());
                m
            },
            CrgError::NotInitialized => "not initialized: call initialize() first".to_owned(),
            CrgError::NoSessionId => "no Mcp-Session-Id in initialize response".to_owned(),
            CrgError::EmptyResult => "empty result from CRG".to_owned(),
            CrgError::Parse(e) => {
                let mut m = "parse error: ".to_owned();
                m.append(e.as_str());
                m
            },
        }
    }
}

/// The texts of an array's elements that have a string under `text`, in order.
pub open spec fn text_blocks(content: Seq<JsonView>) -> Seq<Seq<char>>
    decreases content.len(),
{
    if content.len() == 0 {
        Seq::empty()
    } else {
        let rest = text_blocks(content.drop_last());
        match get_str(content.last(), "text"@) {
            Some(t) => rest.push(t),
            None => rest,
        }
    }
}

/// The text of a reply: its text blocks with line feeds between; nothing where
/// the reply has none.
pub open spec fn reply_text(v: JsonView) -> Option<Seq<char>> {
    match get(v, "result"@) {
        None => None,
        Some(result) => match get(result, "content"@) {
            Some(JsonView::Array(content)) => {
                let blocks = text_blocks(content);
                if blocks.len() == 0 {
                    None
                } else {
                    Some(join(blocks, "\n"@))
                }
            },
            _ => None,
        },
    }
}

/// The first line after `data: `, in the order of the lines.
pub open spec fn first_data(ls: Seq<Seq<char>>) -> Option<Seq<char>>
    decreases ls.len(),
{
    if ls.len() == 0 {
        None
    } else {
        match strip_prefix(ls[0], "data: "@) {
            Some(d) => Some(d),
            None => first_data(ls.drop_first()),
        }
    }
}

/// The JSON text of a reply, which may be framed as a server-sent event.
pub open spec fn reply_json(raw: Seq<char>) -> Seq<char> {
    match first_data(lines(raw)) {
        Some(d) => d,
        None => raw,
    }
}

fn json_part<'a>(raw: &'a str) -> (r: &'a str)
    ensures
        r@ == reply_json(raw@),
{
    let ls = str_lines(raw);
    let ghost all = lines(raw@);
    let mut i: usize = 0;
    assert(all.skip(0) =~= all);
    while i < ls.len()
        invariant
            i <= ls.len(),
            views(ls@) == all,
            all == lines(raw@),
            first_data(all.skip(i as int)) == first_data(all),
        decreases ls.len() - i,
    {
        assert(all.skip(i as int)[0] == ls@[i as int]@);
        assert(all.skip(i as int).drop_first() =~= all.skip(i + 1));
        if let Some(d) = str_strip_prefix(ls[i], "data: ") {
            return d;
        }
        i += 1;
    }
    assert(all.skip(i as int).len() == 0);
    raw
}

/// The text of a reply that has been read as JSON.
pub fn result_text(v: &Json) -> (r: Option<String>)
    ensures
        opt_text(r) == reply_text(v@),
{
    broadcast use lemma_array_model;

    let result = match v.get("result") {
        Some(x) => x,
        None => return None,
    };
    let content = match result.get("content") {
        Some(Json::Array(content)) => content,
        _ => return None,
    };
    let mut blocks: Vec<&str> = Vec::new();
    let ghost all = items(content@);
    let mut i: usize = 0;
    assert(all.take(0).len() == 0);
    assert(views(blocks@) =~= text_blocks(all.take(0)));
    while i < content.len()
        invariant
            i <= content.len(),
            all == items(content@),
            views(blocks@) == text_blocks(all.take(i as int)),
        decreases content.len() - i,
    {
        let ghost before = blocks@;
        proof {
            assert(all.take(i + 1).drop_last() =~= all.take(i as int));
            assert(all.take(i + 1).last() == content@[i as int]@);
        }
        if let Some(t) = content[i].get_str("text") {
            blocks.push(t);
            assert(views(blocks@) =~= views(before).push(t@));
        }
        i += 1;
    }
    assert(all.take(i as int) =~= all);
    assert(views(blocks@).len() == blocks@.len());
    if blocks.len() == 0 {
        None
    } else {
        Some(join_strs(&blocks, "\n"))
    }
}

/// A node that the server ranks, as far as a review is made of it. Its risk score is
/// kept as the text of the number.
#[derive(Debug, Clone, PartialEq, Eq)]
pub struct RankedNode {
    pub name: Option<String>,
    pub file_path: Option<String>,
    pub line_start: Option<u32>,
    pub kind: Option<String>,
    pub risk: Option<String>,
}

/// Model of [`RankedNode`].
#[verifier::ext_equal]
pub struct RankedView {
    pub name: Option<Seq<char>>,
    pub file_path: Option<Seq<char>>,
    pub line_start: Option<u32>,
    pub kind: Option<Seq<char>>,
    pub risk: Option<Seq<char>>,
}

impl View for RankedNode {
    type V = RankedView;

    open spec fn view(&self) -> RankedView {
        RankedView {
            name: opt_text(self.name),
            file_path: opt_text(self.file_path),
            line_start: self.line_start,
            kind: opt_text(self.kind),
            risk: opt_text(self.risk),
        }
    }
}

/// The models of some ranked nodes, in order.
pub open spec fn ranked_views(v: Seq<RankedNode>) -> Seq<RankedView> {
    v.map_values(|n: RankedNode| n@)
}

/// How many fields the server's nodes have.
pub const NODE_FIELDS: usize = 7;

/// Whether a value has the form of a node: an object, or the array of all its fields.
pub open spec fn is_node(v: JsonView) -> bool {
    match v {
        JsonView::Object(_) => true,
        JsonView::Array(a) => a.len() == NODE_FIELDS,
        _ => false,
    }
}

/// A field of a node, by its place in an array or by its name in an object. An absent
/// field is null.
pub open spec fn node_field(v: JsonView, place: int, key: Seq<char>) -> JsonView {
    match v {
        JsonView::Array(a) => a[place],
        _ => match get(v, key) {
            Some(x) => x,
            None => JsonView::Null,
        },
    }
}

/// Whether a value is a text or null.
pub open spec fn fits_text(v: JsonView) -> bool {
    v is Str || v is Null
}

/// Whether a value is a line number or null.
pub open spec fn fits_line(v: JsonView) -> bool {
    match v {
        JsonView::UInt(n) => n <= u32::MAX,
        _ => v is Null,
    }
}

/// Whether a value is a number or null.
pub open spec fn fits_score(v: JsonView) -> bool {
    v is UInt || v is NegInt || v is Real || v is Null
}

/// The line number that a value is.
pub open spec fn line_of(v: JsonView) -> Option<u32> {
    match v {
        JsonView::UInt(n) => Some(n as u32),
        _ => None,
    }
}

/// The text of the number that a value is.
pub open spec fn score_text(v: JsonView) -> Option<Seq<char>> {
    match v {
        JsonView::UInt(n) => Some(decimal(n as nat)),
        JsonView::NegInt(n) => Some(signed(n as int)),
        JsonView::Real(t) => Some(t),
        _ => None,
    }
}

/// The node that an item of a ranking is; none where it is no node or one of its fields
/// has the wrong type.
pub open spec fn ranked_node(v: JsonView) -> Option<RankedView> {
    let name = node_field(v, 0, "name"@);
    let file_path = node_field(v, 2, "file_path"@);
    let line_start = node_field(v, 3, "line_start"@);
    let risk = node_field(v, 5, "risk_score"@);
    let kind = node_field(v, 6, "kind"@);
    if is_node(v) && fits_text(name) && fits_text(node_field(v, 1, "qualified_name"@)) && fits_text(
        file_path,
    ) && fits_line(line_start) && fits_line(node_field(v, 4, "line_end"@)) && fits_score(risk)
        && fits_text(kind) {
        Some(
            RankedView {
                name: as_str(name),
                file_path: as_str(file_path),
                line_start: line_of(line_start),
                kind: as_str(kind),
                risk: score_text(risk),
            },
        )
    } else {
        None
    }
}

/// The nodes of a ranking, in order, without the items that are none.
pub open spec fn ranked_of(ranking: Seq<JsonView>) -> Seq<RankedView>
    decreases ranking.len(),
{
    if ranking.len() == 0 {
        Seq::empty()
    } else {
        let rest = ranked_of(ranking.drop_last());
        match ranked_node(ranking.last()) {
            Some(n) => rest.push(n),
            None => rest,
        }
    }
}

/// The ranking in a result; empty where it has none.
pub open spec fn ranking_in(v: JsonView) -> Seq<JsonView> {
    match get(v, "review_priorities"@) {
        Some(JsonView::Array(a)) => a,
        _ => Seq::empty(),
    }
}

fn field<'a>(v: &'a Json, place: usize, key: &str) -> (r: Option<&'a Json>)
    requires
        is_node(v@),
        place < NODE_FIELDS,
    ensures
        match r {
            Some(x) => x@ == node_field(v@, place as int, key@),
            None => node_field(v@, place as int, key@) == JsonView::Null,
        },
{
    broadcast use lemma_array_model;

    match v {
        Json::Array(a) => {
            assert(items(a@)[place as int] == a@[place as int]@);
            Some(&a[place])
        },
        _ => v.get(key),
    }
}

/// The text of a field, nothing where it is null; an error where it has another type.
fn text_field(v: &Json, place: usize, key: &str) -> (r: Result<Option<String>, ()>)
    requires
        is_node(v@),
        place < NODE_FIELDS,
    ensures
        r is Ok == fits_text(node_field(v@, place as int, key@)),
        r matches Ok(t) ==> opt_text(t) == as_str(node_field(v@, place as int, key@)),
{
    match field(v, place, key) {
        None | Some(Json::Null) => Ok(None),
        Some(Json::Str(t)) => Ok(Some(t.clone())),
        _ => Err(()),
    }
}

/// The line of a field, nothing where it is null; an error where it has another type.
fn line_field(v: &Json, place: usize, key: &str) -> (r: Result<Option<u32>, ()>)
    requires
        is_node(v@),
        place < NODE_FIELDS,
    ensures
        r is Ok == fits_line(node_field(v@, place as int, key@)),
        r matches Ok(n) ==> n == line_of(node_field(v@, place as int, key@)),
{
    match field(v, place, key) {
        None | Some(Json::Null) => Ok(None),
        Some(Json::UInt(n)) => if *n <= 4294967295 {
            Ok(Some(*n as u32))
        } else {
            Err(())
        },
        _ => Err(()),
    }
}

/// The text of a number in a field, nothing where it is null; an error where it has
/// another type.
fn score_field(v: &Json, place: usize, key: &str) -> (r: Result<Option<String>, ()>)
    requires
        is_node(v@),
        place < NODE_FIELDS,
    ensures
        r is Ok == fits_score(node_field(v@, place as int, key@)),
        r matches Ok(t) ==> opt_text(t) == score_text(node_field(v@, place as int, key@)),
{
    match field(v, place, key) {
        None | Some(Json::Null) => Ok(None),
        Some(Json::UInt(n)) => Ok(Some(decimal_string(*n))),
        Some(Json::NegInt(n)) => Ok(Some(signed_string(*n))),
        Some(Json::Real(t)) => Ok(Some(t.clone())),
        _ => Err(()),
    }
}

fn node_from(v: &Json) -> (r: Option<RankedNode>)
    ensures
        match r {
            Some(n) => ranked_node(v@) == Some(n@),
            None => ranked_node(v@) is None,
        },
{
    broadcast use lemma_array_model;

    let whole: bool = match v {
        Json::Object(_) => true,
        Json::Array(a) => {
            assert(items(a@).len() == a@.len());
            a.len() == NODE_FIELDS
        },
        _ => false,
    };
    if !whole {
        return None;
    }
    let name = text_field(v, 0, "name");
    let qualified = text_field(v, 1, "qualified_name");
    let file_path = text_field(v, 2, "file_path");
    let line_start = line_field(v, 3, "line_start");
    let line_end = line_field(v, 4, "line_end");
    let risk = score_field(v, 5, "risk_score");
    let kind = text_field(v, 6, "kind");
    if qualified.is_err() || line_end.is_err() {
        return None;
    }
    match (name, file_path, line_start, kind, risk) {
        (Ok(name), Ok(file_path), Ok(line_start), Ok(kind), Ok(risk)) => Some(
            RankedNode { name, file_path, line_start, kind, risk },
        ),
        _ => None,
    }
}

/// The ranked nodes of a result that has been read as JSON.
pub fn ranked_in(v: &Json) -> (r: Vec<RankedNode>)
    ensures
        ranked_views(r@) == ranked_of(ranking_in(v@)),
{
    broadcast use lemma_array_model;

    let mut out: Vec<RankedNode> = Vec::new();
    let ghost all = ranking_in(v@);
    assert(all.take(0).len() == 0);
    assert(ranked_views(out@) =~= ranked_of(all.take(0)));
    let ranking = match v.get("review_priorities") {
        Some(Json::Array(a)) => a,
        _ => {
            assert(all.take(0) =~= all);
            return out;
        },
    };
    assert(all == items(ranking@));
    let mut i: usize = 0;
    while i < ranking.len()
        invariant
            i <= ranking.len(),
            all == items(ranking@),
            ranked_views(out@) == ranked_of(all.take(i as int)),
        decreases ranking.len() - i,
    {
        let ghost before = out@;
        proof {
            assert(all.take(i + 1).drop_last() =~= all.take(i as int));
            assert(all.take(i + 1).last() == ranking@[i as int]@);
        }
        if let Some(n) = node_from(&ranking[i]) {
            out.push(n);
            assert(ranked_views(out@) =~= ranked_views(before).push(n@));
        }
        i += 1;
    }
    assert(all.take(i as int) =~= all);
    out
}

/// The ranked nodes in the text of a result; an error where the text is not JSON.
pub fn ranked_nodes(text: &str) -> (r: Result<Vec<RankedNode>, CrgError>)
    ensures
        match json_parsed(text@) {
            Err(e) => r matches Err(CrgError::Parse(m)) && m@ == e,
            Ok(v) => r matches Ok(ns) && ranked_views(ns@) == ranked_of(ranking_in(v)),
        },
{
    match parse_json(text) {
        Ok(v) => Ok(ranked_in(&v)),
        Err(e) => Err(CrgError::Parse(e)),
    }
}

/// A call that is ready to be posted: the session it belongs to and its body.
pub struct ToolCall {
    pub session: String,
    pub body: Json,
}

/// The body of an `initialize` request.
pub open spec fn initialize_body() -> JsonView {
    JsonView::Object(
        seq![
            ("jsonrpc"@, JsonView::Str("2.0"@)),
            ("id"@, JsonView::UInt(1)),
            ("method"@, JsonView::Str("initialize"@)),
            (
                "params"@,
                JsonView::Object(
                    seq![
                        ("protocolVersion"@, JsonView::Str("2025-03-26"@)),
                        ("capabilities"@, JsonView::Object(Seq::empty())),
                        (
                            "clientInfo"@,
                            JsonView::Object(
                                seq![
                                    ("name"@, JsonView::Str("graphify-plugin-review"@)),
                                    ("version"@, JsonView::Str("0.1.0"@)),
                                ],
                            ),
                        ),
                    ],
                ),
            ),
        ],
    )
}

/// The body of a `tools/call` request.
pub open spec fn call_body(id: u64, name: Seq<char>, args: JsonView) -> JsonView {
    JsonView::Object(
        seq![
            ("jsonrpc"@, JsonView::Str("2.0"@)),
            ("id"@, JsonView::UInt(id)),
            ("method"@, JsonView::Str("tools/call"@)),
            (
                "params"@,
                JsonView::Object(seq![("name"@, JsonView::Str(name)), ("arguments"@, args)]),
            ),
        ],
    )
}

/// The arguments of `detect_changes_tool`.
pub open spec fn detect_changes_fields(
    repo_root: Seq<char>,
    base: Option<Seq<char>>,
) -> Seq<(Seq<char>, JsonView)> {
    let fs = seq![
        ("repo_root"@, JsonView::Str(repo_root)),
        ("detail_level"@, JsonView::Str("standard"@)),
    ];
    match base {
        Some(b) => fs.push(("base"@, JsonView::Str(b))),
        None => fs,
    }
}

/// A client of the server: its address, and the session once there is one.
#[derive(Debug, Clone, PartialEq, Eq)]
pub struct CrgMcpClient {
    pub base_url: String,
    pub session_id: Option<String>,
}

impl CrgMcpClient {
    /// A client without a session.
    pub fn new(base_url: &str) -> (r: CrgMcpClient)
        ensures
            r.base_url@ == base_url@,
            r.session_id is None,
    {
        CrgMcpClient { base_url: base_url.to_owned(), session_id: None }
    }

    /// Whether there is a session.
    pub fn is_initialized(&self) -> (r: bool)
        ensures
            r == (self.session_id is Some),
    {
        self.session_id.is_some()
    }

    /// The body of an `initialize` request.
    pub fn initialize_request() -> (r: Json)
        ensures
            r@ == initialize_body(),
    {
        let info = object(
            with_field(
                with_field(no_fields(), "name", string("graphify-plugin-review")),
                "version",
                string("0.1.0"),
            ),
        );
        assert(info@->Object_0 =~= seq![
            ("name"@, JsonView::Str("graphify-plugin-review"@)),
            ("version"@, JsonView::Str("0.1.0"@)),
        ]);
        let fs = with_field(no_fields(), "protocolVersion", string("2025-03-26"));
        let fs = with_field(fs, "capabilities", object(no_fields()));
        let params = object(with_field(fs, "clientInfo", info));
        assert(params@->Object_0 =~= seq![
            ("protocolVersion"@, JsonView::Str("2025-03-26"@)),
            ("capabilities"@, JsonView::Object(Seq::empty())),
            ("clientInfo"@, info@),
        ]);
        let fs = with_field(no_fields(), "jsonrpc", string("2.0"));
        let fs = with_field(fs, "id", Json::UInt(1));
        let fs = with_field(fs, "method", string("initialize"));
        let r = object(with_field(fs, "params", params));
        assert(r@->Object_0 =~= initialize_body()->Object_0);
        r
    }

    /// Takes the session that a reply to `initialize` opens, by its header. A
    /// session that is already there stays.
    pub fn accept_session(&mut self, header: Option<&str>) -> (r: Result<String, CrgError>)
        ensures
            final(self).base_url == old(self).base_url,
            match opt_text(old(self).session_id) {
                Some(s) => r is Ok && r->Ok_0@ == s && opt_text(final(self).session_id) == Some(s),
                None => match header {
                    Some(h) => r is Ok && r->Ok_0@ == h@ && opt_text(final(self).session_id)
                        == Some(h@),
                    None => r == Err::<String, CrgError>(CrgError::NoSessionId)
                        && final(self).session_id is None,
                },
            },
    {
        match &self.session_id {
            Some(s) => return Ok(s.clone()),
            None => {},
        }
        match header {
            Some(h) => {
                self.session_id = Some(h.to_owned());
                Ok(h.to_owned())
            },
            None => Err(CrgError::NoSessionId),
        }
    }

    /// The body of a `tools/call` request.
    pub fn call_tool_request(id: u64, name: &str, args: Json) -> (r: Json)
        ensures
            r@ == call_body(id, name@, args@),
    {
        let params = object(
            with_field(with_field(no_fields(), "name", string(name)), "arguments", args),
        );
        assert(params@->Object_0 =~= seq![("name"@, JsonView::Str(name@)), ("arguments"@, args@)]);
        let fs = with_field(no_fields(), "jsonrpc", string("2.0"));
        let fs = with_field(fs, "id", Json::UInt(id));
        let fs = with_field(fs, "method", string("tools/call"));
        let r = object(with_field(fs, "params", params));
        assert(r@->Object_0 =~= call_body(id, name@, args@)->Object_0);
        r
    }

    /// The text of a reply, plain JSON or a server-sent event.
    pub fn extract_result_content(raw: &str) -> (r: Option<String>)
        ensures
            opt_text(r) == (match json_parsed(reply_json(raw@)) {
                Ok(v) => reply_text(v),
                Err(_) => None,
            }),
    {
        match parse_json(json_part(raw)) {
            Ok(v) => result_text(&v),
            Err(_) => None,
        }
    }

    /// A tool call for the session; an error while there is none.
    pub fn call_tool(&self, name: &str, args: Json) -> (r: Result<ToolCall, CrgError>)
        ensures
            match opt_text(self.session_id) {
                Some(s) => r is Ok && r->Ok_0.session@ == s && r->Ok_0.body@ == call_body(
                    2,
                    name@,
                    args@,
                ),
                None => r is Err && r->Err_0 == CrgError::NotInitialized,
            },
    {
        match &self.session_id {
            Some(s) => Ok(
                ToolCall { session: s.clone(), body: Self::call_tool_request(2, name, args) },
            ),
            None => Err(CrgError::NotInitialized),
        }
    }

    /// The text that a tool call was answered with; an error where the reply has
    /// none.
    pub fn tool_result(raw: &str) -> (r: Result<String, CrgError>)
        ensures
            match (match json_parsed(reply_json(raw@)) {
                Ok(v) => reply_text(v),
                Err(_) => None,
            }) {
                Some(t) => r is Ok && r->Ok_0@ == t,
                None => r is Err && r->Err_0 == CrgError::EmptyResult,
            },
    {
        match Self::extract_result_content(raw) {
            Some(t) => Ok(t),
            None => Err(CrgError::EmptyResult),
        }
    }

    /// The ranked nodes in the reply to a call of `detect_changes_tool`; an error where
    /// the reply has no text or its text is not JSON.
    pub fn changes_result(raw: &str) -> (r: Result<Vec<RankedNode>, CrgError>)
        ensures
            match (match json_parsed(reply_json(raw@)) {
                Ok(v) => reply_text(v),
                Err(_) => None,
            }) {
                None => r matches Err(e) && e == CrgError::EmptyResult,
                Some(t) => match json_parsed(t) {
                    Err(e) => r matches Err(CrgError::Parse(m)) && m@ == e,
                    Ok(v) => r matches Ok(ns) && ranked_views(ns@) == ranked_of(ranking_in(v)),
                },
            },
    {
        match Self::tool_result(raw) {
            Ok(text) => ranked_nodes(text.as_str()),
            Err(_) => Err(CrgError::EmptyResult),
        }
    }

    /// The call of `detect_changes_tool` for a repository, against a base where
    /// one is given.
    pub fn detect_changes(&self, repo_root: &str, base: Option<&str>) -> (r: Result<
        ToolCall,
        CrgError,
    >)
        ensures
            match opt_text(self.session_id) {
                Some(s) => r is Ok && r->Ok_0.session@ == s && r->Ok_0.body@ == call_body(
                    2,
                    "detect_changes_tool"@,
                    JsonView::Object(detect_changes_fields(repo_root@, opt_view(base))),
                ),
                None => r is Err && r->Err_0 == CrgError::NotInitialized,
            },
    {
        let fs = with_field(no_fields(), "repo_root", string(repo_root));
        let fs = with_field(fs, "detail_level", string("standard"));
        let fs = match base {
            Some(b) => with_field(fs, "base", string(b)),
            None => fs,
        };
        let args = object(fs);
        assert(args@->Object_0 =~= detect_changes_fields(repo_root@, opt_view(base)));
        self.call_tool("detect_changes_tool", args)
    }
}

/// The text of a reply is that of all its text blocks, in order, a line feed between each two; a
/// reply without a result, without content or without any text has none.
pub proof fn law_text_of_a_reply(v: JsonView, result: JsonView, content: Seq<JsonView>)
    ensures
        ({
            let texts_in = content.filter(
                |c: JsonView| get(c, "text"@) matches Some(JsonView::Str(_)),
            ).map_values(|c: JsonView| get(c, "text"@)->0->Str_0);
            get(v, "result"@) == Some(result) && get(result, "content"@) == Some(
                JsonView::Array(content),
            ) ==> {
                &&& texts_in.len() == 0 ==> reply_text(v) is None
                &&& texts_in.len() > 0 ==> reply_text(v) == Some(join(texts_in, "\n"@))
            }
        }),
        get(v, "result"@) is None ==> reply_text(v) is None,
        get(v, "result"@) == Some(result) && !(get(result, "content"@) is Some && get(
            result,
            "content"@,
        )->0 is Array) ==> reply_text(v) is None,
{
    lemma_text_blocks(content);
}

proof fn lemma_text_blocks(content: Seq<JsonView>)
    ensures
        text_blocks(content) == content.filter(
            |c: JsonView| get(c, "text"@) matches Some(JsonView::Str(_)),
        ).map_values(|c: JsonView| get(c, "text"@)->0->Str_0),
    decreases content.len(),
{
    reveal(Seq::filter);
    let f = |c: JsonView| get(c, "text"@) matches Some(JsonView::Str(_));
    let g = |c: JsonView| get(c, "text"@)->0->Str_0;
    if content.len() > 0 {
        lemma_text_blocks(content.drop_last());
        let a = content.drop_last().filter(f);
        assert(a.push(content.last()).map_values(g) =~= a.map_values(g).push(g(content.last())));
    } else {
        assert(text_blocks(content) =~= content.filter(f).map_values(g));
    }
}

/// A reply that is framed as a server-sent event holds its JSON behind the first `data: ` at the
/// start of a line; any other reply is its JSON as a whole.
pub proof fn law_framed_replies(raw: Seq<char>, i: int, data: Seq<char>)
    ensures
        0 <= i < lines(raw).len() && lines(raw)[i] == "data: "@ + data && (forall|j: int|
            0 <= j < i ==> !starts_with(#[trigger] lines(raw)[j], "data: "@)) ==> reply_json(raw)
            == data,
        (forall|j: int| 0 <= j < lines(raw).len() ==> !starts_with(#[trigger] lines(raw)[j], "data: "@))
            ==> reply_json(raw) == raw,
{
    lemma_first_data(lines(raw), i, data);
}

proof fn lemma_first_data(ls: Seq<Seq<char>>, i: int, data: Seq<char>)
    ensures
        0 <= i < ls.len() && ls[i] == "data: "@ + data && (forall|j: int|
            0 <= j < i ==> !starts_with(#[trigger] ls[j], "data: "@)) ==> first_data(ls) == Some(
            data,
        ),
        (forall|j: int| 0 <= j < ls.len() ==> !starts_with(#[trigger] ls[j], "data: "@))
            ==> first_data(ls) is None,
    decreases ls.len(),
{
    let p = "data: "@;
    crate::text::law_starts_and_ends(p + data, p);
    if ls.len() > 0 {
        let t = ls.drop_first();
        lemma_first_data(t, i - 1, data);
        if forall|j: int| 0 <= j < ls.len() ==> !starts_with(#[trigger] ls[j], p) {
            assert(!starts_with(ls[0], p));
            assert forall|j: int| 0 <= j < t.len() implies !starts_with(#[trigger] t[j], p) by {
                assert(!starts_with(ls[j + 1], p));
            }
        }
        if 0 <= i < ls.len() && ls[i] == p + data && (forall|j: int|
            0 <= j < i ==> !starts_with(#[trigger] ls[j], p)) {
            if i > 0 {
                assert(!starts_with(ls[0], p));
                assert(t[i - 1] == ls[i]);
                assert forall|j: int| 0 <= j < i - 1 implies !starts_with(#[trigger] t[j], p) by {
                    assert(!starts_with(ls[j + 1], p));
                }
            } else {
                assert(strip_prefix(ls[0], p) == Some(data));
            }
        }
    }
}

/// The field of an object, null where it is absent.
pub open spec fn or_null(v: JsonView, key: Seq<char>) -> JsonView {
    match get(v, key) {
        Some(x) => x,
        None => JsonView::Null,
    }
}

/// A ranked object has its name, its file, its first line, its kind and its score from the fields
/// of these names, each nothing where it is absent or null. One of its seven fields with a value
/// of another type, or a line that no line number can be, makes it no node.
pub proof fn law_ranked_objects(fs: Seq<(Seq<char>, JsonView)>)
    ensures
        ({
            let v = JsonView::Object(fs);
            let is_text = |x: JsonView| x is Str || x is Null;
            let is_line = |x: JsonView| x is Null || (x matches JsonView::UInt(n) && n <= 0xffff_ffff);
            let is_score = |x: JsonView| x is UInt || x is NegInt || x is Real || x is Null;
            &&& ranked_node(v) is Some <==> is_text(or_null(v, "name"@)) && is_text(
                or_null(v, "qualified_name"@),
            ) && is_text(or_null(v, "file_path"@)) && is_line(or_null(v, "line_start"@)) && is_line(
                or_null(v, "line_end"@),
            ) && is_score(or_null(v, "risk_score"@)) && is_text(or_null(v, "kind"@))
            &&& ranked_node(v) matches Some(n) ==> {
                &&& or_null(v, "name"@) matches JsonView::Str(t) ==> n.name == Some(t)
                &&& or_null(v, "name"@) is Null ==> n.name is None
                &&& or_null(v, "file_path"@) matches JsonView::Str(t) ==> n.file_path == Some(t)
                &&& or_null(v, "file_path"@) is Null ==> n.file_path is None
                &&& or_null(v, "kind"@) matches JsonView::Str(t) ==> n.kind == Some(t)
                &&& or_null(v, "kind"@) is Null ==> n.kind is None
                &&& or_null(v, "line_start"@) matches JsonView::UInt(l) ==> n.line_start == Some(
                    l as u32,
                )
                &&& or_null(v, "line_start"@) is Null ==> n.line_start is None
                &&& or_null(v, "risk_score"@) matches JsonView::UInt(l) ==> n.risk == Some(
                    decimal(l as nat),
                )
                &&& or_null(v, "risk_score"@) matches JsonView::NegInt(l) ==> n.risk == Some(
                    signed(l as int),
                )
                &&& or_null(v, "risk_score"@) matches JsonView::Real(t) ==> n.risk == Some(t)
                &&& or_null(v, "risk_score"@) is Null ==> n.risk is None
            }
        }),
{
}

/// A ranked array is read like the object that has its seven values under the names of a node's
/// fields, in their order; an array of another length, and any value that is neither, is no node.
pub proof fn law_ranked_arrays(a: Seq<JsonView>, v: JsonView)
    requires
        a.len() == 7,
    ensures
        ranked_node(JsonView::Array(a)) == ranked_node(
            JsonView::Object(
                seq![
                    ("name"@, a[0]),
                    ("qualified_name"@, a[1]),
                    ("file_path"@, a[2]),
                    ("line_start"@, a[3]),
                    ("line_end"@, a[4]),
                    ("risk_score"@, a[5]),
                    ("kind"@, a[6]),
                ],
            ),
        ),
        !(v is Object) && !(v is Array) ==> ranked_node(v) is None,
        v matches JsonView::Array(b) ==> (b.len() != 7 ==> ranked_node(v) is None),
{
    reveal_strlit("name");
    reveal_strlit("qualified_name");
    reveal_strlit("file_path");
    reveal_strlit("line_start");
    reveal_strlit("line_end");
    reveal_strlit("risk_score");
    reveal_strlit("kind");
    let fs = seq![
        ("name"@, a[0]),
        ("qualified_name"@, a[1]),
        ("file_path"@, a[2]),
        ("line_start"@, a[3]),
        ("line_end"@, a[4]),
        ("risk_score"@, a[5]),
        ("kind"@, a[6]),
    ];
    assert(fs[0].0.len() == 4 && fs[1].0.len() == 14 && fs[2].0.len() == 9 && fs[3].0.len() == 10
        && fs[4].0.len() == 8 && fs[5].0.len() == 10 && fs[6].0.len() == 4);
    assert(fs[0].0[0] == 'n' && fs[6].0[0] == 'k' && fs[3].0[0] == 'l' && fs[5].0[0] == 'r');
    crate::json::law_fields_are_found(fs, "name"@, 0);
    crate::json::law_fields_are_found(fs, "qualified_name"@, 1);
    crate::json::law_fields_are_found(fs, "file_path"@, 2);
    crate::json::law_fields_are_found(fs, "line_start"@, 3);
    crate::json::law_fields_are_found(fs, "line_end"@, 4);
    crate::json::law_fields_are_found(fs, "risk_score"@, 5);
    crate::json::law_fields_are_found(fs, "kind"@, 6);
}

/// The ranking of a result is the list under `review_priorities`, of which every item that is a
/// node is kept, in order: one bad item costs no other.
pub proof fn law_ranking(v: JsonView, ranking: Seq<JsonView>)
    ensures
        get(v, "review_priorities"@) == Some(JsonView::Array(ranking)) ==> ranking_in(v) == ranking,
        !(get(v, "review_priorities"@) is Some && get(v, "review_priorities"@)->0 is Array)
            ==> ranking_in(v).len() == 0,
        ranked_of(ranking) == ranking.filter(|x: JsonView| ranked_node(x) is Some).map_values(
            |x: JsonView| ranked_node(x)->0,
        ),
    decreases ranking.len(),
{
    reveal(Seq::filter);
    let f = |x: JsonView| ranked_node(x) is Some;
    let g = |x: JsonView| ranked_node(x)->0;
    if ranking.len() > 0 {
        law_ranking(v, ranking.drop_last());
        let a = ranking.drop_last().filter(f);
        assert(a.push(ranking.last()).map_values(g) =~= a.map_values(g).push(g(ranking.last())));
    } else {
        assert(ranked_of(ranking) =~= ranking.filter(f).map_values(g));
    }
}

/// The call of a tool names the tool and hands it the arguments, under the id of the call; that
/// for changes hands over the root of the repository and, where one is given, the base.
pub proof fn law_calls(id: u64, name: Seq<char>, args: JsonView, root: Seq<char>, base: Seq<char>)
    ensures
        get(call_body(id, name, args), "jsonrpc"@) == Some(JsonView::Str("2.0"@)),
        get(call_body(id, name, args), "id"@) == Some(JsonView::UInt(id)),
        get(call_body(id, name, args), "method"@) == Some(JsonView::Str("tools/call"@)),
        get(call_body(id, name, args), "params"@) matches Some(p) && get(p, "name"@) == Some(
            JsonView::Str(name),
        ) && get(p, "arguments"@) == Some(args),
        get(JsonView::Object(detect_changes_fields(root, Some(base))), "repo_root"@) == Some(
            JsonView::Str(root),
        ),
        get(JsonView::Object(detect_changes_fields(root, None)), "repo_root"@) == Some(
            JsonView::Str(root),
        ),
        get(JsonView::Object(detect_changes_fields(root, Some(base))), "base"@) == Some(
            JsonView::Str(base),
        ),
        get(JsonView::Object(detect_changes_fields(root, None)), "base"@) is None,
        get(JsonView::Object(detect_changes_fields(root, None)), "detail_level"@) == Some(
            JsonView::Str("standard"@),
        ),
        get(initialize_body(), "method"@) == Some(JsonView::Str("initialize"@)),
        get(initialize_body(), "id"@) == Some(JsonView::UInt(1)),
{
    reveal_strlit("jsonrpc");
    reveal_strlit("id");
    reveal_strlit("method");
    reveal_strlit("params");
    reveal_strlit("name");
    reveal_strlit("arguments");
    reveal_strlit("repo_root");
    reveal_strlit("base");
    reveal_strlit("detail_level");
    let fs = call_body(id, name, args)->Object_0;
    assert(fs[0].0.len() == 7 && fs[1].0.len() == 2 && fs[2].0.len() == 6 && fs[3].0.len() == 6);
    assert(fs[2].0[0] == 'm' && fs[3].0[0] == 'p');
    crate::json::law_fields_are_found(fs, "jsonrpc"@, 0);
    crate::json::law_fields_are_found(fs, "id"@, 1);
    crate::json::law_fields_are_found(fs, "method"@, 2);
    crate::json::law_fields_are_found(fs, "params"@, 3);
    let ps = seq![("name"@, JsonView::Str(name)), ("arguments"@, args)];
    assert(ps[0].0.len() == 4 && ps[1].0.len() == 9);
    crate::json::law_fields_are_found(ps, "name"@, 0);
    crate::json::law_fields_are_found(ps, "arguments"@, 1);
    let with_base = detect_changes_fields(root, Some(base));
    let without = detect_changes_fields(root, None);
    assert(with_base[0].0.len() == 9 && with_base[1].0.len() == 12 && with_base[2].0.len() == 4);
    assert(without[0].0.len() == 9 && without[1].0.len() == 12);
    crate::json::law_fields_are_found(with_base, "repo_root"@, 0);
    crate::json::law_fields_are_found(with_base, "base"@, 2);
    crate::json::law_fields_are_found(without, "repo_root"@, 0);
    crate::json::law_fields_are_found(without, "detail_level"@, 1);
    crate::json::law_fields_are_found(without, "base"@, 0);
    let is = initialize_body()->Object_0;
    assert(is[0].0.len() == 7 && is[1].0.len() == 2 && is[2].0.len() == 6);
    crate::json::law_fields_are_found(is, "id"@, 1);
    crate::json::law_fields_are_found(is, "method"@, 2);
}

/// The texts of the errors.
pub proof fn law_error_texts(e: String)
    ensures
        error_text(CrgError::Ureq(e)) == "ureq error: "@ + e@,
        error_text(CrgError::Io(e)) == "io error: "@ + e@,
        error_text(CrgError::NotInitialized) == "not initialized: call initialize() first"@,
        error_text(CrgError::NoSessionId) == "no Mcp-Session-Id in initialize response"@,
        error_text(CrgError::EmptyResult) == "empty result from CRG"@,
        error_text(CrgError::Parse(e)) == "parse error: "@ + e@,
{
}

}
