//! The standalone MCP server: its JSON-RPC replies and its three tools.
//!
//! Detection itself (regular expressions, the language model, the
//! named-entity recogniser) is done by the caller, which hands the detections
//! to [`McpServer::gather_entities`] and [`McpServer::finish_anonymize`].

use crate::anonymize::{
    anonymize_text, are_known_entities, needs_new_fake, detect_known_entities, known_spans, originals_nonempty,
    replace_firsts, replacement_plan, resolves, tables,
};
use crate::config::{
    error_message, AnonymizedEntity, ConcealError, DetectedEntity, DetectionMode, FakerConfig,
    MappingConfig,
};
use crate::deanonymize::{deanonymize_text, deanonymized};
use crate::faker::FakerEngine;
use crate::json::{
    copy_json, field, field_or, get_field, get_str_field, json_view, list_view, members_view,
    str_field, JsonValue, JsonView,
};
use crate::mapping::{
    insert_cache, lookup_cache, type_count, value_hash, EntityMapping, LlmCacheEntry, MappingStore,
};
use crate::strmap::entry_keys;
use crate::text::{chars_eq, chars_of, dec, dec_exec, owned, push_all, string_of};
use vstd::prelude::*;

verus! {

// ---------------------------------------------------------------------------
// Building values
// ---------------------------------------------------------------------------

/// The string value `s`.
fn jstr(s: &str) -> (r: JsonValue)
    ensures
        json_view(r) == JsonView::Str(s@),
{
    JsonValue::String(owned(s))
}

/// An object with one member.
fn obj1(k1: &str, v1: JsonValue) -> (r: JsonValue)
    ensures
        json_view(r) == JsonView::Object(seq![(k1@, json_view(v1))]),
{
    let ghost g1 = json_view(v1);
    let kvs = vec![(owned(k1), v1)];
    proof {
        assert(kvs@.drop_last() =~= Seq::<(String, JsonValue)>::empty());
        assert(members_view(kvs@.drop_last()) == Seq::<(Seq<char>, JsonView)>::empty());
        assert(members_view(kvs@) =~= seq![(k1@, g1)]);
    }
    JsonValue::Object(kvs)
}

/// An object with two members.
fn obj2(k1: &str, v1: JsonValue, k2: &str, v2: JsonValue) -> (r: JsonValue)
    ensures
        json_view(r) == JsonView::Object(seq![(k1@, json_view(v1)), (k2@, json_view(v2))]),
{
    let ghost g1 = json_view(v1);
    let ghost g2 = json_view(v2);
    let kvs = vec![(owned(k1), v1), (owned(k2), v2)];
    proof {
        let a = kvs@.drop_last();
        assert(a.drop_last() =~= Seq::<(String, JsonValue)>::empty());
        assert(members_view(a.drop_last()) == Seq::<(Seq<char>, JsonView)>::empty());
        assert(members_view(a) =~= seq![(k1@, g1)]);
        assert(members_view(kvs@) =~= seq![(k1@, g1), (k2@, g2)]);
    }
    JsonValue::Object(kvs)
}

/// An object with three members.
fn obj3(k1: &str, v1: JsonValue, k2: &str, v2: JsonValue, k3: &str, v3: JsonValue) -> (r: JsonValue)
    ensures
        json_view(r) == JsonView::Object(
            seq![(k1@, json_view(v1)), (k2@, json_view(v2)), (k3@, json_view(v3))],
        ),
{
    let ghost g1 = json_view(v1);
    let ghost g2 = json_view(v2);
    let ghost g3 = json_view(v3);
    let kvs = vec![(owned(k1), v1), (owned(k2), v2), (owned(k3), v3)];
    proof {
        let b = kvs@.drop_last();
        let a = b.drop_last();
        assert(a.drop_last() =~= Seq::<(String, JsonValue)>::empty());
        assert(members_view(a.drop_last()) == Seq::<(Seq<char>, JsonView)>::empty());
        assert(members_view(a) =~= seq![(k1@, g1)]);
        assert(members_view(b) =~= seq![(k1@, g1), (k2@, g2)]);
        assert(members_view(kvs@) =~= seq![(k1@, g1), (k2@, g2), (k3@, g3)]);
    }
    JsonValue::Object(kvs)
}

/// An array of one value.
fn arr1(v1: JsonValue) -> (r: JsonValue)
    ensures
        json_view(r) == JsonView::Array(seq![json_view(v1)]),
{
    let ghost g1 = json_view(v1);
    let xs = vec![v1];
    proof {
        assert(xs@.drop_last() =~= Seq::<JsonValue>::empty());
        assert(list_view(xs@.drop_last()) == Seq::<JsonView>::empty());
        assert(list_view(xs@) =~= seq![g1]);
    }
    JsonValue::Array(xs)
}

/// An array of three values.
fn arr3(v1: JsonValue, v2: JsonValue, v3: JsonValue) -> (r: JsonValue)
    ensures
        json_view(r) == JsonView::Array(seq![json_view(v1), json_view(v2), json_view(v3)]),
{
    let ghost g1 = json_view(v1);
    let ghost g2 = json_view(v2);
    let ghost g3 = json_view(v3);
    let xs = vec![v1, v2, v3];
    proof {
        let b = xs@.drop_last();
        let a = b.drop_last();
        assert(a.drop_last() =~= Seq::<JsonValue>::empty());
        assert(list_view(a.drop_last()) == Seq::<JsonView>::empty());
        assert(list_view(a) =~= seq![g1]);
        assert(list_view(b) =~= seq![g1, g2]);
        assert(list_view(xs@) =~= seq![g1, g2, g3]);
    }
    JsonValue::Array(xs)
}

// ---------------------------------------------------------------------------
// The replies
// ---------------------------------------------------------------------------

/// `{"jsonrpc": "2.0", "id": id, key: value}`.
pub open spec fn envelope(id: JsonView, key: Seq<char>, value: JsonView) -> JsonView {
    JsonView::Object(seq![("jsonrpc"@, JsonView::Str("2.0"@)), ("id"@, id), (key, value)])
}

/// The reply to `initialize`: protocol version, capabilities and server
/// information.
pub open spec fn initialize_reply(id: JsonView) -> JsonView {
    envelope(
        id,
        "result"@,
        JsonView::Object(
            seq![
                ("protocolVersion"@, JsonView::Str("2024-11-05"@)),
                ("capabilities"@, JsonView::Object(seq![("tools"@, JsonView::Object(seq![]))])),
                (
                    "serverInfo"@,
                    JsonView::Object(
                        seq![
                            ("name"@, JsonView::Str("mcp-server-conceal"@)),
                            ("version"@, JsonView::Str("0.2.0"@)),
                        ],
                    ),
                ),
            ],
        ),
    )
}

/// The input schema of a tool that takes one string argument `text`.
pub open spec fn text_schema(description: Seq<char>) -> JsonView {
    JsonView::Object(
        seq![
            ("type"@, JsonView::Str("object"@)),
            (
                "properties"@,
                JsonView::Object(
                    seq![
                        (
                            "text"@,
                            JsonView::Object(
                                seq![
                                    ("type"@, JsonView::Str("string"@)),
                                    ("description"@, JsonView::Str(description)),
                                ],
                            ),
                        ),
                    ],
                ),
            ),
            ("required"@, JsonView::Array(seq![JsonView::Str("text"@)])),
        ],
    )
}

/// A tool's entry in the tool list.
pub open spec fn tool_entry(name: Seq<char>, description: Seq<char>, schema: JsonView) -> JsonView {
    JsonView::Object(
        seq![
            ("name"@, JsonView::Str(name)),
            ("description"@, JsonView::Str(description)),
            ("inputSchema"@, schema),
        ],
    )
}

/// The reply to `tools/list`: the three privacy tools.
pub open spec fn tools_list_reply(id: JsonView) -> JsonView {
    envelope(
        id,
        "result"@,
        JsonView::Object(
            seq![
                (
                    "tools"@,
                    JsonView::Array(
                        seq![
                            tool_entry(
                                "privacy_anonymize"@,
                                "Anonymize PII in text. Returns text with fake values replacing real PII."@,
                                text_schema("Text containing PII to anonymize"@),
                            ),
                            tool_entry(
                                "privacy_deanonymize"@,
                                "Restore original PII values in text that was previously anonymized."@,
                                text_schema("Text containing fake PII to restore"@),
                            ),
                            tool_entry(
                                "privacy_status"@,
                                "Show current mapping statistics."@,
                                JsonView::Object(
                                    seq![
                                        ("type"@, JsonView::Str("object"@)),
                                        ("properties"@, JsonView::Object(seq![])),
                                    ],
                                ),
                            ),
                        ],
                    ),
                ),
            ],
        ),
    )
}

/// The reply to a tool call: the tool's text as the one content item.
pub open spec fn tool_reply(id: JsonView, text: Seq<char>) -> JsonView {
    envelope(
        id,
        "result"@,
        JsonView::Object(
            seq![
                (
                    "content"@,
                    JsonView::Array(
                        seq![
                            JsonView::Object(
                                seq![
                                    ("type"@, JsonView::Str("text"@)),
                                    ("text"@, JsonView::Str(text)),
                                ],
                            ),
                        ],
                    ),
                ),
            ],
        ),
    )
}

/// The reply to an unknown method: error -32601.
pub open spec fn unknown_method_reply(id: JsonView, method: Seq<char>) -> JsonView {
    envelope(
        id,
        "error"@,
        JsonView::Object(
            seq![
                ("code"@, JsonView::Number("-32601"@)),
                ("message"@, JsonView::Str("Unknown method: "@ + method)),
            ],
        ),
    )
}

/// The reply to a line that is not JSON: error -32700 with a null id.
pub open spec fn parse_error_reply() -> JsonView {
    envelope(
        JsonView::Null,
        "error"@,
        JsonView::Object(
            seq![
                ("code"@, JsonView::Number("-32700"@)),
                ("message"@, JsonView::Str("Parse error"@)),
            ],
        ),
    )
}

/// `{"jsonrpc": "2.0", "id": id, key: value}`.
fn envelope_exec(id: JsonValue, key: &str, value: JsonValue) -> (r: JsonValue)
    ensures
        json_view(r) == envelope(json_view(id), key@, json_view(value)),
{
    obj3("jsonrpc", jstr("2.0"), "id", id, key, value)
}

/// The reply to `initialize`.
pub fn initialize_reply_exec(id: JsonValue) -> (r: JsonValue)
    ensures
        json_view(r) == initialize_reply(json_view(id)),
{
    let caps = obj1("tools", JsonValue::Object(Vec::new()));
    assert(members_view(Seq::<(String, JsonValue)>::empty()) =~= seq![]);
    let info = obj2("name", jstr("mcp-server-conceal"), "version", jstr("0.2.0"));
    let result = obj3("protocolVersion", jstr("2024-11-05"), "capabilities", caps, "serverInfo", info);
    envelope_exec(id, "result", result)
}

/// The input schema of a tool that takes one string argument `text`.
fn text_schema_exec(description: &str) -> (r: JsonValue)
    ensures
        json_view(r) == text_schema(description@),
{
    let text_prop = obj2("type", jstr("string"), "description", jstr(description));
    let props = obj1("text", text_prop);
    obj3("type", jstr("object"), "properties", props, "required", arr1(jstr("text")))
}

/// The reply to `tools/list`.
pub fn tools_list_reply_exec(id: JsonValue) -> (r: JsonValue)
    ensures
        json_view(r) == tools_list_reply(json_view(id)),
{
    let anonymize = obj3(
        "name",
        jstr("privacy_anonymize"),
        "description",
        jstr("Anonymize PII in text. Returns text with fake values replacing real PII."),
        "inputSchema",
        text_schema_exec("Text containing PII to anonymize"),
    );
    let deanonymize = obj3(
        "name",
        jstr("privacy_deanonymize"),
        "description",
        jstr("Restore original PII values in text that was previously anonymized."),
        "inputSchema",
        text_schema_exec("Text containing fake PII to restore"),
    );
    assert(members_view(Seq::<(String, JsonValue)>::empty()) =~= seq![]);
    let status_schema = obj2("type", jstr("object"), "properties", JsonValue::Object(Vec::new()));
    let status = obj3(
        "name",
        jstr("privacy_status"),
        "description",
        jstr("Show current mapping statistics."),
        "inputSchema",
        status_schema,
    );
    let result = obj1("tools", arr3(anonymize, deanonymize, status));
    envelope_exec(id, "result", result)
}

/// The reply to a tool call whose tool answered `text`.
pub fn tool_reply_exec(id: JsonValue, text: String) -> (r: JsonValue)
    ensures
        json_view(r) == tool_reply(json_view(id), text@),
{
    let item = obj2("type", jstr("text"), "text", JsonValue::String(text));
    let result = obj1("content", arr1(item));
    envelope_exec(id, "result", result)
}

/// The reply to an unknown method.
pub fn unknown_method_reply_exec(id: JsonValue, method: &str) -> (r: JsonValue)
    ensures
        json_view(r) == unknown_method_reply(json_view(id), method@),
{
    let mut msg = chars_of("Unknown method: ");
    push_all(&mut msg, &chars_of(method));
    let err = obj2(
        "code",
        JsonValue::Number(owned("-32601")),
        "message",
        JsonValue::String(string_of(&msg)),
    );
    envelope_exec(id, "error", err)
}

/// The reply to a line that is not JSON.
pub fn parse_error_reply_exec() -> (r: JsonValue)
    ensures
        json_view(r) == parse_error_reply(),
{
    let err = obj2(
        "code",
        JsonValue::Number(owned("-32700")),
        "message",
        jstr("Parse error"),
    );
    envelope_exec(JsonValue::Null, "error", err)
}

// ---------------------------------------------------------------------------
// The status text
// ---------------------------------------------------------------------------

/// What `format!("{:?}", s)` gives for a string: `s` quoted, with the
/// characters that `str`'s `Debug` escapes escaped.
pub uninterp spec fn debug_str(s: Seq<char>) -> Seq<char>;

/// `format!("{:?}", s)`.
#[verifier::external_body]
fn debug_quoted(s: &str) -> (r: String)
    ensures
        r@ == debug_str(s@),
{
    format!("{:?}", s)
}

/// `"type": count, ...` for the listed entity types, as a map's `Debug`
/// writes its entries.
pub open spec fn type_entries(es: Seq<(String, usize)>) -> Seq<char>
    decreases es.len(),
{
    if es.len() == 0 {
        Seq::empty()
    } else {
        let item = debug_str(es.last().0@) + ": "@ + dec(es.last().1 as nat);
        if es.len() == 1 {
            item
        } else {
            type_entries(es.drop_last()) + ", "@ + item
        }
    }
}

/// `es` lists each entity type of the rows once, with its number of rows.
pub open spec fn lists_type_counts(es: Seq<(String, usize)>, rows: Seq<EntityMapping>) -> bool {
    &&& entry_keys(es).no_duplicates()
    &&& forall|t: Seq<char>| entry_keys(es).contains(t) <==> type_count(rows, t) > 0
    &&& forall|i: int| 0 <= i < es.len() ==> (#[trigger] es[i]).1 == type_count(rows, es[i].0@)
}

/// The text of the status tool for the given counts and listed types.
pub open spec fn status_text(total: nat, cache: nat, es: Seq<(String, usize)>) -> Seq<char> {
    "Mappings: "@ + dec(total) + ", Cache: "@ + dec(cache) + ", Types: {"@ + type_entries(es) + "}"@
}

/// `s` is the text of the status tool for the store: the numbers of mappings
/// and cache entries, and each entity type with its number of mappings, the
/// types in some order.
pub open spec fn is_status_of(s: Seq<char>, store: MappingStore) -> bool {
    exists|es: Seq<(String, usize)>|
        #[trigger] lists_type_counts(es, store.mapping_rows()) && s == status_text(
            store.mapping_rows().len(),
            store.cache_entries().len(),
            es,
        )
}

/// In a list without duplicates, the position of the element at `i` is `i`.
proof fn lemma_index_of_unique(s: Seq<Seq<char>>, i: int)
    requires
        s.no_duplicates(),
        0 <= i < s.len(),
    ensures
        s.index_of(s[i]) == i,
{
    assert(s.contains(s[i]));
    let j = s.index_of(s[i]);
    assert(0 <= j < s.len() && s[j] == s[i]);
}

/// The method names the server knows are distinct.
proof fn lemma_methods_distinct()
    ensures
        "initialize"@ != "tools/call"@,
        "notifications/initialized"@ != "tools/call"@,
        "tools/list"@ != "tools/call"@,
        "initialize"@ != "notifications/initialized"@,
        "initialize"@ != "tools/list"@,
        "notifications/initialized"@ != "tools/list"@,
{
    reveal_strlit("initialize");
    reveal_strlit("tools/call");
    reveal_strlit("notifications/initialized");
    reveal_strlit("tools/list");
    assert(("initialize"@)[0] != ("tools/call"@)[0]);
    assert(("tools/list"@)[6] != ("tools/call"@)[6]);
    assert(("initialize"@)[0] != ("tools/list"@)[0]);
}

/// The tool names the server knows are distinct.
proof fn lemma_tools_distinct()
    ensures
        "privacy_status"@ != "privacy_anonymize"@,
        "privacy_deanonymize"@ != "privacy_anonymize"@,
        "privacy_status"@ != "privacy_deanonymize"@,
{
    reveal_strlit("privacy_status");
    reveal_strlit("privacy_anonymize");
    reveal_strlit("privacy_deanonymize");
    assert(("privacy_status"@).len() != ("privacy_anonymize"@).len());
    assert(("privacy_deanonymize"@).len() != ("privacy_anonymize"@).len());
    assert(("privacy_status"@).len() != ("privacy_deanonymize"@).len());
}

// ---------------------------------------------------------------------------
// The server
// ---------------------------------------------------------------------------

/// What a message asks of the server.
pub enum ServerStep {
    /// Send this reply.
    Reply(JsonValue),
    /// Anonymise `text`: detect its entities, then call
    /// [`McpServer::finish_anonymize`] with `id`.
    Anonymize { id: JsonValue, text: String },
}

/// What a tool call asks of the server.
pub enum ToolStep {
    /// The tool's answer.
    Answer(String),
    /// Anonymise this text (the detectors must run first).
    Anonymize(String),
}

/// The id of a message, null when it has none.
pub open spec fn message_id(m: JsonView) -> JsonView {
    field_or(m, "id"@, JsonView::Null)
}

/// The method of a message, empty when it has none.
pub open spec fn message_method(m: JsonView) -> Seq<char> {
    str_field(m, "method"@)
}

/// The parameters of a message, `{}` when it has none.
pub open spec fn message_params(m: JsonView) -> JsonView {
    field_or(m, "params"@, JsonView::Object(seq![]))
}

/// The tool a call names.
pub open spec fn call_tool(m: JsonView) -> Seq<char> {
    str_field(message_params(m), "name"@)
}

/// The arguments of a call, `{}` when it has none.
pub open spec fn call_args(m: JsonView) -> JsonView {
    field_or(message_params(m), "arguments"@, JsonView::Object(seq![]))
}

/// `a` is what a tool other than `privacy_anonymize` answers for the text
/// argument `text`: `privacy_deanonymize` de-anonymises it, `privacy_status`
/// gives the status text, any other tool is unknown.
pub open spec fn is_tool_answer(a: Seq<char>, tool: Seq<char>, text: Seq<char>, store: MappingStore) -> bool {
    if tool == "privacy_deanonymize"@ {
        a == deanonymized(text, store.reverse_pairs())
    } else if tool == "privacy_status"@ {
        is_status_of(a, store)
    } else {
        a == "Unknown tool: "@ + tool
    }
}

/// The reply to a message that is not an anonymising call, given the answer
/// a called tool gives.
pub open spec fn message_reply(m: JsonView, answer: Seq<char>) -> JsonView {
    let id = message_id(m);
    let method = message_method(m);
    if method == "initialize"@ {
        initialize_reply(id)
    } else if method == "notifications/initialized"@ {
        JsonView::Null
    } else if method == "tools/list"@ {
        tools_list_reply(id)
    } else if method == "tools/call"@ {
        tool_reply(id, answer)
    } else {
        unknown_method_reply(id, method)
    }
}

/// The message calls `privacy_anonymize`.
pub open spec fn is_anonymize_call(m: JsonView) -> bool {
    message_method(m) == "tools/call"@ && call_tool(m) == "privacy_anonymize"@
}

/// The language-model cache after storing `ents` for `text` and `model`.
pub open spec fn cache_stored(
    before: Seq<LlmCacheEntry>,
    after: Seq<LlmCacheEntry>,
    text: Seq<char>,
    model: Seq<char>,
    ents: Seq<DetectedEntity>,
) -> bool {
    &&& after.len() >= 1
    &&& after == insert_cache(before, after.last())
    &&& after.last().text_hash@ == value_hash(text)
    &&& after.last().original_text@ == text
    &&& after.last().llm_result@ == ents
    &&& after.last().model_name@ == model
}

/// The model's answer, or nothing when it gave none.
pub open spec fn answer_or_empty(answer: Option<Vec<DetectedEntity>>) -> Seq<DetectedEntity> {
    match answer {
        Some(a) => a@,
        None => Seq::empty(),
    }
}

/// The model is asked, and its answer cached, in this mode: the language
/// model is used, reachable, and has nothing cached for the text.
pub open spec fn asks_model(mode: DetectionMode, cached: Option<Seq<DetectedEntity>>, available: bool) -> bool {
    (mode == DetectionMode::Llm || mode == DetectionMode::RegexLlm) && available && cached is None
}

/// The detections the server anonymises a text with, before the known values
/// are added: the regular-expression ones, the language-model ones (cached,
/// or the model's answer when it is reachable), or the recogniser's, as the
/// mode says.
pub open spec fn gathered(
    mode: DetectionMode,
    regex: Seq<DetectedEntity>,
    cached: Option<Seq<DetectedEntity>>,
    available: bool,
    answer: Option<Vec<DetectedEntity>>,
    ner: Option<Vec<DetectedEntity>>,
) -> Seq<DetectedEntity> {
    let llm = match cached {
        Some(c) => c,
        None => if available {
            answer_or_empty(answer)
        } else {
            Seq::empty()
        },
    };
    match mode {
        DetectionMode::Regex => regex,
        DetectionMode::Llm => llm,
        DetectionMode::RegexLlm => if available {
            regex + llm
        } else {
            regex
        },
        DetectionMode::RegexNer => regex + answer_or_empty(ner),
    }
}

/// The standalone server: its fake-value generator, its mapping store, the
/// detection mode and the language model's name.
pub struct McpServer {
    faker_engine: FakerEngine,
    mapping_store: MappingStore,
    detection_mode: DetectionMode,
    model_name: String,
}

impl McpServer {
    /// The server's mapping store.
    pub closed spec fn store(&self) -> MappingStore {
        self.mapping_store
    }

    /// The detection mode.
    pub closed spec fn mode(&self) -> DetectionMode {
        self.detection_mode
    }

    /// The language model's name.
    pub closed spec fn model(&self) -> Seq<char> {
        self.model_name@
    }

    /// A server with a new generator and an empty store (expired entries
    /// removed, which reads the clock when a retention period is set).
    pub fn new(
        faker: &FakerConfig,
        mapping: MappingConfig,
        detection_mode: DetectionMode,
        model_name: String,
    ) -> (r: Result<Self, ConcealError>)
        ensures
            match r {
                Ok(s) => {
                    &&& s.store().mapping_rows().len() == 0
                    &&& s.store().cache_entries().len() == 0
                    &&& s.store().reverse_pairs().len() == 0
                    &&& s.store().retention() == mapping.retention_days
                    &&& s.mode() == detection_mode
                    &&& s.model() == model_name@
                },
                Err(e) => e == ConcealError::ClockBeforeUnixEpoch && mapping.retention_days is Some,
            },
    {
        let faker_engine = FakerEngine::new(faker);
        let mapping_store = match MappingStore::new(mapping) {
            Ok(m) => m,
            Err(e) => return Err(e),
        };
        Ok(McpServer { faker_engine, mapping_store, detection_mode, model_name })
    }

    /// A server over a given generator and store.
    pub fn with_store(
        faker_engine: FakerEngine,
        mapping_store: MappingStore,
        detection_mode: DetectionMode,
        model_name: String,
    ) -> (r: Self)
        ensures
            r.store() == mapping_store,
            r.mode() == detection_mode,
            r.model() == model_name@,
    {
        McpServer { faker_engine, mapping_store, detection_mode, model_name }
    }

    /// The mapping store.
    pub fn mapping_store(&self) -> (r: &MappingStore)
        ensures
            *r == self.store(),
    {
        &self.mapping_store
    }

    /// The detection mode.
    pub fn detection_mode(&self) -> (r: DetectionMode)
        ensures
            r == self.mode(),
    {
        self.detection_mode
    }

    /// The language model's name.
    pub fn model_name(&self) -> (r: &String)
        ensures
            r@ == self.model(),
    {
        &self.model_name
    }

    /// Whether every stored original value is non-empty, which searching a
    /// text for the known values needs.
    pub fn known_values_searchable(&self) -> (r: bool)
        ensures
            r == originals_nonempty(self.store().reverse_pairs()),
    {
        let pairs = match self.mapping_store.get_all_reverse_entries() {
            Ok(p) => p,
            Err(_) => return false,
        };
        let mut i: usize = 0;
        while i < pairs.len()
            invariant
                i <= pairs@.len(),
                pairs@ == self.mapping_store.reverse_pairs(),
                forall|j: int| 0 <= j < i ==> (#[trigger] pairs@[j]).1@.len() > 0,
            decreases pairs@.len() - i,
        {
            if pairs[i].1.as_str().is_empty() {
                assert(pairs@[i as int].1@.len() == 0);
                return false;
            }
            i = i + 1;
        }
        true
    }

    /// The detections of the values the store already knows (see
    /// [`detect_known_entities`]).
    pub fn detect_known_entities(&self, text: &str) -> (r: Vec<DetectedEntity>)
        requires
            originals_nonempty(self.store().reverse_pairs()),
        ensures
            are_known_entities(r@, known_spans(text@, self.store().reverse_pairs())),
    {
        let pairs = match self.mapping_store.get_all_reverse_entries() {
            Ok(p) => p,
            Err(_) => return Vec::new(),
        };
        detect_known_entities(text, &pairs)
    }

    /// The detections a text is anonymised with, given what the detectors
    /// gave: `regex` from the regular expressions, whether the language model
    /// is reachable and its answer (`None` when it failed), and the
    /// recogniser's detections (`None` when there is no recogniser or it
    /// failed). Language-model detections come from the cache when it has
    /// them; otherwise the model's answer is cached, an empty one when it
    /// failed (see [`gathered`] and [`asks_model`]).
    pub fn gather_entities(
        &mut self,
        text: &str,
        regex: Vec<DetectedEntity>,
        llm_available: bool,
        llm_answer: Option<Vec<DetectedEntity>>,
        ner: Option<Vec<DetectedEntity>>,
    ) -> (r: Result<Vec<DetectedEntity>, ConcealError>)
        ensures
            tables(final(self).store()) == tables(old(self).store()),
            final(self).store().retention() == old(self).store().retention(),
            final(self).mode() == old(self).mode(),
            final(self).model() == old(self).model(),
            ({
                let cached = lookup_cache(
                    old(self).store().cache_entries(),
                    value_hash(text@),
                    old(self).model(),
                );
                let asked = asks_model(old(self).mode(), cached, llm_available);
                match r {
                    Ok(v) => {
                        &&& v@ == gathered(
                            old(self).mode(),
                            regex@,
                            cached,
                            llm_available,
                            llm_answer,
                            ner,
                        )
                        &&& asked ==> cache_stored(
                            old(self).store().cache_entries(),
                            final(self).store().cache_entries(),
                            text@,
                            old(self).model(),
                            answer_or_empty(llm_answer),
                        )
                        &&& !asked ==> final(self).store().cache_entries() == old(
                            self,
                        ).store().cache_entries()
                    },
                    Err(e) => {
                        &&& e == ConcealError::ClockBeforeUnixEpoch
                        &&& asked
                        &&& final(self).store().cache_entries() == old(self).store().cache_entries()
                    },
                }
            }),
    {
        let mode = self.detection_mode;
        if mode == DetectionMode::Regex {
            return Ok(regex);
        }
        if mode == DetectionMode::RegexNer {
            let mut all = regex;
            match ner {
                Some(mut n) => {
                    all.append(&mut n);
                },
                None => {},
            }
            return Ok(all);
        }
        let cached = match self.mapping_store.get_llm_cache(text, self.model_name.as_str()) {
            Ok(c) => c,
            Err(e) => return Err(e),
        };
        let llm: Vec<DetectedEntity> = match cached {
            Some(c) => c,
            None => {
                if llm_available {
                    let ents = match llm_answer {
                        Some(a) => a,
                        None => Vec::new(),
                    };
                    match self.mapping_store.store_llm_cache(
                        text,
                        ents.as_slice(),
                        self.model_name.as_str(),
                    ) {
                        Ok(_) => {},
                        Err(e) => return Err(e),
                    }
                    ents
                } else {
                    Vec::new()
                }
            },
        };
        if mode == DetectionMode::Llm {
            Ok(llm)
        } else if llm_available {
            let mut all = regex;
            let mut l = llm;
            all.append(&mut l);
            Ok(all)
        } else {
            Ok(regex)
        }
    }

    /// The text of the status tool: `Mappings: <n>, Cache: <m>, Types: {...}`
    /// with each entity type and its number of mappings.
    pub fn status_text(&self) -> (r: String)
        ensures
            is_status_of(r@, self.store()),
    {
        let stats = match self.mapping_store.get_statistics() {
            Ok(s) => s,
            Err(e) => {
                let mut m = chars_of("Error: ");
                push_all(&mut m, &chars_of(e.message().as_str()));
                return string_of(&m);
            },
        };
        let es = stats.mappings_by_type.entries();
        let ghost rows = self.mapping_store.mapping_rows();
        proof {
            assert forall|t: Seq<char>| entry_keys(es@).contains(t) <==> type_count(rows, t) > 0 by {
                assert(stats.mappings_by_type@.contains_key(t) <==> entry_keys(es@).contains(t));
            }
            assert forall|i: int| 0 <= i < es@.len() implies (#[trigger] es@[i]).1 == type_count(
                rows,
                es@[i].0@,
            ) by {
                let ks = entry_keys(es@);
                assert(ks[i] == es@[i].0@);
                lemma_index_of_unique(ks, i);
                assert(ks.contains(es@[i].0@));
                assert(stats.mappings_by_type@.contains_key(es@[i].0@));
                assert(stats.mappings_by_type@[es@[i].0@] == es@[ks.index_of(es@[i].0@)].1);
            }
        }
        let mut out = chars_of("Mappings: ");
        push_all(&mut out, &dec_exec(stats.total_mappings as u128));
        push_all(&mut out, &chars_of(", Cache: "));
        push_all(&mut out, &dec_exec(stats.total_cache_entries as u128));
        push_all(&mut out, &chars_of(", Types: {"));
        let ghost head = out@;
        let mut i: usize = 0;
        while i < es.len()
            invariant
                i <= es@.len(),
                out@ == head + type_entries(es@.take(i as int)),
            decreases es@.len() - i,
        {
            if i > 0 {
                push_all(&mut out, &chars_of(", "));
            }
            push_all(&mut out, &chars_of(debug_quoted(es[i].0.as_str()).as_str()));
            push_all(&mut out, &chars_of(": "));
            push_all(&mut out, &dec_exec(es[i].1 as u128));
            proof {
                let t = es@.take(i + 1);
                assert(t.drop_last() =~= es@.take(i as int));
                assert(t.last() == es@[i as int]);
                if i == 0 {
                    assert(es@.take(0).len() == 0);
                }
            }
            i = i + 1;
        }
        push_all(&mut out, &chars_of("}"));
        assert(es@.take(i as int) =~= es@);
        let r = string_of(&out);
        assert(lists_type_counts(es@, rows));
        assert(r@ == status_text(rows.len(), self.mapping_store.cache_entries().len(), es@));
        r
    }

    /// Answers a tool call (see [`is_tool_answer`]); `privacy_anonymize` is
    /// left to the caller, who runs the detectors and then
    /// [`McpServer::finish_anonymize`].
    pub fn handle_tool_call(&self, tool: &str, args: &JsonValue) -> (r: ToolStep)
        ensures
            tool@ == "privacy_anonymize"@ ==> (r matches ToolStep::Anonymize(t) && t@ == str_field(
                json_view(*args),
                "text"@,
            )),
            tool@ != "privacy_anonymize"@ ==> (r matches ToolStep::Answer(a) && is_tool_answer(
                a@,
                tool@,
                str_field(json_view(*args), "text"@),
                self.store(),
            )),
    {
        let t = chars_of(tool);
        if chars_eq(&t, &chars_of("privacy_anonymize")) {
            return ToolStep::Anonymize(get_str_field(args, "text"));
        }
        if chars_eq(&t, &chars_of("privacy_deanonymize")) {
            let text = get_str_field(args, "text");
            let deanon = match deanonymize_text(text.as_str(), &self.mapping_store) {
                Ok(d) => d,
                Err(e) => {
                    let mut m = chars_of("Error: ");
                    push_all(&mut m, &chars_of(e.message().as_str()));
                    string_of(&m)
                },
            };
            ToolStep::Answer(deanon)
        } else if chars_eq(&t, &chars_of("privacy_status")) {
            proof {
                lemma_tools_distinct();
            }
            ToolStep::Answer(self.status_text())
        } else {
            let mut m = chars_of("Unknown tool: ");
            push_all(&mut m, &t);
            ToolStep::Answer(string_of(&m))
        }
    }

    /// Answers a JSON-RPC message: `initialize`, `notifications/initialized`
    /// (answered by a JSON null), `tools/list`, `tools/call`, and an error for
    /// any other method (see [`message_reply`]). A call of
    /// `privacy_anonymize` is left to the caller with the message's id and
    /// the text argument.
    pub fn handle_message(&self, msg: &JsonValue) -> (r: ServerStep)
        ensures
            is_anonymize_call(json_view(*msg)) ==> (r matches ServerStep::Anonymize { id, text }
                && json_view(id) == message_id(json_view(*msg)) && text@ == str_field(
                call_args(json_view(*msg)),
                "text"@,
            )),
            !is_anonymize_call(json_view(*msg)) ==> (r matches ServerStep::Reply(v) && exists|
                a: Seq<char>,
            |
                json_view(v) == #[trigger] message_reply(json_view(*msg), a) && (message_method(
                    json_view(*msg),
                ) == "tools/call"@ ==> is_tool_answer(
                    a,
                    call_tool(json_view(*msg)),
                    str_field(call_args(json_view(*msg)), "text"@),
                    self.store(),
                ))),
    {
        let ghost m = json_view(*msg);
        let id = match get_field(msg, "id") {
            Some(v) => copy_json(v),
            None => JsonValue::Null,
        };
        assert(json_view(id) == message_id(m));
        let method = chars_of(get_str_field(msg, "method").as_str());
        let ghost none = Seq::<char>::empty();
        if chars_eq(&method, &chars_of("initialize")) {
            proof {
                lemma_methods_distinct();
            }
            let v = initialize_reply_exec(id);
            assert(json_view(v) == message_reply(m, none));
            return ServerStep::Reply(v);
        }
        if chars_eq(&method, &chars_of("notifications/initialized")) {
            proof {
                lemma_methods_distinct();
            }
            let v = JsonValue::Null;
            assert(json_view(v) == message_reply(m, none));
            return ServerStep::Reply(v);
        }
        if chars_eq(&method, &chars_of("tools/list")) {
            proof {
                lemma_methods_distinct();
            }
            let v = tools_list_reply_exec(id);
            assert(json_view(v) == message_reply(m, none));
            return ServerStep::Reply(v);
        }
        if chars_eq(&method, &chars_of("tools/call")) {
            let empty_params = JsonValue::Object(Vec::new());
            assert(json_view(empty_params) == JsonView::Object(seq![])) by {
                assert(members_view(Seq::<(String, JsonValue)>::empty()) =~= seq![]);
            }
            let params = match get_field(msg, "params") {
                Some(p) => p,
                None => &empty_params,
            };
            assert(json_view(*params) == message_params(m));
            let tool = get_str_field(params, "name");
            let empty_args = JsonValue::Object(Vec::new());
            assert(json_view(empty_args) == JsonView::Object(seq![])) by {
                assert(members_view(Seq::<(String, JsonValue)>::empty()) =~= seq![]);
            }
            let args = match get_field(params, "arguments") {
                Some(a) => a,
                None => &empty_args,
            };
            assert(json_view(*args) == call_args(m));
            return match self.handle_tool_call(tool.as_str(), args) {
                ToolStep::Anonymize(text) => ServerStep::Anonymize { id, text },
                ToolStep::Answer(answer) => {
                    let ghost ga = answer@;
                    let v = tool_reply_exec(id, answer);
                    assert(json_view(v) == message_reply(m, ga));
                    ServerStep::Reply(v)
                },
            };
        }
        let v = unknown_method_reply_exec(id, string_of(&method).as_str());
        assert(json_view(v) == message_reply(m, none));
        ServerStep::Reply(v)
    }

    /// Anonymises `text` with the detections gathered for it (see
    /// [`anonymize_text`]) and replies to the call `id` with the result, or
    /// with `Error: ` and the error's text. Also returns the resolved
    /// detections, for the caller to report.
    pub fn finish_anonymize(
        &mut self,
        id: JsonValue,
        text: &str,
        detected: Vec<DetectedEntity>,
    ) -> (r: (JsonValue, Vec<AnonymizedEntity>))
        requires
            originals_nonempty(old(self).store().reverse_pairs()),
        ensures
            final(self).mode() == old(self).mode(),
            final(self).model() == old(self).model(),
            final(self).store().cache_entries() == old(self).store().cache_entries(),
            final(self).store().retention() == old(self).store().retention(),
            exists|known: Seq<DetectedEntity>|
                #[trigger] are_known_entities(known, known_spans(text@, old(self).store().reverse_pairs()))
                    && ({
                    let plan = replacement_plan(detected@, known);
                    ||| (exists|states: Seq<(Seq<EntityMapping>, Seq<(String, String)>)>|
                        #[trigger] resolves(states, plan, r.1@, plan.len() as int) && states[0]
                            == tables(old(self).store()) && states.last() == tables(
                            final(self).store(),
                        ) && json_view(r.0) == tool_reply(
                            json_view(id),
                            replace_firsts(text@, r.1@),
                        ))
                    ||| (exists|
                        states: Seq<(Seq<EntityMapping>, Seq<(String, String)>)>,
                        anons: Seq<AnonymizedEntity>,
                        k: int,
                    |
                        #[trigger] resolves(states, plan, anons, k) && k < plan.len() && states[0]
                            == tables(old(self).store()) && states.last() == tables(
                            final(self).store(),
                        ) && needs_new_fake(states[k].0, plan[k]) && r.1@.len() == 0 && json_view(r.0) == tool_reply(
                            json_view(id),
                            "Error: "@ + error_message(ConcealError::ClockBeforeUnixEpoch),
                        ))
                }),
    {
        let ghost gid = json_view(id);
        match anonymize_text(text, detected, &mut self.faker_engine, &mut self.mapping_store) {
            Ok((s, anons)) => {
                let ghost ganons = anons@;
                let reply = tool_reply_exec(id, s);
                let r = (reply, anons);
                assert(r.1@ == ganons);
                r
            },
            Err(e) => {
                let mut m = chars_of("Error: ");
                push_all(&mut m, &chars_of(e.message().as_str()));
                let reply = tool_reply_exec(id, string_of(&m));
                (reply, Vec::new())
            },
        }
    }
}

} // verus!
