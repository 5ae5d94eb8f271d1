//! JSON messages as the proxy sees them: which messages are protocol traffic,
//! which strings in a message are candidates for anonymisation, and putting
//! the anonymised strings back.

use crate::deanonymize::byte_len;
use crate::text::{chars_eq, chars_of, owned, string_of, trim, trim_exec};
use vstd::prelude::*;

verus! {

/// A JSON value. Numbers are kept in their textual form; an object keeps its
/// members in order, with distinct keys.
#[derive(Debug)]
pub enum JsonValue {
    Null,
    Bool(bool),
    Number(String),
    String(String),
    Array(Vec<JsonValue>),
    Object(Vec<(String, JsonValue)>),
}

/// The mathematical form of a JSON value.
pub enum JsonView {
    Null,
    Bool(bool),
    Number(Seq<char>),
    Str(Seq<char>),
    Array(Seq<JsonView>),
    Object(Seq<(Seq<char>, JsonView)>),
}

/// The mathematical form of a JSON value.
pub open spec fn json_view(v: JsonValue) -> JsonView
    decreases v,
{
    match v {
        JsonValue::Null => JsonView::Null,
        JsonValue::Bool(b) => JsonView::Bool(b),
        JsonValue::Number(n) => JsonView::Number(n@),
        JsonValue::String(s) => JsonView::Str(s@),
        JsonValue::Array(xs) => JsonView::Array(list_view(xs@)),
        JsonValue::Object(kvs) => JsonView::Object(members_view(kvs@)),
    }
}

/// The mathematical form of a list of values.
pub open spec fn list_view(xs: Seq<JsonValue>) -> Seq<JsonView>
    decreases xs,
{
    if xs.len() == 0 {
        Seq::empty()
    } else {
        list_view(xs.drop_last()).push(json_view(xs.last()))
    }
}

/// The mathematical form of the members of an object.
pub open spec fn members_view(kvs: Seq<(String, JsonValue)>) -> Seq<(Seq<char>, JsonView)>
    decreases kvs,
{
    if kvs.len() == 0 {
        Seq::empty()
    } else {
        members_view(kvs.drop_last()).push((kvs.last().0@, json_view(kvs.last().1)))
    }
}

/// The object has a member `key`.
pub open spec fn has_member(kvs: Seq<(Seq<char>, JsonView)>, key: Seq<char>) -> bool {
    exists|i: int| 0 <= i < kvs.len() && (#[trigger] kvs[i]).0 == key
}

/// The value of the first member `key` of the object.
pub open spec fn member(kvs: Seq<(Seq<char>, JsonView)>, key: Seq<char>) -> Option<JsonView> {
    if has_member(kvs, key) {
        Some(
            kvs[choose|i: int|
                0 <= i < kvs.len() && kvs[i].0 == key && forall|j: int|
                    0 <= j < i ==> (#[trigger] kvs[j]).0 != key].1,
        )
    } else {
        None
    }
}

/// The object's `method` member is the string `tools/call`.
pub open spec fn calls_tool(kvs: Seq<(Seq<char>, JsonView)>) -> bool {
    match member(kvs, "method"@) {
        Some(JsonView::Str(m)) => m == "tools/call"@,
        _ => false,
    }
}

/// The object's `result` member is an object with a `content` member.
pub open spec fn result_has_content(kvs: Seq<(Seq<char>, JsonView)>) -> bool {
    match member(kvs, "result"@) {
        Some(JsonView::Object(r)) => has_member(r, "content"@),
        _ => false,
    }
}

/// A message that the proxy forwards without looking for personal data:
/// protocol negotiation, requests other than tool calls, error responses,
/// and results without content.
pub open spec fn is_protocol_message(v: JsonView) -> bool {
    match v {
        JsonView::Object(kvs) => if has_member(kvs, "protocolVersion"@) || has_member(
            kvs,
            "capabilities"@,
        ) || has_member(kvs, "serverInfo"@) || has_member(kvs, "clientInfo"@) {
            true
        } else if has_member(kvs, "method"@) && has_member(kvs, "id"@) {
            !calls_tool(kvs)
        } else if has_member(kvs, "error"@) && has_member(kvs, "id"@) {
            true
        } else if has_member(kvs, "result"@) && has_member(kvs, "id"@) {
            !result_has_content(kvs)
        } else {
            false
        },
        _ => false,
    }
}

/// The position of the first member named `key`.
fn find_member(kvs: &Vec<(String, JsonValue)>, key: &str) -> (r: Option<usize>)
    ensures
        match r {
            Some(i) => i < kvs@.len() && members_view(kvs@)[i as int].0 == key@ && forall|j: int|
                0 <= j < i ==> (#[trigger] members_view(kvs@)[j]).0 != key@,
            None => !has_member(members_view(kvs@), key@),
        },
{
    proof {
        lemma_members_view(kvs@);
    }
    let k = chars_of(key);
    let mut i: usize = 0;
    while i < kvs.len()
        invariant
            i <= kvs@.len(),
            k@ == key@,
            members_view(kvs@).len() == kvs@.len(),
            forall|j: int|
                0 <= j < kvs@.len() ==> (#[trigger] members_view(kvs@)[j]).0 == kvs@[j].0@,
            forall|j: int| 0 <= j < i ==> (#[trigger] members_view(kvs@)[j]).0 != key@,
        decreases kvs@.len() - i,
    {
        if chars_eq(&chars_of(kvs[i].0.as_str()), &k) {
            assert(members_view(kvs@)[i as int].0 == key@);
            return Some(i);
        }
        assert(members_view(kvs@)[i as int].0 != key@);
        i = i + 1;
    }
    None
}

/// The mathematical form of the members keeps their number, keys and values.
proof fn lemma_members_view(kvs: Seq<(String, JsonValue)>)
    ensures
        members_view(kvs).len() == kvs.len(),
        forall|j: int|
            0 <= j < kvs.len() ==> (#[trigger] members_view(kvs)[j]) == (
                kvs[j].0@,
                json_view(kvs[j].1),
            ),
    decreases kvs.len(),
{
    if kvs.len() > 0 {
        lemma_members_view(kvs.drop_last());
    }
}

/// The mathematical form of a list keeps its length and elements.
proof fn lemma_list_view(xs: Seq<JsonValue>)
    ensures
        list_view(xs).len() == xs.len(),
        forall|j: int| 0 <= j < xs.len() ==> #[trigger] list_view(xs)[j] == json_view(xs[j]),
    decreases xs.len(),
{
    if xs.len() > 0 {
        lemma_list_view(xs.drop_last());
    }
}

/// Whether the object has a member named `key`.
fn has_member_exec(kvs: &Vec<(String, JsonValue)>, key: &str) -> (r: bool)
    ensures
        r == has_member(members_view(kvs@), key@),
{
    match find_member(kvs, key) {
        Some(i) => {
            proof {
                lemma_members_view(kvs@);
            }
            assert((members_view(kvs@)[i as int]).0 == key@);
            true
        },
        None => false,
    }
}

/// The first member named `key`, as the spec picks it.
proof fn lemma_member_at(kvs: Seq<(Seq<char>, JsonView)>, key: Seq<char>, i: int)
    requires
        0 <= i < kvs.len(),
        kvs[i].0 == key,
        forall|j: int| 0 <= j < i ==> (#[trigger] kvs[j]).0 != key,
    ensures
        member(kvs, key) == Some(kvs[i].1),
{
    assert(has_member(kvs, key));
    let k = choose|k: int|
        0 <= k < kvs.len() && kvs[k].0 == key && forall|j: int|
            0 <= j < k ==> (#[trigger] kvs[j]).0 != key;
    if k < i {
        assert(kvs[k].0 != key);
    }
    if i < k {
        assert(kvs[i].0 != key);
    }
}

/// Whether a JSON message is protocol traffic that the proxy forwards
/// without looking for personal data: an object with `protocolVersion`,
/// `capabilities`, `serverInfo` or `clientInfo`; a request (`method` and `id`)
/// other than `tools/call`; an error response; a result response whose result
/// has no `content`. Anything else, a non-object included, is processed.
pub fn is_jsonrpc_protocol_message(json_value: &JsonValue) -> (r: bool)
    ensures
        r == is_protocol_message(json_view(*json_value)),
{
    match json_value {
        JsonValue::Object(kvs) => {
            let ghost mv = members_view(kvs@);
            assert(json_view(*json_value) == JsonView::Object(mv));
            if has_member_exec(kvs, "protocolVersion") || has_member_exec(kvs, "capabilities")
                || has_member_exec(kvs, "serverInfo") || has_member_exec(kvs, "clientInfo") {
                return true;
            }
            if has_member_exec(kvs, "method") && has_member_exec(kvs, "id") {
                let i = find_member(kvs, "method").unwrap();
                proof {
                    lemma_member_at(mv, "method"@, i as int);
                    lemma_members_view(kvs@);
                }
                let is_call = match &kvs[i].1 {
                    JsonValue::String(m) => chars_eq(&chars_of(m.as_str()), &chars_of("tools/call")),
                    _ => false,
                };
                return !is_call;
            }
            if has_member_exec(kvs, "error") && has_member_exec(kvs, "id") {
                return true;
            }
            if has_member_exec(kvs, "result") && has_member_exec(kvs, "id") {
                let i = find_member(kvs, "result").unwrap();
                proof {
                    lemma_member_at(mv, "result"@, i as int);
                    lemma_members_view(kvs@);
                }
                let has_content = match &kvs[i].1 {
                    JsonValue::Object(r) => has_member_exec(r, "content"),
                    _ => false,
                };
                return !has_content;
            }
            false
        },
        _ => false,
    }
}

// ---------------------------------------------------------------------------
// Strings to anonymise
// ---------------------------------------------------------------------------

/// A string worth looking at: more than three bytes once trimmed.
pub open spec fn is_candidate(s: Seq<char>) -> bool {
    byte_len(trim(s)) > 3
}

/// The strings of a value worth looking at, in document order.
pub open spec fn candidates(v: JsonView) -> Seq<Seq<char>>
    decreases v,
{
    match v {
        JsonView::Str(s) => if is_candidate(s) {
            seq![s]
        } else {
            Seq::empty()
        },
        JsonView::Array(xs) => list_candidates(xs),
        JsonView::Object(kvs) => member_candidates(kvs),
        _ => Seq::empty(),
    }
}

/// The candidate strings of a list of values, in order.
pub open spec fn list_candidates(xs: Seq<JsonView>) -> Seq<Seq<char>>
    decreases xs,
{
    if xs.len() == 0 {
        Seq::empty()
    } else {
        list_candidates(xs.drop_last()) + candidates(xs.last())
    }
}

/// The candidate strings of the member values of an object, in order.
pub open spec fn member_candidates(kvs: Seq<(Seq<char>, JsonView)>) -> Seq<Seq<char>>
    decreases kvs,
{
    if kvs.len() == 0 {
        Seq::empty()
    } else {
        member_candidates(kvs.drop_last()) + candidates(kvs.last().1)
    }
}

/// The character views of a list of strings.
pub open spec fn string_views(v: Seq<String>) -> Seq<Seq<char>> {
    v.map_values(|s: String| s@)
}

/// Whether `s` is worth looking at.
fn is_candidate_exec(s: &String) -> (r: bool)
    ensures
        r == is_candidate(s@),
{
    let t = trim_exec(&chars_of(s.as_str()));
    string_of(&t).as_str().len() > 3
}

/// Appends the candidate strings of `v` to `out`.
fn collect_into(v: &JsonValue, out: &mut Vec<String>)
    ensures
        string_views(final(out)@) == string_views(old(out)@) + candidates(json_view(*v)),
    decreases v,
{
    match v {
        JsonValue::String(s) => {
            if is_candidate_exec(s) {
                out.push(s.clone());
                assert(string_views(out@) =~= string_views(old(out)@) + seq![s@]);
            } else {
                assert(string_views(out@) =~= string_views(old(out)@) + Seq::<Seq<char>>::empty());
            }
        },
        JsonValue::Array(xs) => {
            let mut i: usize = 0;
            proof {
                lemma_list_view(xs@);
            }
            assert(list_view(xs@.take(0)) =~= Seq::<JsonView>::empty());
            assert(string_views(out@) =~= string_views(old(out)@) + list_candidates(
                list_view(xs@.take(0)),
            ));
            while i < xs.len()
                invariant
                    i <= xs@.len(),
                    *v == JsonValue::Array(*xs),
                    string_views(out@) == string_views(old(out)@) + list_candidates(
                        list_view(xs@.take(i as int)),
                    ),
                decreases xs@.len() - i,
            {
                let ghost pre = xs@.take(i as int);
                let ghost post = xs@.take(i + 1);
                assert(post.drop_last() =~= pre);
                assert(post.last() == xs@[i as int]);
                let ghost lv = list_view(post);
                assert(lv == list_view(pre).push(json_view(xs@[i as int])));
                assert(lv.drop_last() =~= list_view(pre));
                assert(list_candidates(lv) == list_candidates(list_view(pre)) + candidates(
                    json_view(xs@[i as int]),
                ));
                assert(decreases_to!(*v => (*v)->Array_0));
                assert(decreases_to!(*xs => xs@));
                assert(decreases_to!(xs@ => xs@[i as int]));
                assert(decreases_to!(*v => xs@[i as int]));
                collect_into(&xs[i], out);
                i = i + 1;
                assert(string_views(out@) =~= string_views(old(out)@) + list_candidates(
                    list_view(xs@.take(i as int)),
                ));
            }
            assert(xs@.take(i as int) =~= xs@);
        },
        JsonValue::Object(kvs) => {
            let mut i: usize = 0;
            assert(members_view(kvs@.take(0)) =~= Seq::<(Seq<char>, JsonView)>::empty());
            assert(string_views(out@) =~= string_views(old(out)@) + member_candidates(
                members_view(kvs@.take(0)),
            ));
            while i < kvs.len()
                invariant
                    i <= kvs@.len(),
                    *v == JsonValue::Object(*kvs),
                    string_views(out@) == string_views(old(out)@) + member_candidates(
                        members_view(kvs@.take(i as int)),
                    ),
                decreases kvs@.len() - i,
            {
                let ghost pre = kvs@.take(i as int);
                let ghost post = kvs@.take(i + 1);
                assert(post.drop_last() =~= pre);
                assert(post.last() == kvs@[i as int]);
                let ghost mv = members_view(post);
                assert(mv == members_view(pre).push((kvs@[i as int].0@, json_view(kvs@[i as int].1))));
                assert(mv.drop_last() =~= members_view(pre));
                assert(member_candidates(mv) == member_candidates(members_view(pre)) + candidates(
                    json_view(kvs@[i as int].1),
                ));
                assert(decreases_to!(*v => (*v)->Object_0));
                assert(decreases_to!(*kvs => kvs@));
                assert(decreases_to!(kvs@ => kvs@[i as int]));
                assert(decreases_to!(kvs@[i as int] => kvs@[i as int].1));
                assert(decreases_to!(*v => kvs@[i as int].1));
                collect_into(&kvs[i].1, out);
                i = i + 1;
                assert(string_views(out@) =~= string_views(old(out)@) + member_candidates(
                    members_view(kvs@.take(i as int)),
                ));
            }
            assert(kvs@.take(i as int) =~= kvs@);
        },
        _ => {
            assert(string_views(out@) =~= string_views(old(out)@) + Seq::<Seq<char>>::empty());
        },
    }
}

/// The strings of a message worth looking for personal data in: strings of
/// more than three bytes once trimmed, in document order (array elements and
/// object members in order).
pub fn pii_candidates(value: &JsonValue) -> (r: Vec<String>)
    ensures
        string_views(r@) == candidates(json_view(*value)),
{
    let mut out: Vec<String> = Vec::new();
    collect_into(value, &mut out);
    assert(string_views(Seq::<String>::empty()) =~= Seq::<Seq<char>>::empty());
    assert(Seq::<Seq<char>>::empty() + candidates(json_view(*value)) =~= candidates(
        json_view(*value),
    ));
    out
}

// ---------------------------------------------------------------------------
// Putting anonymised strings back
// ---------------------------------------------------------------------------

/// The character views of a list of optional strings.
pub open spec fn option_views(rs: Seq<Option<String>>) -> Seq<Option<Seq<char>>> {
    rs.map_values(|r: Option<String>| match r {
        Some(s) => Some(s@),
        None => None,
    })
}

/// The value with its candidate strings, in document order, replaced by the
/// given results: a `Some` result replaces its string, a `None` result leaves
/// it.
pub open spec fn rewrite(v: JsonView, rs: Seq<Option<Seq<char>>>) -> JsonView
    decreases v,
{
    match v {
        JsonView::Str(s) => if is_candidate(s) && rs.len() > 0 {
            match rs[0] {
                Some(n) => JsonView::Str(n),
                None => v,
            }
        } else {
            v
        },
        JsonView::Array(xs) => JsonView::Array(rewrite_list(xs, rs)),
        JsonView::Object(kvs) => JsonView::Object(rewrite_members(kvs, rs)),
        _ => v,
    }
}

/// The list with each value rewritten by its share of the results.
pub open spec fn rewrite_list(xs: Seq<JsonView>, rs: Seq<Option<Seq<char>>>) -> Seq<JsonView>
    decreases xs,
{
    if xs.len() == 0 {
        Seq::empty()
    } else {
        let k = list_candidates(xs.drop_last()).len() as int;
        rewrite_list(xs.drop_last(), rs.take(k)).push(rewrite(xs.last(), rs.skip(k)))
    }
}

/// The members with each value rewritten by its share of the results.
pub open spec fn rewrite_members(kvs: Seq<(Seq<char>, JsonView)>, rs: Seq<Option<Seq<char>>>) -> Seq<
    (Seq<char>, JsonView),
>
    decreases kvs,
{
    if kvs.len() == 0 {
        Seq::empty()
    } else {
        let k = member_candidates(kvs.drop_last()).len() as int;
        rewrite_members(kvs.drop_last(), rs.take(k)).push(
            (kvs.last().0, rewrite(kvs.last().1, rs.skip(k))),
        )
    }
}

/// Some result differs from the string it stands for.
pub open spec fn changes(cands: Seq<Seq<char>>, rs: Seq<Option<Seq<char>>>) -> bool {
    exists|i: int|
        0 <= i < cands.len() && i < rs.len() && (#[trigger] rs[i]) is Some && rs[i]->0
            != cands[i]
}

/// A change in a concatenation is a change in one of its parts.
proof fn lemma_changes_concat(
    a: Seq<Seq<char>>,
    b: Seq<Seq<char>>,
    r: Seq<Option<Seq<char>>>,
)
    requires
        r.len() == a.len() + b.len(),
    ensures
        changes(a + b, r) == (changes(a, r.take(a.len() as int)) || changes(
            b,
            r.skip(a.len() as int),
        )),
{
    let ab = a + b;
    if changes(ab, r) {
        let i = choose|i: int|
            0 <= i < ab.len() && i < r.len() && (#[trigger] r[i]) is Some && r[i]->0 != ab[i];
        if i < a.len() {
            assert(r.take(a.len() as int)[i] == r[i]);
            assert(changes(a, r.take(a.len() as int)));
        } else {
            let j = i - a.len();
            assert(r.skip(a.len() as int)[j] == r[i]);
            assert(changes(b, r.skip(a.len() as int)));
        }
    }
    if changes(a, r.take(a.len() as int)) {
        let i = choose|i: int|
            0 <= i < a.len() && i < r.take(a.len() as int).len() && (#[trigger] r.take(
                a.len() as int,
            )[i]) is Some && r.take(a.len() as int)[i]->0 != a[i];
        assert(r[i] == r.take(a.len() as int)[i]);
        assert(ab[i] == a[i]);
    }
    if changes(b, r.skip(a.len() as int)) {
        let j = choose|j: int|
            0 <= j < b.len() && j < r.skip(a.len() as int).len() && (#[trigger] r.skip(
                a.len() as int,
            )[j]) is Some && r.skip(a.len() as int)[j]->0 != b[j];
        assert(r[j + a.len()] == r.skip(a.len() as int)[j]);
        assert(ab[j + a.len()] == b[j]);
    }
}

/// The mathematical form of a prefix of a list is the prefix of its form.
proof fn lemma_list_view_take(xs: Seq<JsonValue>, m: int)
    requires
        0 <= m <= xs.len(),
    ensures
        list_view(xs.take(m)) == list_view(xs).take(m),
{
    lemma_list_view(xs);
    lemma_list_view(xs.take(m));
    assert(list_view(xs.take(m)) =~= list_view(xs).take(m));
}

/// The mathematical form of a prefix of the members is the prefix of their
/// form.
proof fn lemma_members_view_take(kvs: Seq<(String, JsonValue)>, m: int)
    requires
        0 <= m <= kvs.len(),
    ensures
        members_view(kvs.take(m)) == members_view(kvs).take(m),
{
    lemma_members_view(kvs);
    lemma_members_view(kvs.take(m));
    assert(members_view(kvs.take(m)) =~= members_view(kvs).take(m));
}

/// A prefix of a list has no more candidates than the list.
proof fn lemma_list_candidates_mono(xs: Seq<JsonView>, m: int)
    requires
        0 <= m <= xs.len(),
    ensures
        list_candidates(xs.take(m)).len() <= list_candidates(xs).len(),
    decreases xs.len(),
{
    if m < xs.len() {
        assert(xs.drop_last().take(m) =~= xs.take(m));
        lemma_list_candidates_mono(xs.drop_last(), m);
    } else {
        assert(xs.take(m) =~= xs);
    }
}

/// A prefix of the members has no more candidates than all of them.
proof fn lemma_member_candidates_mono(kvs: Seq<(Seq<char>, JsonView)>, m: int)
    requires
        0 <= m <= kvs.len(),
    ensures
        member_candidates(kvs.take(m)).len() <= member_candidates(kvs).len(),
    decreases kvs.len(),
{
    if m < kvs.len() {
        assert(kvs.drop_last().take(m) =~= kvs.take(m));
        lemma_member_candidates_mono(kvs.drop_last(), m);
    } else {
        assert(kvs.take(m) =~= kvs);
    }
}

/// Each result is missing or equal to the string it stands for.
pub open spec fn keeps(cands: Seq<Seq<char>>, rs: Seq<Option<Seq<char>>>) -> bool {
    rs.len() == cands.len() && forall|i: int|
        0 <= i < rs.len() ==> (#[trigger] rs[i]) is None || rs[i]->0 == cands[i]
}

/// Splitting kept results along a concatenation keeps each part.
proof fn lemma_keeps_split(a: Seq<Seq<char>>, b: Seq<Seq<char>>, rs: Seq<Option<Seq<char>>>)
    requires
        keeps(a + b, rs),
    ensures
        keeps(a, rs.take(a.len() as int)),
        keeps(b, rs.skip(a.len() as int)),
{
    let ab = a + b;
    assert forall|i: int| 0 <= i < a.len() implies (#[trigger] rs.take(a.len() as int)[i]) is None
        || rs.take(a.len() as int)[i]->0 == a[i] by {
        assert(rs.take(a.len() as int)[i] == rs[i]);
        assert(ab[i] == a[i]);
    }
    assert forall|i: int| 0 <= i < b.len() implies (#[trigger] rs.skip(a.len() as int)[i]) is None
        || rs.skip(a.len() as int)[i]->0 == b[i] by {
        assert(rs.skip(a.len() as int)[i] == rs[i + a.len()]);
        assert(ab[i + a.len()] == b[i]);
    }
}

/// Results that leave every string as it is leave the value as it is.
pub proof fn lemma_rewrite_identity(v: JsonView, rs: Seq<Option<Seq<char>>>)
    requires
        keeps(candidates(v), rs),
    ensures
        rewrite(v, rs) == v,
    decreases v,
{
    match v {
        JsonView::Str(s) => {
            if is_candidate(s) && rs.len() > 0 {
                assert(candidates(v) == seq![s]);
                assert(rs[0] is None || rs[0]->0 == s);
            }
        },
        JsonView::Array(xs) => {
            lemma_rewrite_list_identity(xs, rs);
        },
        JsonView::Object(kvs) => {
            lemma_rewrite_members_identity(kvs, rs);
        },
        _ => {},
    }
}

/// Results that leave every string as it is leave a list as it is.
proof fn lemma_rewrite_list_identity(xs: Seq<JsonView>, rs: Seq<Option<Seq<char>>>)
    requires
        keeps(list_candidates(xs), rs),
    ensures
        rewrite_list(xs, rs) == xs,
    decreases xs,
{
    if xs.len() > 0 {
        let k = list_candidates(xs.drop_last()).len() as int;
        lemma_keeps_split(list_candidates(xs.drop_last()), candidates(xs.last()), rs);
        lemma_rewrite_list_identity(xs.drop_last(), rs.take(k));
        lemma_rewrite_identity(xs.last(), rs.skip(k));
        assert(rewrite_list(xs, rs) =~= xs);
    }
}

/// Results that leave every string as it is leave the members as they are.
proof fn lemma_rewrite_members_identity(
    kvs: Seq<(Seq<char>, JsonView)>,
    rs: Seq<Option<Seq<char>>>,
)
    requires
        keeps(member_candidates(kvs), rs),
    ensures
        rewrite_members(kvs, rs) == kvs,
    decreases kvs,
{
    if kvs.len() > 0 {
        let k = member_candidates(kvs.drop_last()).len() as int;
        lemma_keeps_split(member_candidates(kvs.drop_last()), candidates(kvs.last().1), rs);
        lemma_rewrite_members_identity(kvs.drop_last(), rs.take(k));
        lemma_rewrite_identity(kvs.last().1, rs.skip(k));
        assert(rewrite_members(kvs, rs) =~= kvs);
    }
}

/// When no result changes its string, putting the results back leaves the
/// message as it is and reports no change, so the proxy forwards the
/// original line.
pub proof fn lemma_unchanged_results(v: JsonView, rs: Seq<Option<Seq<char>>>)
    requires
        keeps(candidates(v), rs),
    ensures
        rewrite(v, rs) == v,
        !changes(candidates(v), rs),
{
    lemma_rewrite_identity(v, rs);
}

/// Rewrites the candidate strings of `v` with the results from `pos` on;
/// returns the value, the position after its share and whether a string
/// changed.
fn rewrite_owned(v: JsonValue, rs: &Vec<Option<String>>, pos: usize) -> (r: (JsonValue, usize, bool))
    requires
        pos + candidates(json_view(v)).len() <= rs@.len(),
    ensures
        r.1 == pos + candidates(json_view(v)).len(),
        json_view(r.0) == rewrite(json_view(v), option_views(rs@).subrange(pos as int, r.1 as int)),
        r.2 == changes(candidates(json_view(v)), option_views(rs@).subrange(pos as int, r.1 as int)),
    decreases v,
{
    let ghost ov = option_views(rs@);
    let ghost gv = v;
    match v {
        JsonValue::String(s) => {
            if is_candidate_exec(&s) {
                assert(candidates(json_view(gv)) == seq![s@]);
                let len = rs.len();
                assert(pos < len);
                let next: usize = pos + 1;
                let ghost sub = ov.subrange(pos as int, next as int);
                assert(sub[0] == ov[pos as int]);
                match &rs[pos] {
                    Some(n) => {
                        assert(ov[pos as int] == Some(n@));
                        let changed = !chars_eq(&chars_of(n.as_str()), &chars_of(s.as_str()));
                        proof {
                            if changed {
                                assert(sub[0] is Some && sub[0]->0 != seq![s@][0]);
                                assert(changes(seq![s@], sub));
                            } else {
                                assert(!changes(seq![s@], sub));
                            }
                        }
                        (JsonValue::String(n.clone()), next, changed)
                    },
                    None => {
                        assert(ov[pos as int] == None::<Seq<char>>);
                        assert(!changes(seq![s@], sub));
                        (JsonValue::String(s), next, false)
                    },
                }
            } else {
                assert(ov.subrange(pos as int, pos as int).len() == 0);
                (JsonValue::String(s), pos, false)
            }
        },
        JsonValue::Array(xs) => {
            let ghost orig = xs@;
            let ghost lv = list_view(orig);
            proof {
                lemma_list_view(orig);
                assert forall|j: int| 0 <= j < orig.len() implies decreases_to!(gv => #[trigger] orig[j]) by {
                    assert(decreases_to!(gv => gv->Array_0));
                    assert(decreases_to!(gv->Array_0 => (gv->Array_0)@));
                    assert(decreases_to!((gv->Array_0)@ => (gv->Array_0)@[j]));
                }
                assert(orig.take(0) =~= Seq::<JsonValue>::empty());
            }
            let mut rest = xs;
            let mut out: Vec<JsonValue> = Vec::new();
            let mut p: usize = pos;
            let mut changed = false;
            let ghost mut k: int = 0;
            assert(ov.subrange(pos as int, pos as int) =~= Seq::<Option<Seq<char>>>::empty());
            while rest.len() > 0
                invariant
                    0 <= k <= orig.len(),
                    rest@ == orig.skip(k),
                    out@.len() == k,
                    lv == list_view(orig),
                    lv.len() == orig.len(),
                    json_view(gv) == JsonView::Array(lv),
                    gv == v,
                    pos + list_candidates(lv).len() <= rs@.len(),
                    ov == option_views(rs@),
                    p == pos + list_candidates(list_view(orig.take(k))).len(),
                    list_view(out@) == rewrite_list(
                        list_view(orig.take(k)),
                        ov.subrange(pos as int, p as int),
                    ),
                    changed == changes(
                        list_candidates(list_view(orig.take(k))),
                        ov.subrange(pos as int, p as int),
                    ),
                    forall|j: int| 0 <= j < orig.len() ==> decreases_to!(gv => #[trigger] orig[j]),
                decreases rest@.len(),
            {
                let x = rest.remove(0);
                let ghost pre = orig.take(k);
                let ghost post = orig.take(k + 1);
                let ghost old_out = out@;
                proof {
                    assert(post.drop_last() =~= pre);
                    assert(post.last() == orig[k]);
                    assert(x == orig[k]);
                    assert(rest@ =~= orig.skip(k + 1));
                    lemma_list_view_take(orig, k + 1);
                    lemma_list_candidates_mono(lv, k + 1);
                    assert(list_view(post) == list_view(pre).push(json_view(x)));
                    assert(list_view(post).drop_last() =~= list_view(pre));
                    assert(list_candidates(list_view(post)) == list_candidates(list_view(pre))
                        + candidates(json_view(x)));
                }
                assert(decreases_to!(gv => x));
                let (nx, np, ch) = rewrite_owned(x, rs, p);
                proof {
                    let whole = ov.subrange(pos as int, np as int);
                    let a = list_candidates(list_view(pre));
                    let b = candidates(json_view(x));
                    assert(whole.take(a.len() as int) =~= ov.subrange(pos as int, p as int));
                    assert(whole.skip(a.len() as int) =~= ov.subrange(p as int, np as int));
                    lemma_changes_concat(a, b, whole);
                    assert(rewrite_list(list_view(post), whole) == rewrite_list(
                        list_view(pre),
                        ov.subrange(pos as int, p as int),
                    ).push(rewrite(json_view(x), ov.subrange(p as int, np as int))));
                }
                out.push(nx);
                p = np;
                changed = changed || ch;
                proof {
                    assert(out@.drop_last() =~= old_out);
                    assert(list_view(out@) == list_view(old_out).push(json_view(nx)));
                    k = k + 1;
                }
            }
            assert(orig.take(k) =~= orig);
            (JsonValue::Array(out), p, changed)
        },
        JsonValue::Object(kvs) => {
            let ghost orig = kvs@;
            let ghost mv = members_view(orig);
            proof {
                lemma_members_view(orig);
                assert forall|j: int| 0 <= j < orig.len() implies decreases_to!(gv => (#[trigger] orig[j]).1) by {
                    assert(decreases_to!(gv => gv->Object_0));
                    assert(decreases_to!(gv->Object_0 => (gv->Object_0)@));
                    assert(decreases_to!((gv->Object_0)@ => (gv->Object_0)@[j]));
                    assert(decreases_to!((gv->Object_0)@[j] => (gv->Object_0)@[j].1));
                }
                assert(orig.take(0) =~= Seq::<(String, JsonValue)>::empty());
            }
            let mut rest = kvs;
            let mut out: Vec<(String, JsonValue)> = Vec::new();
            let mut p: usize = pos;
            let mut changed = false;
            let ghost mut k: int = 0;
            assert(ov.subrange(pos as int, pos as int) =~= Seq::<Option<Seq<char>>>::empty());
            while rest.len() > 0
                invariant
                    0 <= k <= orig.len(),
                    rest@ == orig.skip(k),
                    out@.len() == k,
                    mv == members_view(orig),
                    mv.len() == orig.len(),
                    json_view(gv) == JsonView::Object(mv),
                    gv == v,
                    pos + member_candidates(mv).len() <= rs@.len(),
                    ov == option_views(rs@),
                    p == pos + member_candidates(members_view(orig.take(k))).len(),
                    members_view(out@) == rewrite_members(
                        members_view(orig.take(k)),
                        ov.subrange(pos as int, p as int),
                    ),
                    changed == changes(
                        member_candidates(members_view(orig.take(k))),
                        ov.subrange(pos as int, p as int),
                    ),
                    forall|j: int|
                        0 <= j < orig.len() ==> decreases_to!(gv => (#[trigger] orig[j]).1),
                decreases rest@.len(),
            {
                let (key, x) = rest.remove(0);
                let ghost pre = orig.take(k);
                let ghost post = orig.take(k + 1);
                let ghost old_out = out@;
                proof {
                    assert(post.drop_last() =~= pre);
                    assert(post.last() == orig[k]);
                    assert(x == orig[k].1);
                    assert(key == orig[k].0);
                    assert(rest@ =~= orig.skip(k + 1));
                    lemma_members_view_take(orig, k + 1);
                    lemma_member_candidates_mono(mv, k + 1);
                    assert(members_view(post) == members_view(pre).push((key@, json_view(x))));
                    assert(members_view(post).drop_last() =~= members_view(pre));
                    assert(member_candidates(members_view(post)) == member_candidates(
                        members_view(pre),
                    ) + candidates(json_view(x)));
                }
                assert(decreases_to!(gv => x));
                let (nx, np, ch) = rewrite_owned(x, rs, p);
                proof {
                    let whole = ov.subrange(pos as int, np as int);
                    let a = member_candidates(members_view(pre));
                    let b = candidates(json_view(x));
                    assert(whole.take(a.len() as int) =~= ov.subrange(pos as int, p as int));
                    assert(whole.skip(a.len() as int) =~= ov.subrange(p as int, np as int));
                    lemma_changes_concat(a, b, whole);
                    assert(rewrite_members(members_view(post), whole) == rewrite_members(
                        members_view(pre),
                        ov.subrange(pos as int, p as int),
                    ).push((key@, rewrite(json_view(x), ov.subrange(p as int, np as int)))));
                }
                let ghost kv = key@;
                out.push((key, nx));
                p = np;
                changed = changed || ch;
                proof {
                    assert(out@.drop_last() =~= old_out);
                    assert(members_view(out@) == members_view(old_out).push((kv, json_view(nx))));
                    k = k + 1;
                }
            }
            assert(orig.take(k) =~= orig);
            (JsonValue::Object(out), p, changed)
        },
        JsonValue::Null => {
            assert(ov.subrange(pos as int, pos as int).len() == 0);
            (JsonValue::Null, pos, false)
        },
        JsonValue::Bool(b) => {
            assert(ov.subrange(pos as int, pos as int).len() == 0);
            (JsonValue::Bool(b), pos, false)
        },
        JsonValue::Number(n) => {
            assert(ov.subrange(pos as int, pos as int).len() == 0);
            (JsonValue::Number(n), pos, false)
        },
    }
}

/// Puts the pipeline's results back into a message: `results` has one entry
/// per candidate string of the message (see [`pii_candidates`]), in the same
/// order; an `Ok` result replaces its string, a failed one (`None`) leaves
/// it. Returns whether any string changed.
pub fn apply_pii_results(value: &mut JsonValue, results: &Vec<Option<String>>) -> (changed: bool)
    requires
        candidates(json_view(*old(value))).len() == results@.len(),
    ensures
        json_view(*final(value)) == rewrite(json_view(*old(value)), option_views(results@)),
        changed == changes(candidates(json_view(*old(value))), option_views(results@)),
{
    let mut v = JsonValue::Null;
    std::mem::swap(&mut v, value);
    let (nv, _, ch) = rewrite_owned(v, results, 0);
    assert(option_views(results@).subrange(0, results@.len() as int) =~= option_views(results@));
    *value = nv;
    ch
}

// ---------------------------------------------------------------------------
// Reading and building values
// ---------------------------------------------------------------------------

/// The value of member `key` of an object (`Value::get`); nothing for any
/// other value.
pub open spec fn field(v: JsonView, key: Seq<char>) -> Option<JsonView> {
    match v {
        JsonView::Object(kvs) => member(kvs, key),
        _ => None,
    }
}

/// The string held by member `key`, or the empty string when there is no
/// such member or it is not a string (`get`, `as_str`, `unwrap_or("")`).
pub open spec fn str_field(v: JsonView, key: Seq<char>) -> Seq<char> {
    match field(v, key) {
        Some(JsonView::Str(s)) => s,
        _ => Seq::empty(),
    }
}

/// The value of member `key`, or `default` when there is none.
pub open spec fn field_or(v: JsonView, key: Seq<char>, default: JsonView) -> JsonView {
    match field(v, key) {
        Some(x) => x,
        None => default,
    }
}

/// The member `key` of `v`, when `v` is an object that has one.
pub fn get_field<'a>(v: &'a JsonValue, key: &str) -> (r: Option<&'a JsonValue>)
    ensures
        match r {
            Some(x) => field(json_view(*v), key@) == Some(json_view(*x)),
            None => field(json_view(*v), key@) is None,
        },
{
    match v {
        JsonValue::Object(kvs) => {
            assert(json_view(*v) == JsonView::Object(members_view(kvs@)));
            match find_member(kvs, key) {
                Some(i) => {
                    proof {
                        lemma_members_view(kvs@);
                        lemma_member_at(members_view(kvs@), key@, i as int);
                    }
                    Some(&kvs[i].1)
                },
                None => None,
            }
        },
        _ => None,
    }
}

/// The string held by member `key` of `v`, or the empty string.
pub fn get_str_field(v: &JsonValue, key: &str) -> (r: String)
    ensures
        r@ == str_field(json_view(*v), key@),
{
    match get_field(v, key) {
        Some(JsonValue::String(s)) => s.clone(),
        _ => String::new(),
    }
}

/// A deep copy of a value.
pub fn copy_json(v: &JsonValue) -> (r: JsonValue)
    ensures
        json_view(r) == json_view(*v),
    decreases v,
{
    match v {
        JsonValue::Null => JsonValue::Null,
        JsonValue::Bool(b) => JsonValue::Bool(*b),
        JsonValue::Number(n) => JsonValue::Number(n.clone()),
        JsonValue::String(s) => JsonValue::String(s.clone()),
        JsonValue::Array(xs) => {
            let mut out: Vec<JsonValue> = Vec::new();
            let mut i: usize = 0;
            proof {
                lemma_list_view(xs@);
            }
            while i < xs.len()
                invariant
                    i <= xs@.len(),
                    *v == JsonValue::Array(*xs),
                    list_view(xs@).len() == xs@.len(),
                    forall|j: int| 0 <= j < xs@.len() ==> #[trigger] list_view(xs@)[j] == json_view(xs@[j]),
                    out@.len() == i,
                    forall|j: int| 0 <= j < i ==> #[trigger] json_view(out@[j]) == json_view(xs@[j]),
                decreases xs@.len() - i,
            {
                assert(decreases_to!(*v => (*v)->Array_0));
                assert(decreases_to!(*xs => xs@));
                assert(decreases_to!(xs@ => xs@[i as int]));
                assert(decreases_to!(*v => xs@[i as int]));
                let c = copy_json(&xs[i]);
                out.push(c);
                i = i + 1;
            }
            proof {
                lemma_list_view(out@);
                assert(list_view(out@) =~= list_view(xs@));
            }
            JsonValue::Array(out)
        },
        JsonValue::Object(kvs) => {
            let mut out: Vec<(String, JsonValue)> = Vec::new();
            let mut i: usize = 0;
            proof {
                lemma_members_view(kvs@);
            }
            while i < kvs.len()
                invariant
                    i <= kvs@.len(),
                    *v == JsonValue::Object(*kvs),
                    members_view(kvs@).len() == kvs@.len(),
                    forall|j: int|
                        0 <= j < kvs@.len() ==> #[trigger] members_view(kvs@)[j] == (
                            kvs@[j].0@,
                            json_view(kvs@[j].1),
                        ),
                    out@.len() == i,
                    forall|j: int|
                        0 <= j < i ==> (#[trigger] out@[j]).0@ == kvs@[j].0@ && json_view(
                            out@[j].1,
                        ) == json_view(kvs@[j].1),
                decreases kvs@.len() - i,
            {
                assert(decreases_to!(*v => (*v)->Object_0));
                assert(decreases_to!(*kvs => kvs@));
                assert(decreases_to!(kvs@ => kvs@[i as int]));
                assert(decreases_to!(kvs@[i as int] => kvs@[i as int].1));
                assert(decreases_to!(*v => kvs@[i as int].1));
                let c = copy_json(&kvs[i].1);
                out.push((kvs[i].0.clone(), c));
                i = i + 1;
            }
            proof {
                lemma_members_view(out@);
                assert(members_view(out@) =~= members_view(kvs@));
            }
            JsonValue::Object(out)
        },
    }
}

} // verus!
