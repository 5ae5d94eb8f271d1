//! Turning the per-token labels of a token-classification model into
//! detected entities (BIO tagging: `B-X` begins an entity of kind `X`, `I-X`
//! continues it, anything else is outside an entity).

use crate::config::DetectedEntity;
use crate::text::{chars_eq, chars_of, owned, trim, trim_exec};
use vstd::prelude::*;
use vstd::utf8::{
    decode_utf8, encode_utf8, encode_utf8_decode_utf8, encode_utf8_valid_utf8, is_char_boundary,
    is_char_boundary_iff_not_is_continuation_byte, is_char_boundary_start_end_of_seq,
    valid_utf8, valid_utf8_split,
};

verus! {

/// One token of the model's input: its byte span in the text, the index of
/// its most likely label, and that label's score (ordered as the model's
/// scores are).
#[derive(Debug, Clone, Copy)]
pub struct TokenTag {
    pub start: usize,
    pub end: usize,
    pub label: usize,
    pub score: u64,
}

/// An entity being assembled: its kind, byte span and best score.
pub type Span = (Seq<char>, usize, usize, u64);

/// What `str::to_lowercase` returns for a string (Unicode case mapping).
pub uninterp spec fn lowercase(s: Seq<char>) -> Seq<char>;

/// `str::to_lowercase`.
#[verifier::external_body]
fn to_lowercase(s: &str) -> (r: String)
    ensures
        r@ == lowercase(s@),
{
    s.to_lowercase()
}

/// The entity type that a model label stands for.
pub open spec fn normalized_label(label: Seq<char>) -> Seq<char> {
    if label == "PER"@ || label == "PERSON"@ || label == "person"@ {
        "person_name"@
    } else if label == "LOC"@ || label == "LOCATION"@ || label == "location"@ || label
        == "ADDRESS"@ || label == "address"@ {
        "address"@
    } else if label == "ORG"@ || label == "ORGANIZATION"@ || label == "organization"@ {
        "organization"@
    } else if label == "DATE"@ || label == "DATE_OF_BIRTH"@ || label == "date_of_birth"@ {
        "date_of_birth"@
    } else {
        lowercase(label)
    }
}

/// The model's labels for persons, locations and addresses, organisations,
/// and dates map to the library's entity types; any other label maps to
/// itself in lower case.
pub proof fn lemma_label_aliases(label: Seq<char>)
    ensures
        (label == "PER"@ || label == "PERSON"@ || label == "person"@) ==> normalized_label(label)
            == "person_name"@,
        (label == "LOC"@ || label == "LOCATION"@ || label == "location"@ || label == "ADDRESS"@
            || label == "address"@) ==> normalized_label(label) == "address"@,
        (label == "ORG"@ || label == "ORGANIZATION"@ || label == "organization"@) ==> normalized_label(
            label,
        ) == "organization"@,
        (label == "DATE"@ || label == "DATE_OF_BIRTH"@ || label == "date_of_birth"@)
            ==> normalized_label(label) == "date_of_birth"@,
        !(label == "PER"@ || label == "PERSON"@ || label == "person"@ || label == "LOC"@ || label
            == "LOCATION"@ || label == "location"@ || label == "ADDRESS"@ || label == "address"@
            || label == "ORG"@ || label == "ORGANIZATION"@ || label == "organization"@ || label
            == "DATE"@ || label == "DATE_OF_BIRTH"@ || label == "date_of_birth"@)
            ==> normalized_label(label) == lowercase(label),
{
    reveal_strlit("PER");
    reveal_strlit("PERSON");
    reveal_strlit("person");
    reveal_strlit("person_name");
    reveal_strlit("LOC");
    reveal_strlit("LOCATION");
    reveal_strlit("location");
    reveal_strlit("ADDRESS");
    reveal_strlit("address");
    reveal_strlit("ORG");
    reveal_strlit("ORGANIZATION");
    reveal_strlit("organization");
    reveal_strlit("DATE");
    reveal_strlit("DATE_OF_BIRTH");
    reveal_strlit("date_of_birth");
    if label.len() > 0 {
        let c = label[0];
        if c != 'P' && c != 'p' {
            assert(label != "PER"@ && label != "PERSON"@ && label != "person"@) by {
                assert("PER"@[0] == 'P' && "PERSON"@[0] == 'P' && "person"@[0] == 'p');
            }
        }
        if c != 'L' && c != 'l' && c != 'A' && c != 'a' {
            assert(label != "LOC"@ && label != "LOCATION"@ && label != "location"@ && label
                != "ADDRESS"@ && label != "address"@) by {
                assert("LOC"@[0] == 'L' && "LOCATION"@[0] == 'L' && "location"@[0] == 'l'
                    && "ADDRESS"@[0] == 'A' && "address"@[0] == 'a');
            }
        }
        if c != 'O' && c != 'o' {
            assert(label != "ORG"@ && label != "ORGANIZATION"@ && label != "organization"@) by {
                assert("ORG"@[0] == 'O' && "ORGANIZATION"@[0] == 'O' && "organization"@[0] == 'o');
            }
        }
    }
}

/// The entity type that a model label stands for: persons, locations,
/// organisations and dates under the library's names, any other label in
/// lower case.
pub fn normalize_label(label: &str) -> (r: String)
    ensures
        r@ == normalized_label(label@),
{
    let l = chars_of(label);
    proof {
        reveal_strlit("PER");
        reveal_strlit("PERSON");
        reveal_strlit("person");
        reveal_strlit("LOC");
        reveal_strlit("LOCATION");
        reveal_strlit("location");
        reveal_strlit("ADDRESS");
        reveal_strlit("address");
        reveal_strlit("ORG");
        reveal_strlit("ORGANIZATION");
        reveal_strlit("organization");
        reveal_strlit("DATE");
        reveal_strlit("DATE_OF_BIRTH");
        reveal_strlit("date_of_birth");
    }
    if chars_eq(&l, &chars_of("PER")) || chars_eq(&l, &chars_of("PERSON")) || chars_eq(
        &l,
        &chars_of("person"),
    ) {
        owned("person_name")
    } else if chars_eq(&l, &chars_of("LOC")) || chars_eq(&l, &chars_of("LOCATION")) || chars_eq(
        &l,
        &chars_of("location"),
    ) || chars_eq(&l, &chars_of("ADDRESS")) || chars_eq(&l, &chars_of("address")) {
        owned("address")
    } else if chars_eq(&l, &chars_of("ORG")) || chars_eq(&l, &chars_of("ORGANIZATION"))
        || chars_eq(&l, &chars_of("organization")) {
        owned("organization")
    } else if chars_eq(&l, &chars_of("DATE")) || chars_eq(&l, &chars_of("DATE_OF_BIRTH"))
        || chars_eq(&l, &chars_of("date_of_birth")) {
        owned("date_of_birth")
    } else {
        to_lowercase(label)
    }
}

/// `start..end` is a span of whole characters of `text`.
pub open spec fn valid_span(text: Seq<char>, start: int, end: int) -> bool {
    &&& 0 <= start <= end
    &&& is_char_boundary(encode_utf8(text), start)
    &&& is_char_boundary(encode_utf8(text), end)
}

/// The bytes of `text` in `start..end`.
pub open spec fn span_bytes(text: Seq<char>, start: int, end: int) -> Seq<u8> {
    encode_utf8(text).subrange(start, end)
}

/// `e` is the entity for `span` of `text`.
pub open spec fn entity_for(e: DetectedEntity, text: Seq<char>, span: Span) -> bool {
    &&& e.entity_type@ == normalized_label(span.0)
    &&& encode_utf8(e.original_value@) == span_bytes(text, span.1 as int, span.2 as int)
    &&& e.start == span.1
    &&& e.end == span.2
    &&& e.confidence == span.3
}

/// The characters of `text` in the byte span `start..end`.
pub open spec fn span_chars(text: Seq<char>, start: int, end: int) -> Seq<char> {
    decode_utf8(span_bytes(text, start, end))
}

/// The span `start..end` of `text` holds only whitespace.
pub open spec fn blank_span(text: Seq<char>, start: int, end: int) -> bool {
    trim(span_chars(text, start, end)).len() == 0
}

/// A boundary of a text is a boundary of each prefix that reaches it.
proof fn lemma_prefix_boundary(b: Seq<u8>, s: int, e: int)
    requires
        valid_utf8(b),
        is_char_boundary(b, s),
        is_char_boundary(b, e),
        0 <= s <= e <= b.len(),
    ensures
        valid_utf8(b.subrange(0, e)),
        is_char_boundary(b.subrange(0, e), s),
{
    valid_utf8_split(b, e);
    let p = b.subrange(0, e);
    if s == e {
        is_char_boundary_start_end_of_seq(p);
    } else {
        is_char_boundary_iff_not_is_continuation_byte(b, s);
        is_char_boundary_iff_not_is_continuation_byte(p, s);
        assert(p[s] == b[s]);
    }
}

/// A boundary of a valid byte sequence lies within it.
proof fn lemma_boundary_in_range(b: Seq<u8>, i: int)
    requires
        valid_utf8(b),
        is_char_boundary(b, i),
    ensures
        0 <= i <= b.len(),
{
    reveal_with_fuel(is_char_boundary, 1);
}

/// Adds the entity of kind `entity_type` over the byte span `start..end` of
/// `text`, unless the span holds only whitespace.
pub fn push_entity(
    entities: &mut Vec<DetectedEntity>,
    text: &str,
    entity_type: &str,
    start: usize,
    end: usize,
    score: u64,
)
    requires
        valid_span(text@, start as int, end as int),
    ensures
        if blank_span(text@, start as int, end as int) {
            final(entities)@ == old(entities)@
        } else {
            &&& final(entities)@.len() == old(entities)@.len() + 1
            &&& final(entities)@.drop_last() == old(entities)@
            &&& entity_for(final(entities)@.last(), text@, (entity_type@, start, end, score))
        },
{
    let ghost b = encode_utf8(text@);
    proof {
        encode_utf8_valid_utf8(text@);
        lemma_boundary_in_range(b, end as int);
        lemma_prefix_boundary(b, start as int, end as int);
    }
    let (left, _) = text.split_at(end);
    let (_, mid) = left.split_at(start);
    assert(encode_utf8(mid@) =~= span_bytes(text@, start as int, end as int));
    proof {
        encode_utf8_decode_utf8(mid@);
        assert(mid@ == span_chars(text@, start as int, end as int));
    }
    let value = chars_of(mid);
    let trimmed = trim_exec(&value);
    if trimmed.len() == 0 {
        return;
    }
    entities.push(
        DetectedEntity {
            entity_type: normalize_label(entity_type),
            original_value: owned(mid),
            start,
            end,
            confidence: score,
        },
    );
    assert(entities@.drop_last() =~= old(entities)@);
}

/// The label with index `idx`, `O` when there is none.
pub open spec fn label_text(labels: Seq<String>, idx: usize) -> Seq<char> {
    if idx < labels.len() {
        labels[idx as int]@
    } else {
        seq!['O']
    }
}

/// `l` starts with the letter `c` and a hyphen (`B-` or `I-`).
pub open spec fn tagged(l: Seq<char>, c: char) -> bool {
    l.len() >= 2 && l[0] == c && l[1] == '-'
}

/// Token `i` is a special token (empty span at a position other than the
/// first).
pub open spec fn is_special(tokens: Seq<TokenTag>, i: int) -> bool {
    tokens[i].start == 0 && tokens[i].end == 0 && i > 0
}

/// The finished spans with the pending one, if any, added.
pub open spec fn flush(spans: Seq<Span>, cur: Option<Span>) -> Seq<Span> {
    match cur {
        Some(c) => spans.push(c),
        None => spans,
    }
}

/// The state after token `i`: the finished spans and the pending one.
pub open spec fn bio_step(st: (Seq<Span>, Option<Span>), tok: TokenTag, i: int, labels: Seq<String>) -> (Seq<Span>, Option<Span>) {
    let (spans, cur) = st;
    if tok.start == 0 && tok.end == 0 && i > 0 {
        (flush(spans, cur), None)
    } else {
        let l = label_text(labels, tok.label);
        if tagged(l, 'B') {
            (flush(spans, cur), Some((l.skip(2), tok.start, tok.end, tok.score)))
        } else if tagged(l, 'I') {
            let t = l.skip(2);
            match cur {
                Some(c) => if c.0 == t {
                    (spans, Some((t, c.1, tok.end, if c.3 >= tok.score { c.3 } else { tok.score })))
                } else {
                    (spans.push(c), Some((t, tok.start, tok.end, tok.score)))
                },
                None => (spans, Some((t, tok.start, tok.end, tok.score))),
            }
        } else {
            (flush(spans, cur), None)
        }
    }
}

/// The state after the first `n` tokens.
pub open spec fn bio_run(tokens: Seq<TokenTag>, labels: Seq<String>, n: nat) -> (Seq<Span>, Option<Span>)
    decreases n,
{
    if n == 0 || n > tokens.len() {
        (Seq::empty(), None)
    } else {
        bio_step(bio_run(tokens, labels, (n - 1) as nat), tokens[n - 1], n - 1, labels)
    }
}

/// The spans that the tokens' labels make, in order.
pub open spec fn bio_spans(tokens: Seq<TokenTag>, labels: Seq<String>) -> Seq<Span> {
    let st = bio_run(tokens, labels, tokens.len());
    flush(st.0, st.1)
}

/// The spans that hold more than whitespace.
pub open spec fn kept_spans(text: Seq<char>, spans: Seq<Span>) -> Seq<Span> {
    spans.filter(|s: Span| !blank_span(text, s.1 as int, s.2 as int))
}

/// Each span ends no earlier than it starts, and no span starts before an
/// earlier one ends.
pub open spec fn spans_in_order(spans: Seq<Span>) -> bool {
    &&& forall|a: int| 0 <= a < spans.len() ==> (#[trigger] spans[a]).1 <= spans[a].2
    &&& forall|a: int, b: int|
        0 <= a < b < spans.len() ==> (#[trigger] spans[a]).2 <= (#[trigger] spans[b]).1
}

/// The tokens' offsets follow the text: each ordinary token ends no earlier
/// than it starts, and starts no earlier than every earlier token ends.
pub open spec fn tokens_in_order(tokens: Seq<TokenTag>) -> bool {
    &&& forall|j: int|
        0 <= j < tokens.len() && !is_special(tokens, j) ==> (#[trigger] tokens[j]).start
            <= tokens[j].end
    &&& forall|i: int, j: int|
        0 <= i < j < tokens.len() && !is_special(tokens, j) ==> (#[trigger] tokens[i]).end <= (
        #[trigger] tokens[j]).start
}

/// After `n` tokens, the spans so far (the pending one last) are in order and
/// end no later than any later ordinary token starts.
spec fn run_in_order(st: (Seq<Span>, Option<Span>), tokens: Seq<TokenTag>, n: int) -> bool {
    let all = flush(st.0, st.1);
    &&& spans_in_order(all)
    &&& forall|s: int, j: int|
        0 <= s < all.len() && n <= j < tokens.len() && !is_special(tokens, j) ==> (
        #[trigger] all[s]).2 <= (#[trigger] tokens[j]).start
}

proof fn lemma_bio_run_in_order(tokens: Seq<TokenTag>, labels: Seq<String>, n: nat)
    requires
        tokens_in_order(tokens),
        n <= tokens.len(),
    ensures
        run_in_order(bio_run(tokens, labels, n), tokens, n as int),
    decreases n,
{
    if n > 0 {
        let m = (n - 1) as nat;
        lemma_bio_run_in_order(tokens, labels, m);
        let st = bio_run(tokens, labels, m);
        let tok = tokens[m as int];
        let all = flush(st.0, st.1);
        let nx = bio_step(st, tok, m as int, labels);
        let all2 = flush(nx.0, nx.1);
        assert(nx == bio_run(tokens, labels, n));
        if !(tok.start == 0 && tok.end == 0 && m > 0) {
            assert(!is_special(tokens, m as int));
            assert(tok.start <= tok.end);
            assert forall|s: int| 0 <= s < all.len() implies (#[trigger] all[s]).2 <= tok.start by {
            }
            assert forall|j: int| n <= j < tokens.len() && !is_special(tokens, j) implies tok.end
                <= (#[trigger] tokens[j]).start by {
                assert(tokens[m as int].end <= tokens[j].start);
            }
            let l = label_text(labels, tok.label);
            if !tagged(l, 'B') && tagged(l, 'I') {
                match st.1 {
                    Some(c) => {
                        if c.0 == l.skip(2) {
                            assert(all == st.0.push(c));
                            assert(all[all.len() - 1] == c);
                            assert(all2 =~= st.0.push(all2.last()));
                            assert forall|a: int, b: int| 0 <= a < b < all2.len() implies (
                            #[trigger] all2[a]).2 <= (#[trigger] all2[b]).1 by {
                                assert(all[a] == all2[a]);
                                if b < all2.len() - 1 {
                                    assert(all[b] == all2[b]);
                                } else {
                                    assert(all[a].2 <= all[all.len() - 1].1);
                                }
                            }
                            assert forall|a: int| 0 <= a < all2.len() implies (#[trigger] all2[a]).1
                                <= all2[a].2 by {
                                if a < all2.len() - 1 {
                                    assert(all[a] == all2[a]);
                                } else {
                                    assert(all[all.len() - 1].1 <= all[all.len() - 1].2);
                                }
                            }
                            assert forall|s: int, j: int|
                                0 <= s < all2.len() && n <= j < tokens.len() && !is_special(tokens, j)
                                    implies (#[trigger] all2[s]).2 <= (#[trigger] tokens[j]).start by {
                                if s < all2.len() - 1 {
                                    assert(all[s] == all2[s]);
                                }
                            }
                        } else {
                            assert(all2 =~= all.push(all2.last()));
                        }
                    },
                    None => {
                        assert(all2 =~= all.push(all2.last()));
                    },
                }
            } else if tagged(l, 'B') {
                assert(all2 =~= all.push(all2.last()));
            } else {
                assert(all2 == all);
            }
        } else {
            assert(all2 == all);
        }
    }
}

/// Keeping some of the spans keeps them in order.
proof fn lemma_filter_in_order(spans: Seq<Span>, keep: spec_fn(Span) -> bool)
    requires
        spans_in_order(spans),
    ensures
        spans_in_order(spans.filter(keep)),
        forall|x: Span| #[trigger] spans.filter(keep).contains(x) ==> spans.contains(x),
    decreases spans.len(),
{
    reveal_with_fuel(Seq::<_>::filter, 1);
    if spans.len() > 0 {
        let d = spans.drop_last();
        assert(spans_in_order(d)) by {
            assert forall|a: int, b: int| 0 <= a < b < d.len() implies (#[trigger] d[a]).2 <= (
            #[trigger] d[b]).1 by {
                assert(d[a] == spans[a] && d[b] == spans[b]);
            }
            assert forall|a: int| 0 <= a < d.len() implies (#[trigger] d[a]).1 <= d[a].2 by {
                assert(d[a] == spans[a]);
            }
        }
        lemma_filter_in_order(d, keep);
        let fd = d.filter(keep);
        let x = spans.last();
        assert forall|y: Span| #[trigger] fd.contains(y) implies spans.contains(y) && y.2 <= x.1 by {
            assert(d.contains(y));
            let a = choose|a: int| 0 <= a < d.len() && d[a] == y;
            assert(spans[a] == y);
            assert(spans[a].2 <= spans[spans.len() - 1].1);
        }
        if keep(x) {
            let f = spans.filter(keep);
            assert(f == fd.push(x));
            assert forall|a: int, b: int| 0 <= a < b < f.len() implies (#[trigger] f[a]).2 <= (
            #[trigger] f[b]).1 by {
                assert(f[a] == fd[a]);
                assert(fd.contains(fd[a]));
                if b < f.len() - 1 {
                    assert(f[b] == fd[b]);
                }
            }
            assert forall|a: int| 0 <= a < f.len() implies (#[trigger] f[a]).1 <= f[a].2 by {
                if a < f.len() - 1 {
                    assert(f[a] == fd[a]);
                } else {
                    assert(spans[spans.len() - 1].1 <= spans[spans.len() - 1].2);
                }
            }
            assert forall|y: Span| #[trigger] f.contains(y) implies spans.contains(y) by {
                let a = choose|a: int| 0 <= a < f.len() && f[a] == y;
                if a < f.len() - 1 {
                    assert(fd[a] == y);
                    assert(fd.contains(y));
                } else {
                    assert(spans[spans.len() - 1] == y);
                }
            }
        }
    }
}

/// When the tokens' offsets follow the text, the spans that their labels make,
/// and those of them that hold more than whitespace, are in order: each ends
/// no earlier than it starts and before the next one starts.
pub proof fn lemma_spans_in_order(text: Seq<char>, tokens: Seq<TokenTag>, labels: Seq<String>)
    requires
        tokens_in_order(tokens),
    ensures
        spans_in_order(bio_spans(tokens, labels)),
        spans_in_order(kept_spans(text, bio_spans(tokens, labels))),
{
    lemma_bio_run_in_order(tokens, labels, tokens.len());
    lemma_filter_in_order(
        bio_spans(tokens, labels),
        |s: Span| !blank_span(text, s.1 as int, s.2 as int),
    );
}

/// The spans of a list of exec spans.
pub open spec fn span_views(v: Seq<(String, usize, usize, u64)>) -> Seq<Span> {
    v.map_values(|x: (String, usize, usize, u64)| (x.0@, x.1, x.2, x.3))
}

/// Every span that the labels make lies on character boundaries of the text,
/// its start not after its end.
pub open spec fn spans_fit(text: Seq<char>, tokens: Seq<TokenTag>, labels: Seq<String>) -> bool {
    forall|k: int|
        0 <= k < bio_spans(tokens, labels).len() ==> valid_span(
            text,
            (#[trigger] bio_spans(tokens, labels)[k]).1 as int,
            bio_spans(tokens, labels)[k].2 as int,
        )
}

/// The spans that the tokens' labels make: a `B-X` label begins a span of
/// kind `X`, an `I-X` label extends a span of kind `X` (or begins one), any
/// other label and a special token end it; a span's score is the best of its
/// tokens' scores.
pub fn bio_spans_exec(labels: &Vec<String>, tokens: &Vec<TokenTag>) -> (r: Vec<
    (String, usize, usize, u64),
>)
    ensures
        span_views(r@) == bio_spans(tokens@, labels@),
{
    let mut spans: Vec<(String, usize, usize, u64)> = Vec::new();
    let mut cur: Option<(Vec<char>, usize, usize, u64)> = None;
    let mut i: usize = 0;
    assert(span_views(spans@) =~= Seq::<Span>::empty());
    while i < tokens.len()
        invariant
            i <= tokens@.len(),
            bio_run(tokens@, labels@, i as nat) == (span_views(spans@), pending_span(cur)),
        decreases tokens@.len() - i,
    {
        let tok = tokens[i];
        let ghost st = (span_views(spans@), pending_span(cur));
        assert(bio_run(tokens@, labels@, (i + 1) as nat) == bio_step(st, tok, i as int, labels@));
        if tok.start == 0 && tok.end == 0 && i > 0 {
            push_pending(&mut spans, &mut cur);
        } else {
            let l = if tok.label < labels.len() {
                chars_of(labels[tok.label].as_str())
            } else {
                let mut o: Vec<char> = Vec::new();
                o.push('O');
                o
            };
            assert(l@ == label_text(labels@, tok.label));
            if l.len() >= 2 && l[0] == 'B' && l[1] == '-' {
                push_pending(&mut spans, &mut cur);
                cur = Some((skip2(&l), tok.start, tok.end, tok.score));
            } else if l.len() >= 2 && l[0] == 'I' && l[1] == '-' {
                let t = skip2(&l);
                let c = cur.take();
                match c {
                    Some(c) => {
                        if chars_eq(&c.0, &t) {
                            let best = if c.3 >= tok.score {
                                c.3
                            } else {
                                tok.score
                            };
                            cur = Some((t, c.1, tok.end, best));
                        } else {
                            let mut pending = Some(c);
                            push_pending(&mut spans, &mut pending);
                            cur = Some((t, tok.start, tok.end, tok.score));
                        }
                    },
                    None => {
                        cur = Some((t, tok.start, tok.end, tok.score));
                    },
                }
            } else {
                push_pending(&mut spans, &mut cur);
            }
        }
        i = i + 1;
    }
    push_pending(&mut spans, &mut cur);
    spans
}

/// Finishes the pending span, if any.
fn push_pending(
    spans: &mut Vec<(String, usize, usize, u64)>,
    cur: &mut Option<(Vec<char>, usize, usize, u64)>,
)
    ensures
        *final(cur) is None,
        span_views(final(spans)@) == flush(span_views(old(spans)@), pending_span(*old(cur))),
{
    match cur.take() {
        None => {},
        Some(c) => {
            let ghost before = spans@;
            spans.push((crate::text::string_of(&c.0), c.1, c.2, c.3));
            assert(span_views(spans@) =~= span_views(before).push((c.0@, c.1, c.2, c.3)));
        },
    }
}

/// The entities that the labelled tokens of `text` make (see
/// [`bio_spans_exec`]); entities over whitespace alone are dropped. Each span
/// must lie on character boundaries of the text.
pub fn decode_bio_entities(text: &str, labels: &Vec<String>, tokens: &Vec<TokenTag>) -> (r: Vec<
    DetectedEntity,
>)
    requires
        spans_fit(text@, tokens@, labels@),
    ensures
        r@.len() == kept_spans(text@, bio_spans(tokens@, labels@)).len(),
        forall|i: int|
            0 <= i < r@.len() ==> entity_for(
                #[trigger] r@[i],
                text@,
                kept_spans(text@, bio_spans(tokens@, labels@))[i],
            ),
        tokens_in_order(tokens@) ==> forall|a: int, b: int|
            0 <= a < b < r@.len() ==> r@[a].start <= r@[a].end <= (#[trigger] r@[b]).start
                && (#[trigger] r@[a]).end <= r@[b].start,
{
    let spans = bio_spans_exec(labels, tokens);
    let ghost all = bio_spans(tokens@, labels@);
    let ghost keep = |s: Span| !blank_span(text@, s.1 as int, s.2 as int);
    let mut entities: Vec<DetectedEntity> = Vec::new();
    let mut i: usize = 0;
    assert(all.take(0).filter(keep) =~= Seq::<Span>::empty()) by {
        reveal_with_fuel(Seq::<_>::filter, 1);
    }
    while i < spans.len()
        invariant
            i <= spans@.len(),
            span_views(spans@) == all,
            all == bio_spans(tokens@, labels@),
            spans_fit(text@, tokens@, labels@),
            keep == (|s: Span| !blank_span(text@, s.1 as int, s.2 as int)),
            entities@.len() == all.take(i as int).filter(keep).len(),
            forall|k: int|
                0 <= k < entities@.len() ==> entity_for(
                    #[trigger] entities@[k],
                    text@,
                    all.take(i as int).filter(keep)[k],
                ),
        decreases spans@.len() - i,
    {
        let ghost before = entities@;
        let ghost sp = all[i as int];
        assert(sp == (spans@[i as int].0@, spans@[i as int].1, spans@[i as int].2, spans@[i as int].3));
        assert(valid_span(text@, sp.1 as int, sp.2 as int));
        push_entity(&mut entities, text, spans[i].0.as_str(), spans[i].1, spans[i].2, spans[i].3);
        proof {
            let prev = all.take(i as int);
            let next = all.take(i + 1);
            reveal_with_fuel(Seq::<_>::filter, 1);
            assert(next.drop_last() =~= prev);
            assert(next.last() == sp);
            if blank_span(text@, sp.1 as int, sp.2 as int) {
                assert(next.filter(keep) == prev.filter(keep));
            } else {
                assert(next.filter(keep) == prev.filter(keep).push(sp));
                assert forall|k: int|
                    0 <= k < entities@.len() implies entity_for(
                    #[trigger] entities@[k],
                    text@,
                    next.filter(keep)[k],
                ) by {
                    if k < before.len() {
                        assert(entities@[k] == entities@.drop_last()[k]);
                    }
                }
            }
        }
        i = i + 1;
    }
    assert(all.take(i as int) =~= all);
    proof {
        if tokens_in_order(tokens@) {
            lemma_spans_in_order(text@, tokens@, labels@);
            let kept = kept_spans(text@, all);
            assert forall|a: int, b: int| 0 <= a < b < entities@.len() implies entities@[a].start
                <= entities@[a].end <= (#[trigger] entities@[b]).start && (
            #[trigger] entities@[a]).end <= entities@[b].start by {
                assert(entity_for(entities@[a], text@, kept[a]));
                assert(entity_for(entities@[b], text@, kept[b]));
                assert(kept[a].2 <= kept[b].1);
                assert(kept[a].1 <= kept[a].2);
            }
        }
    }
    entities
}

/// The characters of `l` after its first two.
fn skip2(l: &Vec<char>) -> (r: Vec<char>)
    requires
        l@.len() >= 2,
    ensures
        r@ == l@.skip(2),
{
    let mut r: Vec<char> = Vec::new();
    let mut k: usize = 2;
    while k < l.len()
        invariant
            2 <= k <= l@.len(),
            r@ == l@.subrange(2, k as int),
        decreases l@.len() - k,
    {
        r.push(l[k]);
        k = k + 1;
        assert(r@ =~= l@.subrange(2, k as int));
    }
    assert(l@.subrange(2, k as int) =~= l@.skip(2));
    r
}

/// The span that a pending entity stands for.
pub open spec fn pending_span(cur: Option<(Vec<char>, usize, usize, u64)>) -> Option<Span> {
    match cur {
        Some(c) => Some((c.0@, c.1, c.2, c.3)),
        None => None,
    }
}

} // verus!
