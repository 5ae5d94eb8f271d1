//! The proxy's treatment of one string: the detections of the configured
//! detectors are combined, each is resolved to a fake value, and the fake
//! values replace the originals in the text.

use crate::anonymize::{is_existing_id, resolve, resolve_step, resolves, tables};
use crate::config::{AnonymizedEntity, ConcealError, DetectedEntity, DetectionMode};
use crate::faker::FakerEngine;
use crate::mapping::{
    lemma_cache_after_store, lookup_cache, lookup_fake, value_hash, EntityMapping, MappingStore,
};
use crate::text::{chars_of, find_first, find_first_exec, replace_all, replace_all_exec, string_of};
use vstd::prelude::*;

verus! {

// ---------------------------------------------------------------------------
// Combining detections
// ---------------------------------------------------------------------------

/// `a` and `b` have the same key: entity type, start and end.
pub open spec fn same_key(a: DetectedEntity, b: DetectedEntity) -> bool {
    a.entity_type@ == b.entity_type@ && a.start == b.start && a.end == b.end
}

/// One detection per key: each key in the order of its first appearance,
/// with the last detection that has it.
pub open spec fn combine(s: Seq<DetectedEntity>) -> Seq<DetectedEntity>
    decreases s.len(),
{
    if s.len() == 0 {
        s
    } else {
        let acc = combine(s.drop_last());
        let x = s.last();
        if exists|j: int| 0 <= j < acc.len() && same_key(#[trigger] acc[j], x) {
            acc.map_values(|e: DetectedEntity| if same_key(e, x) { x } else { e })
        } else {
            acc.push(x)
        }
    }
}

/// Some detection of `r` has the key of `e`.
pub open spec fn has_key_of(r: Seq<DetectedEntity>, e: DetectedEntity) -> bool {
    exists|j: int| 0 <= j < r.len() && same_key(#[trigger] r[j], e)
}

/// Combining keeps one detection per key: no two detections of the result
/// share a key, every detection of the input has its key in the result, and
/// each detection of the result is the last one of the input with its key.
pub proof fn lemma_combine_keys(s: Seq<DetectedEntity>)
    ensures
        forall|i: int, j: int|
            0 <= i < j < combine(s).len() ==> !same_key(
                #[trigger] combine(s)[i],
                #[trigger] combine(s)[j],
            ),
        forall|i: int| 0 <= i < s.len() ==> has_key_of(combine(s), #[trigger] s[i]),
        forall|j: int|
            0 <= j < combine(s).len() ==> exists|i: int|
                0 <= i < s.len() && #[trigger] combine(s)[j] == s[i] && forall|m: int|
                    i < m < s.len() ==> !same_key(#[trigger] s[m], s[i]),
    decreases s.len(),
{
    if s.len() > 0 {
        let p = s.drop_last();
        let acc = combine(p);
        let x = s.last();
        let n = s.len() - 1;
        lemma_combine_keys(p);
        let r = combine(s);
        if exists|j: int| 0 <= j < acc.len() && same_key(#[trigger] acc[j], x) {
            let f = |e: DetectedEntity| if same_key(e, x) { x } else { e };
            assert(r == acc.map_values(f));
            assert(r.len() == acc.len());
            assert forall|j: int| 0 <= j < r.len() implies same_key(#[trigger] r[j], acc[j]) by {
                assert(r[j] == f(acc[j]));
            }
            assert forall|i: int, j: int| 0 <= i < j < r.len() implies !same_key(
                #[trigger] r[i],
                #[trigger] r[j],
            ) by {
                assert(same_key(r[i], acc[i]));
                assert(same_key(r[j], acc[j]));
                assert(!same_key(acc[i], acc[j]));
            }
            assert forall|i: int| 0 <= i < s.len() implies has_key_of(r, #[trigger] s[i]) by {
                if i < n {
                    assert(s[i] == p[i]);
                    assert(has_key_of(acc, p[i]));
                    let j = choose|j: int| 0 <= j < acc.len() && same_key(#[trigger] acc[j], p[i]);
                    assert(same_key(r[j], acc[j]));
                    assert(same_key(r[j], s[i]));
                } else {
                    let j = choose|j: int| 0 <= j < acc.len() && same_key(#[trigger] acc[j], x);
                    assert(r[j] == f(acc[j]));
                    assert(r[j] == x);
                    assert(same_key(r[j], s[i]));
                }
            }
            assert forall|j: int| 0 <= j < r.len() implies exists|i: int|
                0 <= i < s.len() && #[trigger] r[j] == s[i] && forall|m: int|
                    i < m < s.len() ==> !same_key(#[trigger] s[m], s[i]) by {
                assert(r[j] == f(acc[j]));
                if same_key(acc[j], x) {
                    assert(r[j] == s[n]);
                } else {
                    let i = choose|i: int|
                        0 <= i < p.len() && #[trigger] acc[j] == p[i] && forall|m: int|
                            i < m < p.len() ==> !same_key(#[trigger] p[m], p[i]);
                    assert(r[j] == s[i]);
                    assert forall|m: int| i < m < s.len() implies !same_key(#[trigger] s[m], s[i]) by {
                        if m < n {
                            assert(s[m] == p[m]);
                        }
                    }
                }
            }
        } else {
            assert(r == acc.push(x));
            assert forall|i: int, j: int| 0 <= i < j < r.len() implies !same_key(
                #[trigger] r[i],
                #[trigger] r[j],
            ) by {
                if j == acc.len() {
                    assert(r[i] == acc[i]);
                    assert(!same_key(acc[i], x));
                } else {
                    assert(r[i] == acc[i] && r[j] == acc[j]);
                }
            }
            assert forall|i: int| 0 <= i < s.len() implies has_key_of(r, #[trigger] s[i]) by {
                if i < n {
                    assert(s[i] == p[i]);
                    assert(has_key_of(acc, p[i]));
                    let j = choose|j: int| 0 <= j < acc.len() && same_key(#[trigger] acc[j], p[i]);
                    assert(r[j] == acc[j]);
                } else {
                    assert(r[acc.len() as int] == x);
                }
            }
            assert forall|j: int| 0 <= j < r.len() implies exists|i: int|
                0 <= i < s.len() && #[trigger] r[j] == s[i] && forall|m: int|
                    i < m < s.len() ==> !same_key(#[trigger] s[m], s[i]) by {
                if j == acc.len() {
                    assert(r[j] == s[n]);
                } else {
                    assert(r[j] == acc[j]);
                    let i = choose|i: int|
                        0 <= i < p.len() && #[trigger] acc[j] == p[i] && forall|m: int|
                            i < m < p.len() ==> !same_key(#[trigger] p[m], p[i]);
                    assert(r[j] == s[i]);
                    assert forall|m: int| i < m < s.len() implies !same_key(#[trigger] s[m], s[i]) by {
                        if m < n {
                            assert(s[m] == p[m]);
                        } else {
                            assert(!same_key(acc[j], x));
                        }
                    }
                }
            }
        }
    }
}

/// Combines the regular-expression detections with the language-model ones:
/// one detection per entity type, start and end, a language-model detection
/// taking the place of a regular-expression one with the same key (and a
/// later detection that of an earlier one). The detections come in the order
/// in which their keys first appear.
pub fn combine_entities(regex_entities: Vec<DetectedEntity>, llm_entities: Vec<DetectedEntity>) -> (r: Vec<
    DetectedEntity,
>)
    ensures
        r@ == combine(regex_entities@ + llm_entities@),
{
    let ghost all = regex_entities@ + llm_entities@;
    let mut acc: Vec<DetectedEntity> = Vec::new();
    let mut rest = regex_entities;
    let mut more = llm_entities;
    rest.append(&mut more);
    assert(rest@ == all);
    let ghost mut i: int = 0;
    while rest.len() > 0
        invariant
            0 <= i <= all.len(),
            rest@ == all.skip(i),
            acc@ == combine(all.take(i)),
        decreases rest@.len(),
    {
        let x = rest.remove(0);
        proof {
            assert(all.take(i + 1).drop_last() =~= all.take(i));
            assert(all.take(i + 1).last() == x);
            assert(rest@ =~= all.skip(i + 1));
            i = i + 1;
        }
        let ghost before = acc@;
        let mut found = false;
        let mut j: usize = 0;
        let n = acc.len();
        while j < n
            invariant
                n == before.len(),
                j <= n,
                acc@.len() == n,
                found <==> exists|m: int| 0 <= m < j && same_key(#[trigger] before[m], x),
                forall|m: int|
                    0 <= m < j ==> #[trigger] acc@[m] == (if same_key(before[m], x) {
                        x
                    } else {
                        before[m]
                    }),
                forall|m: int| j <= m < n ==> #[trigger] acc@[m] == before[m],
            decreases n - j,
        {
            if acc[j].entity_type == x.entity_type && acc[j].start == x.start && acc[j].end == x.end {
                acc.set(j, x.duplicate());
                found = true;
            }
            proof {
                if same_key(before[j as int], x) {
                    assert(exists|m: int| 0 <= m < j + 1 && same_key(#[trigger] before[m], x));
                }
                if exists|m: int| 0 <= m < j + 1 && same_key(#[trigger] before[m], x) {
                    let m = choose|m: int| 0 <= m < j + 1 && same_key(#[trigger] before[m], x);
                    if m < j {
                        assert(exists|m: int| 0 <= m < j && same_key(#[trigger] before[m], x));
                    }
                }
            }
            j = j + 1;
        }
        if !found {
            acc.push(x);
        } else {
            assert(acc@ =~= before.map_values(
                |e: DetectedEntity| if same_key(e, x) { x } else { e },
            ));
        }
    }
    assert(all.take(i) =~= all);
    acc
}

// ---------------------------------------------------------------------------
// Replacing
// ---------------------------------------------------------------------------

/// The position by which a replacement is ordered: that of the first
/// occurrence of its original value in the text, or the start when it does
/// not occur.
pub open spec fn first_pos(text: Seq<char>, o: Seq<char>) -> int {
    match find_first(text, o) {
        Some(p) => p,
        None => 0,
    }
}

/// `x` inserted into `sorted` after every entity whose position is at most
/// its own.
pub open spec fn insert_by_pos(text: Seq<char>, x: AnonymizedEntity, sorted: Seq<AnonymizedEntity>) -> Seq<
    AnonymizedEntity,
>
    decreases sorted.len(),
{
    if sorted.len() == 0 {
        seq![x]
    } else if first_pos(text, sorted[0].original_value@) <= first_pos(text, x.original_value@) {
        seq![sorted[0]] + insert_by_pos(text, x, sorted.skip(1))
    } else {
        seq![x] + sorted
    }
}

/// The entities sorted by position, stably.
pub open spec fn sort_by_pos(text: Seq<char>, s: Seq<AnonymizedEntity>) -> Seq<AnonymizedEntity>
    decreases s.len(),
{
    if s.len() == 0 {
        s
    } else {
        insert_by_pos(text, s.last(), sort_by_pos(text, s.drop_last()))
    }
}

/// Every occurrence of each entity's original value replaced by its fake
/// value, the entities in turn.
pub open spec fn replace_in_turn(text: Seq<char>, s: Seq<AnonymizedEntity>) -> Seq<char>
    decreases s.len(),
{
    if s.len() == 0 {
        text
    } else {
        replace_all(
            replace_in_turn(text, s.drop_last()),
            s.last().original_value@,
            s.last().fake_value@,
        )
    }
}

/// What replacing the entities in `text` gives: the entities ordered by the
/// position of their value in `text`, then each value replaced everywhere.
pub open spec fn replaced(text: Seq<char>, entities: Seq<AnonymizedEntity>) -> Seq<char> {
    replace_in_turn(text, sort_by_pos(text, entities))
}

/// Inserting by position puts `x` at the first position whose entity comes
/// later.
proof fn lemma_insert_by_pos_at(text: Seq<char>, x: AnonymizedEntity, s: Seq<AnonymizedEntity>, p: int)
    requires
        0 <= p <= s.len(),
        forall|j: int|
            0 <= j < p ==> first_pos(text, (#[trigger] s[j]).original_value@) <= first_pos(
                text,
                x.original_value@,
            ),
        p < s.len() ==> first_pos(text, s[p].original_value@) > first_pos(text, x.original_value@),
    ensures
        insert_by_pos(text, x, s) == s.insert(p, x),
    decreases p,
{
    if s.len() == 0 {
        assert(s.insert(p, x) =~= seq![x]);
    } else if p == 0 {
        assert(s.insert(p, x) =~= seq![x] + s);
    } else {
        let rest = s.skip(1);
        assert forall|j: int| 0 <= j < p - 1 implies first_pos(
            text,
            (#[trigger] rest[j]).original_value@,
        ) <= first_pos(text, x.original_value@) by {
            assert(rest[j] == s[j + 1]);
        }
        lemma_insert_by_pos_at(text, x, rest, p - 1);
        assert(s.insert(p, x) =~= seq![s[0]] + rest.insert(p - 1, x));
    }
}

/// The position of the first occurrence of `o` in `t`, or 0.
fn first_pos_exec(t: &Vec<char>, o: &String) -> (r: usize)
    ensures
        r == first_pos(t@, o@),
{
    match find_first_exec(t, &chars_of(o.as_str())) {
        Some(p) => p,
        None => 0,
    }
}

/// Replaces each entity's original value by its fake value everywhere in
/// `text`, the entities taken in the order of the first occurrence of their
/// value in `text` (an absent value counts as occurring at the start; entities
/// at the same position keep their order).
pub fn apply_replacements(text: &str, entities: &[AnonymizedEntity]) -> (r: Result<
    String,
    ConcealError,
>)
    ensures
        match r {
            Ok(s) => s@ == replaced(text@, entities@),
            Err(_) => false,
        },
{
    let t = chars_of(text);
    let mut sorted: Vec<AnonymizedEntity> = Vec::new();
    let mut keys: Vec<usize> = Vec::new();
    let mut i: usize = 0;
    while i < entities.len()
        invariant
            i <= entities@.len(),
            t@ == text@,
            sorted@ == sort_by_pos(text@, entities@.take(i as int)),
            keys@.len() == sorted@.len(),
            forall|j: int|
                0 <= j < keys@.len() ==> #[trigger] keys@[j] == first_pos(
                    text@,
                    sorted@[j].original_value@,
                ),
        decreases entities@.len() - i,
    {
        let x = entities[i].duplicate();
        let kx = first_pos_exec(&t, &x.original_value);
        proof {
            assert(entities@.take(i + 1).drop_last() =~= entities@.take(i as int));
            assert(entities@.take(i + 1).last() == x);
        }
        let mut p: usize = 0;
        while p < sorted.len() && keys[p] <= kx
            invariant
                p <= sorted@.len(),
                keys@.len() == sorted@.len(),
                forall|j: int|
                    0 <= j < keys@.len() ==> #[trigger] keys@[j] == first_pos(
                        text@,
                        sorted@[j].original_value@,
                    ),
                forall|j: int|
                    0 <= j < p ==> first_pos(text@, (#[trigger] sorted@[j]).original_value@)
                        <= first_pos(text@, x.original_value@),
                kx == first_pos(text@, x.original_value@),
            decreases sorted@.len() - p,
        {
            p = p + 1;
        }
        proof {
            lemma_insert_by_pos_at(text@, x, sorted@, p as int);
        }
        let ghost old_sorted = sorted@;
        let ghost old_keys = keys@;
        sorted.insert(p, x);
        keys.insert(p, kx);
        proof {
            assert forall|j: int| 0 <= j < keys@.len() implies #[trigger] keys@[j] == first_pos(
                text@,
                sorted@[j].original_value@,
            ) by {
                if j < p {
                    assert(keys@[j] == old_keys[j]);
                    assert(sorted@[j] == old_sorted[j]);
                } else if j > p {
                    assert(keys@[j] == old_keys[j - 1]);
                    assert(sorted@[j] == old_sorted[j - 1]);
                }
            }
        }
        i = i + 1;
    }
    assert(entities@.take(i as int) =~= entities@);
    let mut result = t;
    let mut k: usize = 0;
    while k < sorted.len()
        invariant
            k <= sorted@.len(),
            result@ == replace_in_turn(text@, sorted@.take(k as int)),
        decreases sorted@.len() - k,
    {
        let o = chars_of(sorted[k].original_value.as_str());
        let f = chars_of(sorted[k].fake_value.as_str());
        result = replace_all_exec(&result, &o, &f);
        proof {
            assert(sorted@.take(k + 1).drop_last() =~= sorted@.take(k as int));
            assert(sorted@.take(k + 1).last() == sorted@[k as int]);
        }
        k = k + 1;
    }
    assert(sorted@.take(k as int) =~= sorted@);
    Ok(string_of(&result))
}

// ---------------------------------------------------------------------------
// Resolving and the whole treatment of a string
// ---------------------------------------------------------------------------

/// Each of the first `k` resolved detections whose fake value was already
/// stored carries an `existing-` mapping id.
pub open spec fn existing_tagged(
    states: Seq<(Seq<EntityMapping>, Seq<(String, String)>)>,
    plan: Seq<DetectedEntity>,
    anons: Seq<AnonymizedEntity>,
    k: int,
) -> bool {
    forall|i: int|
        0 <= i < k && lookup_fake(
            (#[trigger] states[i]).0,
            plan[i].entity_type@,
            value_hash(plan[i].original_value@),
        ) is Some ==> is_existing_id(anons[i].mapping_id@)
}

/// The detections of `plan` resolved in turn, through the states `states`,
/// into `anons`, each stored fake value with an `existing-` mapping id.
pub open spec fn resolves_tagged(
    states: Seq<(Seq<EntityMapping>, Seq<(String, String)>)>,
    plan: Seq<DetectedEntity>,
    anons: Seq<AnonymizedEntity>,
) -> bool {
    &&& resolves(states, plan, anons, plan.len() as int)
    &&& existing_tagged(states, plan, anons, plan.len() as int)
}

/// Resolves each detection in turn to a fake value (see [`resolve_step`]):
/// a detection whose type and value have a stored fake value gets it, with an
/// `existing-` mapping id; any other gets a new fake value, whose mapping and
/// fake-to-original pair are stored. A failed clock reading stops the work
/// after the detections resolved so far.
pub fn create_anonymized_entities(
    entities: Vec<DetectedEntity>,
    faker_engine: &mut FakerEngine,
    mapping_store: &mut MappingStore,
) -> (r: Result<Vec<AnonymizedEntity>, ConcealError>)
    ensures
        final(mapping_store).cache_entries() == old(mapping_store).cache_entries(),
        final(mapping_store).retention() == old(mapping_store).retention(),
        match r {
            Ok(v) => exists|states: Seq<(Seq<EntityMapping>, Seq<(String, String)>)>|
                #[trigger] resolves_tagged(states, entities@, v@)
                    && states[0] == tables(*old(mapping_store)) && states.last() == tables(
                    *final(mapping_store),
                ),
            Err(err) => {
                &&& err == ConcealError::ClockBeforeUnixEpoch
                &&& exists|
                    states: Seq<(Seq<EntityMapping>, Seq<(String, String)>)>,
                    anons: Seq<AnonymizedEntity>,
                    k: int,
                |
                    #[trigger] resolves(states, entities@, anons, k) && k < entities@.len()
                        && states[0] == tables(*old(mapping_store)) && states.last() == tables(
                        *final(mapping_store),
                    )
            },
        },
{
    let mut out: Vec<AnonymizedEntity> = Vec::new();
    let ghost start = tables(*mapping_store);
    let ghost mut states: Seq<(Seq<EntityMapping>, Seq<(String, String)>)> = seq![start];
    let mut i: usize = 0;
    while i < entities.len()
        invariant
            i <= entities@.len(),
            start == tables(*old(mapping_store)),
            resolves(states, entities@, out@, i as int),
            existing_tagged(states, entities@, out@, i as int),
            states[0] == start,
            states.last() == tables(*mapping_store),
            mapping_store.cache_entries() == old(mapping_store).cache_entries(),
            mapping_store.retention() == old(mapping_store).retention(),
        decreases entities@.len() - i,
    {
        let ghost before = tables(*mapping_store);
        match resolve(mapping_store, faker_engine, &entities[i], true) {
            Ok(a) => {
                let ghost old_out = out@;
                out.push(a);
                proof {
                    let next = states.push(tables(*mapping_store));
                    assert(out@.drop_last() =~= old_out);
                    assert forall|j: int| 0 <= j < i + 1 implies #[trigger] resolve_step(
                        next[j],
                        entities@[j],
                        out@[j],
                        next[j + 1],
                    ) by {
                        if j < i {
                            assert(next[j] == states[j]);
                            assert(next[j + 1] == states[j + 1]);
                            assert(out@[j] == old_out[j]);
                            assert(resolve_step(states[j], entities@[j], old_out[j], states[j + 1]));
                        } else {
                            assert(next[j] == before);
                        }
                    }
                    assert forall|j: int|
                        0 <= j < i + 1 && lookup_fake(
                            (#[trigger] next[j]).0,
                            entities@[j].entity_type@,
                            value_hash(entities@[j].original_value@),
                        ) is Some implies is_existing_id(out@[j].mapping_id@) by {
                        if j < i {
                            assert(next[j] == states[j]);
                            assert(out@[j] == old_out[j]);
                        } else {
                            assert(next[j] == before);
                        }
                    }
                    states = next;
                }
            },
            Err(err) => {
                assert(resolves(states, entities@, out@, i as int));
                return Err(err);
            },
        }
        i = i + 1;
    }
    assert(resolves_tagged(states, entities@, out@));
    let ghost gout = out@;
    let res: Result<Vec<AnonymizedEntity>, ConcealError> = Ok(out);
    assert(res->Ok_0@ == gout);
    res
}

/// The detections the proxy works with in each mode: those of the regular
/// expressions, those of the language model, or both combined. The proxy has
/// no named-entity recogniser, so `RegexNer` works with the regular
/// expressions alone.
pub open spec fn mode_entities(
    mode: DetectionMode,
    regex_entities: Seq<DetectedEntity>,
    llm_entities: Seq<DetectedEntity>,
) -> Seq<DetectedEntity> {
    match mode {
        DetectionMode::Regex => regex_entities,
        DetectionMode::Llm => llm_entities,
        DetectionMode::RegexLlm => combine(regex_entities + llm_entities),
        DetectionMode::RegexNer => regex_entities,
    }
}

/// A detection that no later detection shares a key with is kept as it is
/// by combining.
proof fn lemma_combine_keeps_last(s: Seq<DetectedEntity>, i: int)
    requires
        0 <= i < s.len(),
        forall|m: int| i < m < s.len() ==> !same_key(#[trigger] s[m], s[i]),
    ensures
        combine(s).contains(s[i]),
{
    lemma_combine_keys(s);
    let c = combine(s);
    assert(has_key_of(c, s[i]));
    let j = choose|j: int| 0 <= j < c.len() && same_key(#[trigger] c[j], s[i]);
    let i2 = choose|i2: int|
        0 <= i2 < s.len() && #[trigger] c[j] == s[i2] && forall|m: int|
            i2 < m < s.len() ==> !same_key(#[trigger] s[m], s[i2]);
    if i2 < i {
        assert(!same_key(s[i], s[i2]));
    } else if i2 > i {
        assert(!same_key(s[i2], s[i]));
    }
    assert(c[j] == s[i]);
}

/// In the hybrid mode the proxy anonymises the regular-expression and the
/// language-model detections together, one per key (type, start, end): every
/// detection of either detector has its key among them; a detection that no
/// later one (the language model's coming after the regular expressions')
/// shares a key with is among them as it is; each of them is a detection of
/// one of the detectors; and no two of them share a key. The other modes
/// take the detections of their detector as they are.
pub proof fn lemma_mode_entities(r: Seq<DetectedEntity>, l: Seq<DetectedEntity>)
    ensures
        mode_entities(DetectionMode::Regex, r, l) == r,
        mode_entities(DetectionMode::RegexNer, r, l) == r,
        mode_entities(DetectionMode::Llm, r, l) == l,
        forall|i: int|
            0 <= i < r.len() ==> has_key_of(mode_entities(DetectionMode::RegexLlm, r, l), #[trigger] r[i]),
        forall|i: int|
            0 <= i < l.len() ==> has_key_of(mode_entities(DetectionMode::RegexLlm, r, l), #[trigger] l[i]),
        forall|i: int|
            0 <= i < l.len() && (forall|m: int| i < m < l.len() ==> !same_key(#[trigger] l[m], l[i]))
                ==> mode_entities(DetectionMode::RegexLlm, r, l).contains(#[trigger] l[i]),
        forall|i: int|
            0 <= i < r.len() && (forall|m: int| i < m < r.len() ==> !same_key(#[trigger] r[m], r[i]))
                && (forall|m: int| 0 <= m < l.len() ==> !same_key(#[trigger] l[m], r[i]))
                ==> mode_entities(DetectionMode::RegexLlm, r, l).contains(#[trigger] r[i]),
        forall|j: int|
            0 <= j < mode_entities(DetectionMode::RegexLlm, r, l).len() ==> r.contains(
                #[trigger] mode_entities(DetectionMode::RegexLlm, r, l)[j],
            ) || l.contains(mode_entities(DetectionMode::RegexLlm, r, l)[j]),
        forall|i: int, j: int|
            0 <= i < j < mode_entities(DetectionMode::RegexLlm, r, l).len() ==> !same_key(
                #[trigger] mode_entities(DetectionMode::RegexLlm, r, l)[i],
                #[trigger] mode_entities(DetectionMode::RegexLlm, r, l)[j],
            ),
{
    let s = r + l;
    let c = mode_entities(DetectionMode::RegexLlm, r, l);
    assert(c == combine(s));
    lemma_combine_keys(s);
    let n = r.len() as int;
    assert forall|i: int| 0 <= i < r.len() implies has_key_of(c, #[trigger] r[i]) by {
        assert(s[i] == r[i]);
    }
    assert forall|i: int| 0 <= i < l.len() implies has_key_of(c, #[trigger] l[i]) by {
        assert(s[n + i] == l[i]);
    }
    assert forall|i: int|
        0 <= i < l.len() && (forall|m: int| i < m < l.len() ==> !same_key(#[trigger] l[m], l[i]))
            implies c.contains(#[trigger] l[i]) by {
        assert(s[n + i] == l[i]);
        assert forall|m: int| n + i < m < s.len() implies !same_key(#[trigger] s[m], s[n + i]) by {
            assert(s[m] == l[m - n]);
        }
        lemma_combine_keeps_last(s, n + i);
    }
    assert forall|i: int|
        0 <= i < r.len() && (forall|m: int| i < m < r.len() ==> !same_key(#[trigger] r[m], r[i]))
            && (forall|m: int| 0 <= m < l.len() ==> !same_key(#[trigger] l[m], r[i])) implies c.contains(
        #[trigger] r[i],
    ) by {
        assert(s[i] == r[i]);
        assert forall|m: int| i < m < s.len() implies !same_key(#[trigger] s[m], s[i]) by {
            if m < n {
                assert(s[m] == r[m]);
            } else {
                assert(s[m] == l[m - n]);
            }
        }
        lemma_combine_keeps_last(s, i);
    }
    assert forall|j: int| 0 <= j < c.len() implies r.contains(#[trigger] c[j]) || l.contains(c[j]) by {
        let i = choose|i: int|
            0 <= i < s.len() && #[trigger] c[j] == s[i] && forall|m: int|
                i < m < s.len() ==> !same_key(#[trigger] s[m], s[i]);
        if i < n {
            assert(s[i] == r[i]);
        } else {
            assert(s[i] == l[i - n]);
        }
    }
}

/// Anonymises one string given the detections of the regular expressions and
/// of the language model (see [`llm_entities`]): the detections of the mode
/// (see [`mode_entities`]); none leaves the string and the store as they
/// are; otherwise each is resolved to a fake value (see
/// [`create_anonymized_entities`]) and the fake values replace the original
/// values (see [`apply_replacements`]).
pub fn process_text(
    text: &str,
    mode: DetectionMode,
    regex_entities: Vec<DetectedEntity>,
    llm_entities: Vec<DetectedEntity>,
    faker_engine: &mut FakerEngine,
    mapping_store: &mut MappingStore,
) -> (r: Result<String, ConcealError>)
    ensures
        final(mapping_store).cache_entries() == old(mapping_store).cache_entries(),
        final(mapping_store).retention() == old(mapping_store).retention(),
        mode_entities(mode, regex_entities@, llm_entities@).len() == 0 ==> r == Ok::<
            String,
            ConcealError,
        >(r->Ok_0) && r->Ok_0@ == text@ && tables(*final(mapping_store)) == tables(
            *old(mapping_store),
        ),
        mode_entities(mode, regex_entities@, llm_entities@).len() > 0 ==> match r {
            Ok(s) => exists|
                states: Seq<(Seq<EntityMapping>, Seq<(String, String)>)>,
                anons: Seq<AnonymizedEntity>,
            |
                #[trigger] resolves_tagged(
                    states,
                    mode_entities(mode, regex_entities@, llm_entities@),
                    anons,
                ) && states[0] == tables(*old(mapping_store)) && states.last() == tables(
                    *final(mapping_store),
                ) && s@ == replaced(text@, anons),
            Err(err) => {
                &&& err == ConcealError::ClockBeforeUnixEpoch
                &&& exists|
                    states: Seq<(Seq<EntityMapping>, Seq<(String, String)>)>,
                    anons: Seq<AnonymizedEntity>,
                    k: int,
                |
                    #[trigger] resolves(
                        states,
                        mode_entities(mode, regex_entities@, llm_entities@),
                        anons,
                        k,
                    ) && k < mode_entities(mode, regex_entities@, llm_entities@).len()
                        && states[0] == tables(*old(mapping_store)) && states.last() == tables(
                        *final(mapping_store),
                    )
            },
        },
{
    let combined = match mode {
        DetectionMode::Regex => regex_entities,
        DetectionMode::Llm => llm_entities,
        DetectionMode::RegexLlm => combine_entities(regex_entities, llm_entities),
        DetectionMode::RegexNer => regex_entities,
    };
    if combined.len() == 0 {
        return Ok(string_of(&chars_of(text)));
    }
    let anonymized = match create_anonymized_entities(combined, faker_engine, mapping_store) {
        Ok(v) => v,
        Err(err) => return Err(err),
    };
    apply_replacements(text, anonymized.as_slice())
}

/// The language-model detections of a string: the cached ones for the string
/// and model when there are any; otherwise, when the model answered (it was
/// reachable and gave `answer`), its answer, which is cached; otherwise none.
pub fn llm_entities(
    text: &str,
    model_name: &str,
    llm_available: bool,
    answer: Option<Vec<DetectedEntity>>,
    mapping_store: &mut MappingStore,
) -> (r: Result<Vec<DetectedEntity>, ConcealError>)
    ensures
        tables(*final(mapping_store)) == tables(*old(mapping_store)),
        final(mapping_store).retention() == old(mapping_store).retention(),
        match lookup_cache(old(mapping_store).cache_entries(), value_hash(text@), model_name@) {
            Some(cached) => r == Ok::<Vec<DetectedEntity>, ConcealError>(r->Ok_0) && r->Ok_0@
                == cached && final(mapping_store).cache_entries() == old(
                mapping_store,
            ).cache_entries(),
            None => if llm_available && answer is Some {
                match r {
                    Ok(v) => {
                        &&& v@ == answer->Some_0@
                        &&& lookup_cache(
                            final(mapping_store).cache_entries(),
                            value_hash(text@),
                            model_name@,
                        ) == Some(v@)
                    },
                    Err(err) => err == ConcealError::ClockBeforeUnixEpoch
                        && final(mapping_store).cache_entries() == old(
                        mapping_store,
                    ).cache_entries(),
                }
            } else {
                r == Ok::<Vec<DetectedEntity>, ConcealError>(r->Ok_0) && r->Ok_0@.len() == 0
                    && final(mapping_store).cache_entries() == old(mapping_store).cache_entries()
            },
        },
{
    let cached = match mapping_store.get_llm_cache(text, model_name) {
        Ok(c) => c,
        Err(err) => return Err(err),
    };
    match cached {
        Some(v) => Ok(v),
        None => {
            if llm_available {
                match answer {
                    Some(v) => {
                        match mapping_store.store_llm_cache(text, v.as_slice(), model_name) {
                            Ok(_) => {
                                proof {
                                    lemma_cache_after_store(
                                        old(mapping_store).cache_entries(),
                                        mapping_store.cache_entries().last(),
                                    );
                                }
                                Ok(v)
                            },
                            Err(err) => Err(err),
                        }
                    },
                    None => Ok(Vec::new()),
                }
            } else {
                Ok(Vec::new())
            }
        },
    }
}

} // verus!
