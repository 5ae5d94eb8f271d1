//! The mapping store: which fake value stands for which original value, the
//! fake-to-original table used to restore originals, and the cache of
//! language-model detections.
//!
//! The store keeps the three tables of the database as lists of rows and
//! applies the database's rules to them: a mapping is keyed by its entity type
//! and the hash of its original value and is never overwritten, a cache entry
//! is keyed by its text hash and model and is replaced by a newer one, and a
//! fake value maps to the first original stored for it.

use crate::config::{ConcealError, DetectedEntity, MappingConfig, AnonymizedEntity};
use crate::strmap::StrMap;
use crate::text::{hex, hex_exec, owned, string_of};
use std::hash::{Hash, Hasher};
use vstd::prelude::*;

verus! {

/// One row of the mapping table.
#[derive(Debug, Clone)]
pub struct EntityMapping {
    pub id: String,
    pub entity_type: String,
    pub original_value_hash: String,
    pub fake_value: String,
    pub created_at: u64,
}

/// One row of the language-model cache.
#[derive(Debug, Clone)]
pub struct LlmCacheEntry {
    pub id: String,
    pub text_hash: String,
    pub original_text: String,
    pub llm_result: Vec<DetectedEntity>,
    pub model_name: String,
    pub created_at: u64,
}

/// Counts over the store.
#[derive(Debug)]
pub struct MappingStatistics {
    pub total_mappings: usize,
    pub total_cache_entries: usize,
    pub mappings_by_type: StrMap<usize>,
    pub oldest_mapping_age: Option<u64>,
}

/// The mapping store.
pub struct MappingStore {
    mappings: Vec<EntityMapping>,
    cache: Vec<LlmCacheEntry>,
    reverse: Vec<(String, String)>,
    config: MappingConfig,
}

// ---------------------------------------------------------------------------
// Calls into std
// ---------------------------------------------------------------------------

/// What `DefaultHasher::new()` gives for a string after `str::hash` and
/// `finish`. std fixes the hasher's keys, so the value depends on the string
/// alone within one build; std does not promise it across Rust releases.
pub uninterp spec fn default_hash(value: Seq<char>) -> u64;

/// `DefaultHasher::new()`, `value.hash(&mut h)`, `h.finish()`.
#[verifier::external_body]
fn hash_str(value: &str) -> (r: u64)
    ensures
        r == default_hash(value@),
{
    let mut hasher = std::collections::hash_map::DefaultHasher::new();
    value.hash(&mut hasher);
    hasher.finish()
}

/// `SystemTime::now().duration_since(UNIX_EPOCH)` in whole seconds, or `None`
/// when the clock reads a time before the epoch. The time itself is not
/// stated.
#[verifier::external_body]
fn unix_now() -> Option<u64> {
    match std::time::SystemTime::now().duration_since(std::time::UNIX_EPOCH) {
        Ok(d) => Some(d.as_secs()),
        Err(_) => None,
    }
}

/// `Uuid::new_v4().to_string()`: a random UUID in its hyphenated form of 36
/// characters.
#[verifier::external_body]
fn new_entry_id() -> (r: String)
    ensures
        r@.len() == 36,
{
    uuid::Uuid::new_v4().to_string()
}

// ---------------------------------------------------------------------------
// The model of the tables
// ---------------------------------------------------------------------------

/// The key under which an original value is stored: the lower-case
/// hexadecimal form of its hash.
pub open spec fn value_hash(value: Seq<char>) -> Seq<char> {
    hex(default_hash(value) as nat)
}

/// `row` is the mapping of `original_hash` for `entity_type`.
pub open spec fn has_key(row: EntityMapping, entity_type: Seq<char>, original_hash: Seq<char>) -> bool {
    row.entity_type@ == entity_type && row.original_value_hash@ == original_hash
}

/// Index `i` holds the first row with the given key.
pub open spec fn first_with_key(rows: Seq<EntityMapping>, t: Seq<char>, h: Seq<char>, i: int) -> bool {
    0 <= i < rows.len() && has_key(rows[i], t, h) && forall|j: int|
        0 <= j < i ==> !has_key(#[trigger] rows[j], t, h)
}

/// The fake value stored for `(t, h)`.
pub open spec fn lookup_fake(rows: Seq<EntityMapping>, t: Seq<char>, h: Seq<char>) -> Option<String> {
    if exists|i: int| 0 <= i < rows.len() && has_key(rows[i], t, h) {
        Some(rows[choose|i: int| first_with_key(rows, t, h, i)].fake_value)
    } else {
        None
    }
}

/// `row` is the row that storing `a` at time `now` adds.
pub open spec fn is_mapping_row(row: EntityMapping, a: AnonymizedEntity, now: u64) -> bool {
    &&& row.id == a.mapping_id
    &&& row.entity_type == a.entity_type
    &&& row.original_value_hash@ == value_hash(a.original_value@)
    &&& row.fake_value == a.fake_value
    &&& row.created_at == now
}

/// Inserting `row` conflicts with a stored row: one has the same id, or the
/// same entity type and original-value hash.
pub open spec fn mapping_conflicts(rows: Seq<EntityMapping>, row: EntityMapping) -> bool {
    exists|i: int|
        0 <= i < rows.len() && (rows[i].id@ == row.id@ || has_key(
            #[trigger] rows[i],
            row.entity_type@,
            row.original_value_hash@,
        ))
}

/// `INSERT OR IGNORE` of a mapping row.
pub open spec fn insert_mapping(rows: Seq<EntityMapping>, row: EntityMapping) -> Seq<EntityMapping> {
    if mapping_conflicts(rows, row) {
        rows
    } else {
        rows.push(row)
    }
}

/// `rows` are the rows that storing `ents` at time `now` adds, one each.
pub open spec fn are_mapping_rows(rows: Seq<EntityMapping>, ents: Seq<AnonymizedEntity>, now: u64) -> bool {
    rows.len() == ents.len() && forall|i: int|
        0 <= i < rows.len() ==> is_mapping_row(#[trigger] rows[i], ents[i], now)
}

/// Storing the rows `new` in turn.
pub open spec fn insert_mappings(rows: Seq<EntityMapping>, new: Seq<EntityMapping>) -> Seq<EntityMapping>
    decreases new.len(),
{
    if new.len() == 0 {
        rows
    } else {
        insert_mapping(insert_mappings(rows, new.drop_last()), new.last())
    }
}

/// The rows created at or after `cutoff`.
pub open spec fn unexpired_mappings(rows: Seq<EntityMapping>, cutoff: u64) -> Seq<EntityMapping> {
    rows.filter(|r: EntityMapping| r.created_at >= cutoff)
}

/// The cache entries created at or after `cutoff`.
pub open spec fn unexpired_cache(entries: Seq<LlmCacheEntry>, cutoff: u64) -> Seq<LlmCacheEntry> {
    entries.filter(|e: LlmCacheEntry| e.created_at >= cutoff)
}

/// The cut-off time for a retention period: `now` less the period, floored
/// at zero.
pub open spec fn retention_cutoff(now: u64, days: u32) -> u64 {
    if now >= days * 86400 {
        (now - days * 86400) as u64
    } else {
        0
    }
}

/// The number of removed rows and entries reported: their sum, capped at
/// `usize::MAX`.
pub open spec fn removed_count(rows: int, entries: int) -> int {
    if rows + entries <= usize::MAX {
        rows + entries
    } else {
        usize::MAX as int
    }
}

/// `e` is the cache entry for `(h, model)`.
pub open spec fn is_cache_key(e: LlmCacheEntry, h: Seq<char>, model: Seq<char>) -> bool {
    e.text_hash@ == h && e.model_name@ == model
}

/// `e` collides with `new` on one of the cache's unique keys.
pub open spec fn cache_collides(e: LlmCacheEntry, new: LlmCacheEntry) -> bool {
    e.id@ == new.id@ || is_cache_key(e, new.text_hash@, new.model_name@)
}

/// `INSERT OR REPLACE` of a cache entry: the entries that collide with it go,
/// it comes last.
pub open spec fn insert_cache(entries: Seq<LlmCacheEntry>, new: LlmCacheEntry) -> Seq<LlmCacheEntry> {
    entries.filter(|e: LlmCacheEntry| !cache_collides(e, new)).push(new)
}

/// Index `i` holds the first cache entry for `(h, model)`.
pub open spec fn first_cache_entry(entries: Seq<LlmCacheEntry>, h: Seq<char>, model: Seq<char>, i: int) -> bool {
    0 <= i < entries.len() && is_cache_key(entries[i], h, model) && forall|j: int|
        0 <= j < i ==> !is_cache_key(#[trigger] entries[j], h, model)
}

/// The detections cached for `(h, model)`.
pub open spec fn lookup_cache(entries: Seq<LlmCacheEntry>, h: Seq<char>, model: Seq<char>) -> Option<Seq<DetectedEntity>> {
    if exists|i: int| 0 <= i < entries.len() && is_cache_key(entries[i], h, model) {
        Some(entries[choose|i: int| first_cache_entry(entries, h, model, i)].llm_result@)
    } else {
        None
    }
}

/// `pairs` has a pair whose fake value is `fake`.
pub open spec fn has_fake(pairs: Seq<(String, String)>, fake: Seq<char>) -> bool {
    exists|i: int| 0 <= i < pairs.len() && (#[trigger] pairs[i]).0@ == fake
}

/// `INSERT OR IGNORE` of a fake-to-original pair, keyed by the fake value.
pub open spec fn insert_reverse(pairs: Seq<(String, String)>, fake: String, original: String) -> Seq<(String, String)> {
    if has_fake(pairs, fake@) {
        pairs
    } else {
        pairs.push((fake, original))
    }
}

/// Index `i` holds the first pair for `fake`.
pub open spec fn first_reverse(pairs: Seq<(String, String)>, fake: Seq<char>, i: int) -> bool {
    0 <= i < pairs.len() && pairs[i].0@ == fake && forall|j: int|
        0 <= j < i ==> (#[trigger] pairs[j]).0@ != fake
}

/// The original value stored for `fake`.
pub open spec fn lookup_original(pairs: Seq<(String, String)>, fake: Seq<char>) -> Option<String> {
    if has_fake(pairs, fake) {
        Some(pairs[choose|i: int| first_reverse(pairs, fake, i)].1)
    } else {
        None
    }
}

/// The number of rows of entity type `t`.
pub open spec fn type_count(rows: Seq<EntityMapping>, t: Seq<char>) -> nat {
    rows.filter(|r: EntityMapping| r.entity_type@ == t).len()
}

/// The earliest creation time among the rows.
pub open spec fn oldest_created(rows: Seq<EntityMapping>) -> Option<u64>
    decreases rows.len(),
{
    if rows.len() == 0 {
        None
    } else {
        match oldest_created(rows.drop_last()) {
            None => Some(rows.last().created_at),
            Some(m) => Some(
                if m <= rows.last().created_at {
                    m
                } else {
                    rows.last().created_at
                },
            ),
        }
    }
}

// ---------------------------------------------------------------------------
// Lemmas
// ---------------------------------------------------------------------------

/// The earliest creation time is the least `created_at` of the rows: there
/// is one exactly when there are rows, no row was created before it, and
/// some row was created at it.
pub proof fn lemma_oldest_created(rows: Seq<EntityMapping>)
    ensures
        oldest_created(rows) is None <==> rows.len() == 0,
        oldest_created(rows) matches Some(m) ==> (forall|i: int|
            0 <= i < rows.len() ==> m <= (#[trigger] rows[i]).created_at) && exists|i: int|
            0 <= i < rows.len() && (#[trigger] rows[i]).created_at == m,
    decreases rows.len(),
{
    if rows.len() > 0 {
        let d = rows.drop_last();
        lemma_oldest_created(d);
        let last = rows.len() - 1;
        assert(rows[last] == rows.last());
        assert forall|i: int| 0 <= i < d.len() implies #[trigger] d[i] == rows[i] by {}
        match oldest_created(d) {
            None => {},
            Some(m) => {
                let j = choose|j: int| 0 <= j < d.len() && (#[trigger] d[j]).created_at == m;
                assert(rows[j] == d[j]);
                assert forall|i: int| 0 <= i < rows.len() implies oldest_created(rows)->Some_0 <= (
                #[trigger] rows[i]).created_at by {
                    if i < last {
                        assert(d[i] == rows[i]);
                    }
                }
            },
        }
    }
}

/// When some row has the key, exactly the first such row is found.
proof fn lemma_first_with_key(rows: Seq<EntityMapping>, t: Seq<char>, h: Seq<char>, i: int)
    requires
        first_with_key(rows, t, h, i),
    ensures
        lookup_fake(rows, t, h) == Some(rows[i].fake_value),
{
    let k = choose|k: int| first_with_key(rows, t, h, k);
    assert(first_with_key(rows, t, h, k));
    if k < i {
        assert(!has_key(rows[k], t, h));
    }
    if i < k {
        assert(!has_key(rows[i], t, h));
    }
}

/// When some cache entry has the key, exactly the first such entry is found.
proof fn lemma_first_cache_entry(entries: Seq<LlmCacheEntry>, h: Seq<char>, m: Seq<char>, i: int)
    requires
        first_cache_entry(entries, h, m, i),
    ensures
        lookup_cache(entries, h, m) == Some(entries[i].llm_result@),
{
    let k = choose|k: int| first_cache_entry(entries, h, m, k);
    assert(first_cache_entry(entries, h, m, k));
    if k < i {
        assert(!is_cache_key(entries[k], h, m));
    }
    if i < k {
        assert(!is_cache_key(entries[i], h, m));
    }
}

/// When some pair has the fake value, exactly the first such pair is found.
proof fn lemma_first_reverse(pairs: Seq<(String, String)>, fake: Seq<char>, i: int)
    requires
        first_reverse(pairs, fake, i),
    ensures
        lookup_original(pairs, fake) == Some(pairs[i].1),
{
    assert(has_fake(pairs, fake));
    let k = choose|k: int| first_reverse(pairs, fake, k);
    assert(first_reverse(pairs, fake, k));
    if k < i {
        assert(pairs[k].0@ != fake);
    }
    if i < k {
        assert(pairs[i].0@ != fake);
    }
}

/// After storing a mapping whose id and key are both new, its key finds its
/// fake value; a mapping whose key was present leaves the lookup as it was.
pub proof fn lemma_store_then_get(rows: Seq<EntityMapping>, row: EntityMapping)
    ensures
        !mapping_conflicts(rows, row) ==> lookup_fake(
            insert_mapping(rows, row),
            row.entity_type@,
            row.original_value_hash@,
        ) == Some(row.fake_value),
        lookup_fake(rows, row.entity_type@, row.original_value_hash@) is Some ==> lookup_fake(
            insert_mapping(rows, row),
            row.entity_type@,
            row.original_value_hash@,
        ) == lookup_fake(rows, row.entity_type@, row.original_value_hash@),
{
    let t = row.entity_type@;
    let h = row.original_value_hash@;
    if !mapping_conflicts(rows, row) {
        let n = rows.push(row);
        assert forall|j: int| 0 <= j < rows.len() implies !has_key(#[trigger] n[j], t, h) by {
            assert(n[j] == rows[j]);
        }
        assert(first_with_key(n, t, h, rows.len() as int));
        lemma_first_with_key(n, t, h, rows.len() as int);
    }
    if lookup_fake(rows, t, h) is Some {
        assert(mapping_conflicts(rows, row));
    }
}

/// Storing a mapping never changes the fake value already found for a key:
/// forward mappings are not overwritten.
pub proof fn lemma_insert_keeps_lookup(rows: Seq<EntityMapping>, row: EntityMapping, t: Seq<char>, h: Seq<char>)
    requires
        lookup_fake(rows, t, h) is Some,
    ensures
        lookup_fake(insert_mapping(rows, row), t, h) == lookup_fake(rows, t, h),
{
    if !mapping_conflicts(rows, row) {
        let n = rows.push(row);
        assert(exists|i: int| 0 <= i < rows.len() && has_key(rows[i], t, h));
        let j = choose|j: int| 0 <= j < rows.len() && has_key(rows[j], t, h);
        lemma_first_exists(rows, t, h, j);
        let i = choose|i: int| first_with_key(rows, t, h, i);
        lemma_first_with_key(rows, t, h, i);
        assert forall|m: int| 0 <= m < i implies !has_key(#[trigger] n[m], t, h) by {
            assert(n[m] == rows[m]);
        }
        assert(n[i] == rows[i]);
        assert(first_with_key(n, t, h, i));
        lemma_first_with_key(n, t, h, i);
    }
}

/// When some row has a key, a first row with it exists.
proof fn lemma_first_exists(rows: Seq<EntityMapping>, t: Seq<char>, h: Seq<char>, j: int)
    requires
        0 <= j < rows.len(),
        has_key(rows[j], t, h),
    ensures
        exists|i: int| first_with_key(rows, t, h, i),
    decreases j,
{
    if exists|m: int| 0 <= m < j && has_key(#[trigger] rows[m], t, h) {
        let m = choose|m: int| 0 <= m < j && has_key(#[trigger] rows[m], t, h);
        lemma_first_exists(rows, t, h, m);
    } else {
        assert(first_with_key(rows, t, h, j));
    }
}

/// After a cache entry is stored, a lookup of its text hash and model finds
/// its detections.
pub proof fn lemma_cache_after_store(entries: Seq<LlmCacheEntry>, new: LlmCacheEntry)
    ensures
        lookup_cache(insert_cache(entries, new), new.text_hash@, new.model_name@) == Some(
            new.llm_result@,
        ),
{
    let pred = |e: LlmCacheEntry| !cache_collides(e, new);
    let f = entries.filter(pred);
    let r = f.push(new);
    assert(r == insert_cache(entries, new));
    assert forall|j: int| 0 <= j < f.len() implies !is_cache_key(
        #[trigger] r[j],
        new.text_hash@,
        new.model_name@,
    ) by {
        entries.lemma_filter_pred(pred, j);
        assert(r[j] == f[j]);
    }
    assert(first_cache_entry(r, new.text_hash@, new.model_name@, f.len() as int));
    lemma_first_cache_entry(r, new.text_hash@, new.model_name@, f.len() as int);
}

/// Storing a fake-to-original pair never changes what an already stored fake
/// value leads back to.
pub proof fn lemma_reverse_keeps(pairs: Seq<(String, String)>, fake: String, original: String, g: Seq<char>)
    requires
        has_fake(pairs, g),
    ensures
        lookup_original(insert_reverse(pairs, fake, original), g) == lookup_original(pairs, g),
{
    if !has_fake(pairs, fake@) {
        let n = pairs.push((fake, original));
        let j = choose|j: int| 0 <= j < pairs.len() && (#[trigger] pairs[j]).0@ == g;
        lemma_first_reverse_exists(pairs, g, j);
        let i = choose|i: int| first_reverse(pairs, g, i);
        lemma_first_reverse(pairs, g, i);
        assert forall|m: int| 0 <= m < i implies (#[trigger] n[m]).0@ != g by {
            assert(n[m] == pairs[m]);
        }
        assert(n[i] == pairs[i]);
        assert(first_reverse(n, g, i));
        lemma_first_reverse(n, g, i);
    }
}

/// When some pair has a fake value, a first such pair exists.
pub proof fn lemma_first_reverse_exists(pairs: Seq<(String, String)>, g: Seq<char>, j: int)
    requires
        0 <= j < pairs.len(),
        pairs[j].0@ == g,
    ensures
        exists|i: int| first_reverse(pairs, g, i),
    decreases j,
{
    if exists|m: int| 0 <= m < j && (#[trigger] pairs[m]).0@ == g {
        let m = choose|m: int| 0 <= m < j && (#[trigger] pairs[m]).0@ == g;
        lemma_first_reverse_exists(pairs, g, m);
    } else {
        assert(first_reverse(pairs, g, j));
    }
}

/// After a fake-to-original pair is stored, its fake value leads back to its
/// original value, unless the fake value was already stored, in which case
/// the earlier pair stays.
pub proof fn lemma_reverse_after_store(pairs: Seq<(String, String)>, fake: String, original: String)
    ensures
        !has_fake(pairs, fake@) ==> lookup_original(insert_reverse(pairs, fake, original), fake@)
            == Some(original),
        has_fake(pairs, fake@) ==> lookup_original(insert_reverse(pairs, fake, original), fake@)
            == lookup_original(pairs, fake@),
{
    if !has_fake(pairs, fake@) {
        let n = pairs.push((fake, original));
        assert forall|j: int| 0 <= j < pairs.len() implies (#[trigger] n[j]).0@ != fake@ by {
            assert(n[j] == pairs[j]);
        }
        assert(first_reverse(n, fake@, pairs.len() as int));
        lemma_first_reverse(n, fake@, pairs.len() as int);
    }
}

/// No entry of `entries` is the cache entry for `(h, model)` exactly when the
/// lookup finds nothing.
proof fn lemma_cache_none(entries: Seq<LlmCacheEntry>, h: Seq<char>, model: Seq<char>)
    ensures
        lookup_cache(entries, h, model) is None <==> forall|i: int|
            0 <= i < entries.len() ==> !is_cache_key(#[trigger] entries[i], h, model),
{
    if exists|j: int| 0 <= j < entries.len() && is_cache_key(entries[j], h, model) {
        let j = choose|j: int| 0 <= j < entries.len() && is_cache_key(entries[j], h, model);
        assert(!is_cache_key(entries[j], h, model) ==> false);
    }
}

/// Appending an entry changes the lookup of `(h, model)` only when nothing
/// was found before and the entry is for `(h, model)`.
proof fn lemma_cache_push(entries: Seq<LlmCacheEntry>, x: LlmCacheEntry, h: Seq<char>, model: Seq<char>)
    ensures
        lookup_cache(entries, h, model) is Some ==> lookup_cache(entries.push(x), h, model)
            == lookup_cache(entries, h, model),
        !is_cache_key(x, h, model) ==> lookup_cache(entries.push(x), h, model) == lookup_cache(
            entries,
            h,
            model,
        ),
        lookup_cache(entries, h, model) is None && is_cache_key(x, h, model) ==> lookup_cache(
            entries.push(x),
            h,
            model,
        ) == Some(x.llm_result@),
{
    let n = entries.push(x);
    lemma_cache_none(entries, h, model);
    lemma_cache_none(n, h, model);
    if lookup_cache(entries, h, model) is Some {
        let j = choose|j: int| 0 <= j < entries.len() && is_cache_key(entries[j], h, model);
        lemma_first_cache_exists(entries, h, model, j);
        let i = choose|i: int| first_cache_entry(entries, h, model, i);
        lemma_first_cache_entry(entries, h, model, i);
        assert forall|m: int| 0 <= m < i implies !is_cache_key(#[trigger] n[m], h, model) by {
            assert(n[m] == entries[m]);
        }
        assert(n[i] == entries[i]);
        assert(first_cache_entry(n, h, model, i));
        lemma_first_cache_entry(n, h, model, i);
    } else if is_cache_key(x, h, model) {
        assert forall|m: int| 0 <= m < entries.len() implies !is_cache_key(#[trigger] n[m], h, model) by {
            assert(n[m] == entries[m]);
        }
        assert(first_cache_entry(n, h, model, entries.len() as int));
        lemma_first_cache_entry(n, h, model, entries.len() as int);
    } else {
        assert forall|m: int| 0 <= m < n.len() implies !is_cache_key(#[trigger] n[m], h, model) by {
            if m < entries.len() {
                assert(n[m] == entries[m]);
            }
        }
    }
}

/// When some entry is for `(h, model)`, a first such entry exists.
proof fn lemma_first_cache_exists(entries: Seq<LlmCacheEntry>, h: Seq<char>, model: Seq<char>, j: int)
    requires
        0 <= j < entries.len(),
        is_cache_key(entries[j], h, model),
    ensures
        exists|i: int| first_cache_entry(entries, h, model, i),
    decreases j,
{
    if exists|m: int| 0 <= m < j && is_cache_key(#[trigger] entries[m], h, model) {
        let m = choose|m: int| 0 <= m < j && is_cache_key(#[trigger] entries[m], h, model);
        lemma_first_cache_exists(entries, h, model, m);
    } else {
        assert(first_cache_entry(entries, h, model, j));
    }
}

/// A cache entry for a text and model is still found after entries for other
/// texts or models are stored, unless one of them reuses its id.
pub proof fn lemma_cache_after_other_store(
    entries: Seq<LlmCacheEntry>,
    new: LlmCacheEntry,
    h: Seq<char>,
    model: Seq<char>,
)
    requires
        !is_cache_key(new, h, model),
        forall|i: int|
            0 <= i < entries.len() && is_cache_key(entries[i], h, model) ==> (#[trigger] entries[i]).id@
                != new.id@,
    ensures
        lookup_cache(insert_cache(entries, new), h, model) == lookup_cache(entries, h, model),
{
    let f = entries.filter(|e: LlmCacheEntry| !cache_collides(e, new));
    lemma_cache_filter_ids(entries, new, h, model);
    lemma_cache_push(f, new, h, model);
}

/// The cache entries after each of `news` is stored in turn.
pub open spec fn insert_cache_all(entries: Seq<LlmCacheEntry>, news: Seq<LlmCacheEntry>) -> Seq<LlmCacheEntry>
    decreases news.len(),
{
    if news.len() == 0 {
        entries
    } else {
        insert_cache_all(insert_cache(entries, news[0]), news.skip(1))
    }
}

/// The entries kept by a filter are entries of the sequence.
proof fn lemma_cache_filter_subset(entries: Seq<LlmCacheEntry>, keep: spec_fn(LlmCacheEntry) -> bool)
    ensures
        forall|x: LlmCacheEntry| #[trigger] entries.filter(keep).contains(x) ==> entries.contains(x),
    decreases entries.len(),
{
    reveal_with_fuel(Seq::<_>::filter, 1);
    if entries.len() > 0 {
        let d = entries.drop_last();
        lemma_cache_filter_subset(d, keep);
        assert forall|x: LlmCacheEntry| #[trigger] entries.filter(keep).contains(x) implies entries.contains(x) by {
            let f = entries.filter(keep);
            let a = choose|a: int| 0 <= a < f.len() && f[a] == x;
            if keep(entries.last()) && a == f.len() - 1 {
                assert(entries[entries.len() - 1] == x);
            } else {
                assert(d.filter(keep)[a] == x);
                assert(d.filter(keep).contains(x));
                let b = choose|b: int| 0 <= b < d.len() && d[b] == x;
                assert(entries[b] == x);
            }
        }
    }
}

/// A cache entry for a text and model is still found after any number of
/// entries for other texts or models are stored, none of which reuses its id.
pub proof fn lemma_cache_after_other_stores(
    entries: Seq<LlmCacheEntry>,
    news: Seq<LlmCacheEntry>,
    h: Seq<char>,
    model: Seq<char>,
)
    requires
        forall|k: int| 0 <= k < news.len() ==> !is_cache_key(#[trigger] news[k], h, model),
        forall|i: int, k: int|
            0 <= i < entries.len() && 0 <= k < news.len() && is_cache_key(entries[i], h, model)
                ==> (#[trigger] entries[i]).id@ != (#[trigger] news[k]).id@,
    ensures
        lookup_cache(insert_cache_all(entries, news), h, model) == lookup_cache(entries, h, model),
    decreases news.len(),
{
    if news.len() > 0 {
        let n0 = news[0];
        let rest = news.skip(1);
        let keep = |e: LlmCacheEntry| !cache_collides(e, n0);
        let f = entries.filter(keep);
        let e1 = insert_cache(entries, n0);
        assert forall|i: int| 0 <= i < entries.len() && is_cache_key(entries[i], h, model) implies (
        #[trigger] entries[i]).id@ != n0.id@ by {
            assert(entries[i].id@ != news[0].id@);
        }
        lemma_cache_after_other_store(entries, n0, h, model);
        lemma_cache_filter_subset(entries, keep);
        assert forall|i: int, k: int|
            0 <= i < e1.len() && 0 <= k < rest.len() && is_cache_key(e1[i], h, model) implies (
            #[trigger] e1[i]).id@ != (#[trigger] rest[k]).id@ by {
            assert(rest[k] == news[k + 1]);
            if i < f.len() {
                assert(e1[i] == f[i]);
                assert(f.contains(f[i]));
                let b = choose|b: int| 0 <= b < entries.len() && entries[b] == f[i];
                assert(entries[b].id@ != news[k + 1].id@);
            } else {
                assert(e1[i] == n0);
                assert(!is_cache_key(news[0], h, model));
            }
        }
        assert forall|k: int| 0 <= k < rest.len() implies !is_cache_key(#[trigger] rest[k], h, model) by {
            assert(rest[k] == news[k + 1]);
        }
        lemma_cache_after_other_stores(e1, rest, h, model);
    }
}

/// After a cache entry is stored, later stores for other texts or models,
/// none of which reuses its id, leave it to be found: a lookup of its text
/// hash and model gives its detections.
pub proof fn lemma_cache_read_after_stores(
    entries: Seq<LlmCacheEntry>,
    new: LlmCacheEntry,
    news: Seq<LlmCacheEntry>,
)
    requires
        forall|k: int|
            0 <= k < news.len() ==> !is_cache_key(#[trigger] news[k], new.text_hash@, new.model_name@)
                && news[k].id@ != new.id@,
    ensures
        lookup_cache(insert_cache_all(insert_cache(entries, new), news), new.text_hash@, new.model_name@)
            == Some(new.llm_result@),
{
    let h = new.text_hash@;
    let model = new.model_name@;
    let keep = |e: LlmCacheEntry| !cache_collides(e, new);
    let f = entries.filter(keep);
    let e1 = insert_cache(entries, new);
    lemma_cache_after_store(entries, new);
    assert forall|i: int, k: int|
        0 <= i < e1.len() && 0 <= k < news.len() && is_cache_key(e1[i], h, model) implies (
        #[trigger] e1[i]).id@ != (#[trigger] news[k]).id@ by {
        if i < f.len() {
            entries.lemma_filter_pred(keep, i);
            assert(e1[i] == f[i]);
        } else {
            assert(e1[i] == new);
        }
    }
    lemma_cache_after_other_stores(e1, news, h, model);
}

/// When the entries for `(h, model)` have ids other than the new entry's,
/// dropping the entries that collide with the new one leaves the lookup of
/// `(h, model)` as it was.
proof fn lemma_cache_filter_ids(entries: Seq<LlmCacheEntry>, new: LlmCacheEntry, h: Seq<char>, model: Seq<char>)
    requires
        !is_cache_key(new, h, model),
        forall|i: int|
            0 <= i < entries.len() && is_cache_key(entries[i], h, model) ==> (#[trigger] entries[i]).id@
                != new.id@,
    ensures
        lookup_cache(entries.filter(|e: LlmCacheEntry| !cache_collides(e, new)), h, model)
            == lookup_cache(entries, h, model),
    decreases entries.len(),
{
    let keep = |e: LlmCacheEntry| !cache_collides(e, new);
    reveal_with_fuel(Seq::<_>::filter, 1);
    if entries.len() > 0 {
        let p = entries.drop_last();
        let x = entries.last();
        assert forall|i: int|
            0 <= i < p.len() && is_cache_key(p[i], h, model) implies (#[trigger] p[i]).id@
                != new.id@ by {
            assert(p[i] == entries[i]);
        }
        lemma_cache_filter_ids(p, new, h, model);
        assert(p.push(x) =~= entries);
        lemma_cache_push(p, x, h, model);
        if keep(x) {
            lemma_cache_push(p.filter(keep), x, h, model);
        } else {
            assert(x == entries[entries.len() - 1]);
            assert(!is_cache_key(x, h, model));
        }
    }
}

// ---------------------------------------------------------------------------
// The store
// ---------------------------------------------------------------------------

/// A copy of a mapping row.
fn copy_mapping(r: &EntityMapping) -> (c: EntityMapping)
    ensures
        c == *r,
{
    EntityMapping {
        id: r.id.clone(),
        entity_type: r.entity_type.clone(),
        original_value_hash: r.original_value_hash.clone(),
        fake_value: r.fake_value.clone(),
        created_at: r.created_at,
    }
}

/// A copy of a list of detections.
fn copy_entities(v: &[DetectedEntity]) -> (c: Vec<DetectedEntity>)
    ensures
        c@ == v@,
{
    let mut out: Vec<DetectedEntity> = Vec::new();
    let mut i: usize = 0;
    while i < v.len()
        invariant
            i <= v@.len(),
            out@ == v@.take(i as int),
        decreases v@.len() - i,
    {
        out.push(v[i].duplicate());
        i = i + 1;
        assert(out@ =~= v@.take(i as int));
    }
    assert(v@.take(i as int) =~= v@);
    out
}

impl MappingStore {
    /// The rows of the mapping table, oldest first.
    pub closed spec fn mapping_rows(&self) -> Seq<EntityMapping> {
        self.mappings@
    }

    /// The entries of the language-model cache, oldest first.
    pub closed spec fn cache_entries(&self) -> Seq<LlmCacheEntry> {
        self.cache@
    }

    /// The fake-to-original pairs, oldest first.
    pub closed spec fn reverse_pairs(&self) -> Seq<(String, String)> {
        self.reverse@
    }

    /// The retention period in days, if any.
    pub closed spec fn retention(&self) -> Option<u32> {
        self.config.retention_days
    }

    /// A store with no rows, expired entries already removed.
    pub fn new(config: MappingConfig) -> (r: Result<Self, ConcealError>)
        ensures
            match r {
                Ok(s) => s.mapping_rows().len() == 0 && s.cache_entries().len() == 0
                    && s.reverse_pairs().len() == 0 && s.retention() == config.retention_days,
                Err(e) => e == ConcealError::ClockBeforeUnixEpoch
                    && config.retention_days is Some,
            },
    {
        let mut store = MappingStore {
            mappings: Vec::new(),
            cache: Vec::new(),
            reverse: Vec::new(),
            config,
        };
        match store.cleanup_expired_mappings() {
            Ok(_) => {
                assert(store.mappings@.len() == 0);
                Ok(store)
            },
            Err(e) => Err(e),
        }
    }

    /// The key under which `value` is stored: its hash in lower-case
    /// hexadecimal.
    pub fn hash_value(&self, value: &str) -> (r: String)
        ensures
            r@ == value_hash(value@),
    {
        string_of(&hex_exec(hash_str(value)))
    }

    /// The position of the first row with the given key.
    fn find_mapping(&self, t: &String, h: &String) -> (r: Option<usize>)
        ensures
            match r {
                Some(i) => first_with_key(self.mappings@, t@, h@, i as int),
                None => forall|j: int|
                    0 <= j < self.mappings@.len() ==> !has_key(#[trigger] self.mappings@[j], t@, h@),
            },
    {
        let mut i: usize = 0;
        while i < self.mappings.len()
            invariant
                i <= self.mappings@.len(),
                forall|j: int| 0 <= j < i ==> !has_key(#[trigger] self.mappings@[j], t@, h@),
            decreases self.mappings@.len() - i,
        {
            if self.mappings[i].entity_type == *t && self.mappings[i].original_value_hash == *h {
                return Some(i);
            }
            i = i + 1;
        }
        None
    }

    /// The fake value stored for `(t, h)`, as a lookup on the rows.
    fn lookup(&self, t: &String, h: &String) -> (r: Option<String>)
        ensures
            r == lookup_fake(self.mappings@, t@, h@),
    {
        match self.find_mapping(t, h) {
            Some(i) => {
                proof {
                    lemma_first_with_key(self.mappings@, t@, h@, i as int);
                }
                Some(self.mappings[i].fake_value.clone())
            },
            None => None,
        }
    }

    /// Adds `row` unless a row with its id or key is present.
    fn insert_row(&mut self, row: EntityMapping)
        ensures
            final(self).mappings@ == insert_mapping(old(self).mappings@, row),
            final(self).cache@ == old(self).cache@,
            final(self).reverse@ == old(self).reverse@,
            final(self).config == old(self).config,
    {
        let mut i: usize = 0;
        while i < self.mappings.len()
            invariant
                i <= self.mappings@.len(),
                forall|j: int|
                    0 <= j < i ==> !(self.mappings@[j].id@ == row.id@ || has_key(
                        #[trigger] self.mappings@[j],
                        row.entity_type@,
                        row.original_value_hash@,
                    )),
            decreases self.mappings@.len() - i,
        {
            if self.mappings[i].id == row.id || (self.mappings[i].entity_type == row.entity_type
                && self.mappings[i].original_value_hash == row.original_value_hash) {
                assert(mapping_conflicts(self.mappings@, row));
                return;
            }
            i = i + 1;
        }
        self.mappings.push(row);
    }

    /// Stores the mapping of an anonymised entity at time `now`, unless a
    /// mapping with its id or with its type and original value is present.
    pub fn store_mapping_at(&mut self, anonymized: &AnonymizedEntity, now: u64)
        ensures
            exists|row: EntityMapping|
                is_mapping_row(row, *anonymized, now) && final(self).mapping_rows()
                    == #[trigger] insert_mapping(old(self).mapping_rows(), row),
            final(self).cache_entries() == old(self).cache_entries(),
            final(self).reverse_pairs() == old(self).reverse_pairs(),
            final(self).retention() == old(self).retention(),
    {
        let hash = self.hash_value(anonymized.original_value.as_str());
        let row = EntityMapping {
            id: anonymized.mapping_id.clone(),
            entity_type: anonymized.entity_type.clone(),
            original_value_hash: hash,
            fake_value: anonymized.fake_value.clone(),
            created_at: now,
        };
        let ghost r = row;
        self.insert_row(row);
        assert(is_mapping_row(r, *anonymized, now));
        assert(self.mapping_rows() == insert_mapping(old(self).mapping_rows(), r));
    }

    /// Stores the mapping of an anonymised entity, stamped with the current
    /// time.
    pub fn store_mapping(&mut self, anonymized: &AnonymizedEntity) -> (r: Result<(), ConcealError>)
        ensures
            match r {
                Ok(_) => exists|row: EntityMapping, now: u64|
                    #[trigger] is_mapping_row(row, *anonymized, now) && final(self).mapping_rows()
                        == insert_mapping(old(self).mapping_rows(), row),
                Err(e) => e == ConcealError::ClockBeforeUnixEpoch && final(self).mapping_rows()
                    == old(self).mapping_rows(),
            },
            final(self).cache_entries() == old(self).cache_entries(),
            final(self).reverse_pairs() == old(self).reverse_pairs(),
            final(self).retention() == old(self).retention(),
    {
        match unix_now() {
            Some(now) => {
                self.store_mapping_at(anonymized, now);
                let ghost row = choose|row: EntityMapping|
                    is_mapping_row(row, *anonymized, now) && self.mapping_rows()
                        == #[trigger] insert_mapping(old(self).mapping_rows(), row);
                assert(is_mapping_row(row, *anonymized, now));
                Ok(())
            },
            None => Err(ConcealError::ClockBeforeUnixEpoch),
        }
    }

    /// The fake value stored for `original_value` of `entity_type`.
    pub fn get_mapping(&self, entity_type: &str, original_value: &str) -> (r: Result<
        Option<String>,
        ConcealError,
    >)
        ensures
            r == Ok::<Option<String>, ConcealError>(
                lookup_fake(self.mapping_rows(), entity_type@, value_hash(original_value@)),
            ),
    {
        let t = owned(entity_type);
        let h = self.hash_value(original_value);
        Ok(self.lookup(&t, &h))
    }

    /// Stores the mappings of the entities in turn, all stamped with `now`.
    pub fn store_mappings_batch_at(&mut self, anonymized_entities: &[AnonymizedEntity], now: u64)
        ensures
            exists|rows: Seq<EntityMapping>|
                #[trigger] are_mapping_rows(rows, anonymized_entities@, now) && final(self).mapping_rows() == insert_mappings(old(self).mapping_rows(), rows),
            final(self).cache_entries() == old(self).cache_entries(),
            final(self).reverse_pairs() == old(self).reverse_pairs(),
            final(self).retention() == old(self).retention(),
    {
        let mut i: usize = 0;
        let ghost mut rows: Seq<EntityMapping> = Seq::empty();
        while i < anonymized_entities.len()
            invariant
                i <= anonymized_entities@.len(),
                rows.len() == i,
                forall|j: int|
                    0 <= j < i ==> is_mapping_row(#[trigger] rows[j], anonymized_entities@[j], now),
                self.mappings@ == insert_mappings(old(self).mappings@, rows),
                self.cache@ == old(self).cache@,
                self.reverse@ == old(self).reverse@,
                self.config.retention_days == old(self).config.retention_days,
            decreases anonymized_entities@.len() - i,
        {
            let ghost before = self.mappings@;
            self.store_mapping_at(&anonymized_entities[i], now);
            proof {
                let row = choose|row: EntityMapping|
                    is_mapping_row(row, anonymized_entities@[i as int], now) && self.mappings@
                        == #[trigger] insert_mapping(before, row);
                let next = rows.push(row);
                assert(next.drop_last() =~= rows);
                rows = next;
            }
            i = i + 1;
        }
        assert(are_mapping_rows(rows, anonymized_entities@, now));
    }

    /// Stores the mappings of the entities in turn, all stamped with the
    /// current time.
    pub fn store_mappings_batch(&mut self, anonymized_entities: &[AnonymizedEntity]) -> (r: Result<
        (),
        ConcealError,
    >)
        ensures
            match r {
                Ok(_) => exists|rows: Seq<EntityMapping>, now: u64|
                    #[trigger] are_mapping_rows(rows, anonymized_entities@, now) && final(self).mapping_rows() == insert_mappings(old(self).mapping_rows(), rows),
                Err(e) => e == ConcealError::ClockBeforeUnixEpoch && final(self).mapping_rows()
                    == old(self).mapping_rows(),
            },
            final(self).cache_entries() == old(self).cache_entries(),
            final(self).reverse_pairs() == old(self).reverse_pairs(),
            final(self).retention() == old(self).retention(),
    {
        match unix_now() {
            Some(now) => {
                self.store_mappings_batch_at(anonymized_entities, now);
                let ghost rows = choose|rows: Seq<EntityMapping>|
                    #[trigger] are_mapping_rows(rows, anonymized_entities@, now)
                        && self.mapping_rows() == insert_mappings(old(self).mapping_rows(), rows);
                assert(are_mapping_rows(rows, anonymized_entities@, now));
                Ok(())
            },
            None => Err(ConcealError::ClockBeforeUnixEpoch),
        }
    }

    /// For each `(entity_type, original_value)` request with a stored mapping,
    /// the original value mapped to its fake value; a later request for the
    /// same original value overwrites an earlier one.
    pub fn get_mappings_batch(&self, requests: &[(String, String)]) -> (r: Result<
        StrMap<String>,
        ConcealError,
    >)
        ensures
            match r {
                Ok(m) => m@ == batch_lookup(self.mapping_rows(), requests@),
                Err(_) => false,
            },
    {
        let mut results: StrMap<String> = StrMap::new();
        let mut i: usize = 0;
        while i < requests.len()
            invariant
                i <= requests@.len(),
                results@ == batch_lookup(self.mappings@, requests@.take(i as int)),
            decreases requests@.len() - i,
        {
            assert(requests@.take(i + 1).drop_last() =~= requests@.take(i as int));
            let h = self.hash_value(requests[i].1.as_str());
            match self.lookup(&requests[i].0, &h) {
                Some(fake) => {
                    results.insert(requests[i].1.clone(), fake);
                },
                None => {},
            }
            i = i + 1;
        }
        assert(requests@.take(i as int) =~= requests@);
        Ok(results)
    }

    /// Removes the rows and cache entries created before `cutoff`; returns how
    /// many were removed.
    pub fn remove_created_before(&mut self, cutoff: u64) -> (r: usize)
        ensures
            final(self).mapping_rows() == unexpired_mappings(old(self).mapping_rows(), cutoff),
            final(self).cache_entries() == unexpired_cache(old(self).cache_entries(), cutoff),
            final(self).reverse_pairs() == old(self).reverse_pairs(),
            final(self).retention() == old(self).retention(),
            r == removed_count(old(self).mapping_rows().len() - final(self).mapping_rows().len(),
                old(self).cache_entries().len() - final(self).cache_entries().len()),
    {
        let mut kept: Vec<EntityMapping> = Vec::new();
        let mut i: usize = 0;
        let ghost keep = |r: EntityMapping| r.created_at >= cutoff;
        while i < self.mappings.len()
            invariant
                i <= self.mappings@.len(),
                kept@ == self.mappings@.take(i as int).filter(keep),
                keep == (|r: EntityMapping| r.created_at >= cutoff),
                kept@.len() <= i,
            decreases self.mappings@.len() - i,
        {
            proof {
                reveal_with_fuel(Seq::<_>::filter, 1);
                assert(self.mappings@.take(i + 1).drop_last() =~= self.mappings@.take(i as int));
            }
            if self.mappings[i].created_at >= cutoff {
                kept.push(copy_mapping(&self.mappings[i]));
            }
            i = i + 1;
        }
        assert(self.mappings@.take(i as int) =~= self.mappings@);
        let removed_rows = self.mappings.len() - kept.len();
        let mut rest: Vec<LlmCacheEntry> = Vec::new();
        std::mem::swap(&mut rest, &mut self.cache);
        let orig_len = rest.len();
        let ghost orig = rest@;
        let ghost keep_c = |e: LlmCacheEntry| e.created_at >= cutoff;
        let mut kept_cache: Vec<LlmCacheEntry> = Vec::new();
        let ghost mut k: int = 0;
        while rest.len() > 0
            invariant
                0 <= k <= orig.len(),
                rest@ == orig.skip(k),
                kept_cache@ == orig.take(k).filter(keep_c),
                keep_c == (|e: LlmCacheEntry| e.created_at >= cutoff),
                kept_cache@.len() <= k,
            decreases rest@.len(),
        {
            proof {
                reveal_with_fuel(Seq::<_>::filter, 1);
                assert(orig.take(k + 1).drop_last() =~= orig.take(k));
                assert(orig.take(k + 1).last() == orig[k]);
            }
            let e = rest.remove(0);
            proof {
                assert(rest@ =~= orig.skip(k + 1));
            }
            if e.created_at >= cutoff {
                kept_cache.push(e);
            }
            proof {
                k = k + 1;
            }
        }
        assert(orig.take(k) =~= orig);
        let removed_cache = orig_len - kept_cache.len();
        let removed = removed_rows.saturating_add(removed_cache);
        self.mappings = kept;
        self.cache = kept_cache;
        removed
    }

    /// With a retention period, removes the rows and cache entries older than
    /// the period at time `now` and returns how many were removed; without
    /// one, removes nothing and returns 0.
    pub fn cleanup_expired_at(&mut self, now: u64) -> (r: usize)
        ensures
            match old(self).retention() {
                Some(days) => {
                    &&& final(self).mapping_rows() == unexpired_mappings(
                        old(self).mapping_rows(),
                        retention_cutoff(now, days),
                    )
                    &&& final(self).cache_entries() == unexpired_cache(
                        old(self).cache_entries(),
                        retention_cutoff(now, days),
                    )
                    &&& r == removed_count(old(self).mapping_rows().len() - final(self).mapping_rows().len(),
                        old(self).cache_entries().len() - final(self).cache_entries().len())
                },
                None => r == 0 && final(self).mapping_rows() == old(self).mapping_rows()
                    && final(self).cache_entries() == old(self).cache_entries(),
            },
            final(self).reverse_pairs() == old(self).reverse_pairs(),
            final(self).retention() == old(self).retention(),
    {
        match self.config.retention_days {
            Some(days) => {
                let period: u64 = days as u64 * 86400;
                let cutoff = if now >= period {
                    now - period
                } else {
                    0
                };
                self.remove_created_before(cutoff)
            },
            None => 0,
        }
    }

    /// With a retention period, removes the rows and cache entries older than
    /// the period and returns how many were removed; without one, removes
    /// nothing and returns 0 without reading the clock.
    pub fn cleanup_expired_mappings(&mut self) -> (r: Result<usize, ConcealError>)
        ensures
            match r {
                Ok(n) => match old(self).retention() {
                    Some(days) => exists|now: u64|
                        {
                            &&& final(self).mapping_rows() == unexpired_mappings(
                                old(self).mapping_rows(),
                                #[trigger] retention_cutoff(now, days),
                            )
                            &&& final(self).cache_entries() == unexpired_cache(
                                old(self).cache_entries(),
                                retention_cutoff(now, days),
                            )
                        } && n == removed_count(old(self).mapping_rows().len()
                            - final(self).mapping_rows().len(), old(self).cache_entries().len()
                            - final(self).cache_entries().len()),
                    None => n == 0 && final(self).mapping_rows() == old(self).mapping_rows()
                        && final(self).cache_entries() == old(self).cache_entries(),
                },
                Err(e) => e == ConcealError::ClockBeforeUnixEpoch && old(self).retention() is Some
                    && final(self).mapping_rows() == old(self).mapping_rows()
                    && final(self).cache_entries() == old(self).cache_entries(),
            },
            final(self).reverse_pairs() == old(self).reverse_pairs(),
            final(self).retention() == old(self).retention(),
    {
        if self.config.retention_days.is_none() {
            return Ok(0);
        }
        match unix_now() {
            Some(now) => Ok(self.cleanup_expired_at(now)),
            None => Err(ConcealError::ClockBeforeUnixEpoch),
        }
    }

    /// Caches the detections of `text` by `model_name` at time `now` under
    /// entry id `id`, replacing an entry for the same text and model.
    pub fn store_llm_cache_at(
        &mut self,
        text: &str,
        entities: &[DetectedEntity],
        model_name: &str,
        now: u64,
        id: String,
    )
        ensures
            final(self).cache_entries().len() >= 1,
            final(self).cache_entries() == insert_cache(
                old(self).cache_entries(),
                final(self).cache_entries().last(),
            ),
            final(self).cache_entries().last().id == id,
            final(self).cache_entries().last().text_hash@ == value_hash(text@),
            final(self).cache_entries().last().original_text@ == text@,
            final(self).cache_entries().last().llm_result@ == entities@,
            final(self).cache_entries().last().model_name@ == model_name@,
            final(self).cache_entries().last().created_at == now,
            final(self).mapping_rows() == old(self).mapping_rows(),
            final(self).reverse_pairs() == old(self).reverse_pairs(),
            final(self).retention() == old(self).retention(),
    {
        let entry = LlmCacheEntry {
            id,
            text_hash: self.hash_value(text),
            original_text: owned(text),
            llm_result: copy_entities(entities),
            model_name: owned(model_name),
            created_at: now,
        };
        let mut rest: Vec<LlmCacheEntry> = Vec::new();
        std::mem::swap(&mut rest, &mut self.cache);
        let ghost orig = rest@;
        let ghost keep = |e: LlmCacheEntry| !cache_collides(e, entry);
        let mut kept: Vec<LlmCacheEntry> = Vec::new();
        let ghost mut k: int = 0;
        while rest.len() > 0
            invariant
                0 <= k <= orig.len(),
                rest@ == orig.skip(k),
                kept@ == orig.take(k).filter(keep),
                keep == (|e: LlmCacheEntry| !cache_collides(e, entry)),
            decreases rest@.len(),
        {
            proof {
                reveal_with_fuel(Seq::<_>::filter, 1);
                assert(orig.take(k + 1).drop_last() =~= orig.take(k));
                assert(orig.take(k + 1).last() == orig[k]);
            }
            let e = rest.remove(0);
            proof {
                assert(rest@ =~= orig.skip(k + 1));
            }
            let collides = e.id == entry.id || (e.text_hash == entry.text_hash && e.model_name
                == entry.model_name);
            if !collides {
                kept.push(e);
            }
            proof {
                k = k + 1;
            }
        }
        assert(orig.take(k) =~= orig);
        kept.push(entry);
        self.cache = kept;
    }

    /// Caches the detections of `text` by `model_name`, stamped with the
    /// current time and a fresh id, replacing an entry for the same text and
    /// model.
    pub fn store_llm_cache(&mut self, text: &str, entities: &[DetectedEntity], model_name: &str) -> (r:
        Result<(), ConcealError>)
        ensures
            match r {
                Ok(_) => {
                    &&& final(self).cache_entries().len() >= 1
                    &&& final(self).cache_entries() == insert_cache(
                        old(self).cache_entries(),
                        final(self).cache_entries().last(),
                    )
                    &&& final(self).cache_entries().last().text_hash@ == value_hash(text@)
                    &&& final(self).cache_entries().last().original_text@ == text@
                    &&& final(self).cache_entries().last().llm_result@ == entities@
                    &&& final(self).cache_entries().last().model_name@ == model_name@
                    &&& final(self).cache_entries().last().id@.len() == 36
                },
                Err(e) => e == ConcealError::ClockBeforeUnixEpoch && final(self).cache_entries()
                    == old(self).cache_entries(),
            },
            final(self).mapping_rows() == old(self).mapping_rows(),
            final(self).reverse_pairs() == old(self).reverse_pairs(),
            final(self).retention() == old(self).retention(),
    {
        match unix_now() {
            Some(now) => {
                let id = new_entry_id();
                self.store_llm_cache_at(text, entities, model_name, now, id);
                Ok(())
            },
            None => Err(ConcealError::ClockBeforeUnixEpoch),
        }
    }

    /// The detections cached for `text` and `model_name`.
    pub fn get_llm_cache(&self, text: &str, model_name: &str) -> (r: Result<
        Option<Vec<DetectedEntity>>,
        ConcealError,
    >)
        ensures
            match r {
                Ok(Some(v)) => lookup_cache(self.cache_entries(), value_hash(text@), model_name@)
                    == Some(v@),
                Ok(None) => lookup_cache(self.cache_entries(), value_hash(text@), model_name@)
                    is None,
                Err(_) => false,
            },
    {
        let h = self.hash_value(text);
        let m = owned(model_name);
        let mut i: usize = 0;
        while i < self.cache.len()
            invariant
                i <= self.cache@.len(),
                h@ == value_hash(text@),
                m@ == model_name@,
                forall|j: int| 0 <= j < i ==> !is_cache_key(#[trigger] self.cache@[j], h@, m@),
            decreases self.cache@.len() - i,
        {
            if self.cache[i].text_hash == h && self.cache[i].model_name == m {
                proof {
                    lemma_first_cache_entry(self.cache@, h@, m@, i as int);
                }
                let v = copy_entities(self.cache[i].llm_result.as_slice());
                assert(v@ == self.cache@[i as int].llm_result@);
                assert(lookup_cache(self.cache@, h@, m@) == Some(v@));
                assert(lookup_cache(self.cache_entries(), value_hash(text@), model_name@) == Some(v@));
                return Ok(Some(v));
            }
            i = i + 1;
        }
        Ok(None)
    }

    /// Removes every cache entry; returns how many there were.
    pub fn clear_llm_cache(&mut self) -> (r: Result<usize, ConcealError>)
        ensures
            r == Ok::<usize, ConcealError>(old(self).cache_entries().len() as usize),
            final(self).cache_entries().len() == 0,
            final(self).mapping_rows() == old(self).mapping_rows(),
            final(self).reverse_pairs() == old(self).reverse_pairs(),
            final(self).retention() == old(self).retention(),
    {
        let n = self.cache.len();
        self.cache = Vec::new();
        Ok(n)
    }

    /// Counts of the rows and cache entries, the rows per entity type and the
    /// earliest creation time of a row.
    pub fn get_statistics(&self) -> (r: Result<MappingStatistics, ConcealError>)
        ensures
            match r {
                Ok(s) => {
                    &&& s.total_mappings == self.mapping_rows().len()
                    &&& s.total_cache_entries == self.cache_entries().len()
                    &&& s.oldest_mapping_age == oldest_created(self.mapping_rows())
                    &&& (s.oldest_mapping_age is None <==> self.mapping_rows().len() == 0)
                    &&& s.oldest_mapping_age matches Some(m) ==> (forall|i: int|
                        0 <= i < self.mapping_rows().len() ==> m <= (
                        #[trigger] self.mapping_rows()[i]).created_at) && exists|i: int|
                        0 <= i < self.mapping_rows().len() && (
                        #[trigger] self.mapping_rows()[i]).created_at == m
                    &&& forall|t: Seq<char>|
                        #![trigger s.mappings_by_type@.contains_key(t)]
                        s.mappings_by_type@.contains_key(t) <==> type_count(self.mapping_rows(), t)
                            > 0
                    &&& forall|t: Seq<char>|
                        #![trigger s.mappings_by_type@.contains_key(t)]
                        s.mappings_by_type@.contains_key(t) ==> s.mappings_by_type@[t]
                            == type_count(self.mapping_rows(), t)
                },
                Err(_) => false,
            },
    {
        let mut by_type: StrMap<usize> = StrMap::new();
        let mut oldest: Option<u64> = None;
        let mut i: usize = 0;
        while i < self.mappings.len()
            invariant
                i <= self.mappings@.len(),
                oldest == oldest_created(self.mappings@.take(i as int)),
                forall|t: Seq<char>|
                    #![trigger by_type@.contains_key(t)]
                    by_type@.contains_key(t) <==> type_count(self.mappings@.take(i as int), t) > 0,
                forall|t: Seq<char>|
                    #![trigger by_type@.contains_key(t)]
                    by_type@.contains_key(t) ==> by_type@[t] == type_count(
                        self.mappings@.take(i as int),
                        t,
                    ),
            decreases self.mappings@.len() - i,
        {
            let ghost prev = self.mappings@.take(i as int);
            let ghost next = self.mappings@.take(i + 1);
            let ghost row = self.mappings@[i as int];
            assert(next.drop_last() =~= prev);
            assert(next.last() == row);
            proof {
                assert forall|t: Seq<char>|
                    type_count(next, t) == type_count(prev, t) + (if row.entity_type@ == t {
                        1int
                    } else {
                        0int
                    }) by {
                    reveal_with_fuel(Seq::<_>::filter, 1);
                }
                assert forall|t: Seq<char>| type_count(prev, t) <= prev.len() by {
                    prev.lemma_filter_len(|r: EntityMapping| r.entity_type@ == t);
                }
            }
            let created = self.mappings[i].created_at;
            oldest = match oldest {
                None => Some(created),
                Some(m) => Some(
                    if m <= created {
                        m
                    } else {
                        created
                    },
                ),
            };
            let t = self.mappings[i].entity_type.as_str();
            let count: usize = match by_type.get(t) {
                Some(c) => *c,
                None => 0,
            };
            let ghost tv = t@;
            assert(count == type_count(prev, tv));
            by_type.insert(self.mappings[i].entity_type.clone(), count + 1);
            i = i + 1;
        }
        assert(self.mappings@.take(i as int) =~= self.mappings@);
        proof {
            lemma_oldest_created(self.mappings@);
        }
        Ok(
            MappingStatistics {
                total_mappings: self.mappings.len(),
                total_cache_entries: self.cache.len(),
                mappings_by_type: by_type,
                oldest_mapping_age: oldest,
            },
        )
    }

    /// Removes every mapping row; returns how many there were.
    pub fn clear_all_mappings(&mut self) -> (r: Result<usize, ConcealError>)
        ensures
            r == Ok::<usize, ConcealError>(old(self).mapping_rows().len() as usize),
            final(self).mapping_rows().len() == 0,
            final(self).cache_entries() == old(self).cache_entries(),
            final(self).reverse_pairs() == old(self).reverse_pairs(),
            final(self).retention() == old(self).retention(),
    {
        let n = self.mappings.len();
        self.mappings = Vec::new();
        Ok(n)
    }

    /// Stores `fake -> original` unless `fake` is present.
    pub fn insert_reverse_pair(&mut self, fake: String, original: String)
        ensures
            final(self).reverse_pairs() == insert_reverse(old(self).reverse_pairs(), fake, original),
            final(self).mapping_rows() == old(self).mapping_rows(),
            final(self).cache_entries() == old(self).cache_entries(),
            final(self).retention() == old(self).retention(),
    {
        let mut i: usize = 0;
        while i < self.reverse.len()
            invariant
                i <= self.reverse@.len(),
                self.reverse@ == old(self).reverse@,
                forall|j: int| 0 <= j < i ==> (#[trigger] self.reverse@[j]).0@ != fake@,
            decreases self.reverse@.len() - i,
        {
            if self.reverse[i].0 == fake {
                assert(has_fake(self.reverse@, fake@));
                return;
            }
            i = i + 1;
        }
        proof {
            if has_fake(self.reverse@, fake@) {
                let j = choose|j: int|
                    0 <= j < self.reverse@.len() && (#[trigger] self.reverse@[j]).0@ == fake@;
                assert(self.reverse@[j].0@ != fake@);
            }
        }
        self.reverse.push((fake, original));
    }

    /// Stores `fake_value -> original_value` unless `fake_value` is present.
    pub fn store_reverse_mapping(&mut self, fake_value: &str, original_value: &str) -> (r: Result<
        (),
        ConcealError,
    >)
        ensures
            r is Ok,
            exists|f: String, o: String|
                f@ == fake_value@ && o@ == original_value@ && final(self).reverse_pairs()
                    == #[trigger] insert_reverse(old(self).reverse_pairs(), f, o),
            final(self).mapping_rows() == old(self).mapping_rows(),
            final(self).cache_entries() == old(self).cache_entries(),
            final(self).retention() == old(self).retention(),
    {
        let f = owned(fake_value);
        let o = owned(original_value);
        let ghost fo = (f, o);
        self.insert_reverse_pair(f, o);
        assert(self.reverse_pairs() == insert_reverse(old(self).reverse_pairs(), fo.0, fo.1));
        Ok(())
    }

    /// The original value stored for `fake_value`.
    pub fn reverse_lookup(&self, fake_value: &str) -> (r: Result<Option<String>, ConcealError>)
        ensures
            r == Ok::<Option<String>, ConcealError>(
                lookup_original(self.reverse_pairs(), fake_value@),
            ),
    {
        let f = owned(fake_value);
        let mut i: usize = 0;
        while i < self.reverse.len()
            invariant
                i <= self.reverse@.len(),
                f@ == fake_value@,
                forall|j: int| 0 <= j < i ==> (#[trigger] self.reverse@[j]).0@ != f@,
            decreases self.reverse@.len() - i,
        {
            if self.reverse[i].0 == f {
                proof {
                    lemma_first_reverse(self.reverse@, f@, i as int);
                }
                let o = self.reverse[i].1.clone();
                assert(o == self.reverse@[i as int].1);
                assert(f@ == fake_value@);
                assert(lookup_original(self.reverse@, f@) == Some(o));
                assert(lookup_original(self.reverse_pairs(), fake_value@) == Some(o));
                return Ok(Some(o));
            }
            i = i + 1;
        }
        Ok(None)
    }

    /// Every fake-to-original pair, oldest first.
    pub fn get_all_reverse_entries(&self) -> (r: Result<Vec<(String, String)>, ConcealError>)
        ensures
            match r {
                Ok(v) => v@ == self.reverse_pairs(),
                Err(_) => false,
            },
    {
        let mut out: Vec<(String, String)> = Vec::new();
        let mut i: usize = 0;
        while i < self.reverse.len()
            invariant
                i <= self.reverse@.len(),
                out@ == self.reverse@.take(i as int),
            decreases self.reverse@.len() - i,
        {
            out.push((self.reverse[i].0.clone(), self.reverse[i].1.clone()));
            i = i + 1;
            assert(out@ =~= self.reverse@.take(i as int));
        }
        assert(self.reverse@.take(i as int) =~= self.reverse@);
        Ok(out)
    }

    /// Every mapping row's fake value with its original-value hash, oldest
    /// first.
    pub fn get_all_reverse_mappings(&self) -> (r: Result<Vec<(String, String)>, ConcealError>)
        ensures
            match r {
                Ok(v) => v@.len() == self.mapping_rows().len() && forall|i: int|
                    0 <= i < v@.len() ==> #[trigger] v@[i] == (
                        self.mapping_rows()[i].fake_value,
                        self.mapping_rows()[i].original_value_hash,
                    ),
                Err(_) => false,
            },
    {
        let mut out: Vec<(String, String)> = Vec::new();
        let mut i: usize = 0;
        while i < self.mappings.len()
            invariant
                i <= self.mappings@.len(),
                out@.len() == i,
                forall|j: int|
                    0 <= j < i ==> #[trigger] out@[j] == (
                        self.mappings@[j].fake_value,
                        self.mappings@[j].original_value_hash,
                    ),
            decreases self.mappings@.len() - i,
        {
            out.push(
                (self.mappings[i].fake_value.clone(), self.mappings[i].original_value_hash.clone()),
            );
            i = i + 1;
        }
        Ok(out)
    }

    /// The mapping rows, oldest first.
    pub fn rows(&self) -> (r: &Vec<EntityMapping>)
        ensures
            r@ == self.mapping_rows(),
    {
        &self.mappings
    }

    /// The language-model cache entries, oldest first.
    pub fn cache_rows(&self) -> (r: &Vec<LlmCacheEntry>)
        ensures
            r@ == self.cache_entries(),
    {
        &self.cache
    }

    /// Puts back a mapping row read from persistent storage, under the same
    /// rule as a new one.
    pub fn restore_mapping(&mut self, row: EntityMapping)
        ensures
            final(self).mapping_rows() == insert_mapping(old(self).mapping_rows(), row),
            final(self).cache_entries() == old(self).cache_entries(),
            final(self).reverse_pairs() == old(self).reverse_pairs(),
            final(self).retention() == old(self).retention(),
    {
        self.insert_row(row);
    }
}

/// The results of a batch of lookups: each request with a stored mapping
/// maps its original value to that mapping's fake value.
pub open spec fn batch_lookup(rows: Seq<EntityMapping>, requests: Seq<(String, String)>) -> Map<
    Seq<char>,
    String,
>
    decreases requests.len(),
{
    if requests.len() == 0 {
        Map::empty()
    } else {
        let prev = batch_lookup(rows, requests.drop_last());
        let (t, o) = requests.last();
        match lookup_fake(rows, t@, value_hash(o@)) {
            Some(f) => prev.insert(o@, f),
            None => prev,
        }
    }
}

} // verus!
