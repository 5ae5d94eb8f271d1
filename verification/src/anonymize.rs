//! Anonymising a text: the detected entities are completed with the values
//! already known to the store, ordered, freed of overlaps, given a fake value
//! each (the stored one when there is one) and replaced in the text.

use crate::config::{ConcealError, DetectedEntity, AnonymizedEntity};
use crate::deanonymize::{
    byte_len, deanonymized, fakes_only_in_place, lemma_deanonymize_pieces, lemma_deanonymize_restores,
    lemma_pieces_text_concat, lemma_pieces_text_single, originals_text, piece_shown, piece_start, pieces_match_pairs, pieces_text,
};
use crate::faker::{anonymized_from, FakerEngine};
use crate::mapping::{
    first_reverse, has_fake, insert_mapping, insert_reverse, is_mapping_row, lemma_first_reverse_exists,
    lemma_insert_keeps_lookup,
    lemma_reverse_after_store, lemma_reverse_keeps,
    lemma_store_then_get, lookup_fake, lookup_original, mapping_conflicts, value_hash,
    EntityMapping, MappingStore,
};
use crate::text::{
    chars_of, dec, dec_exec, find_first, find_first_exec, lemma_find_first, matches_at, occurs,
    owned, push_all, replace_first, replace_first_exec, string_of,
};
use vstd::prelude::*;

verus! {

/// The confidence key of a detection that is certain (a confidence of 1.0).
pub const FULL_CONFIDENCE: u64 = 0xBFF0_0000_0000_0000;

// ---------------------------------------------------------------------------
// Values already known to the store
// ---------------------------------------------------------------------------

/// The character positions of the non-overlapping occurrences of `pat` in
/// `s`, scanning from `start` to the right (`str::find` on ever shorter
/// tails).
pub open spec fn occurrences_from(s: Seq<char>, pat: Seq<char>, start: int) -> Seq<int>
    decreases s.len() + 1 - start,
{
    if pat.len() == 0 || start < 0 || start > s.len() {
        Seq::empty()
    } else {
        match find_first(s.skip(start), pat) {
            Some(p) => if p >= 0 && start + p + pat.len() <= s.len() {
                seq![start + p] + occurrences_from(s, pat, start + p + pat.len())
            } else {
                Seq::empty()
            },
            None => Seq::empty(),
        }
    }
}

/// Every position found by the scan is an occurrence, the positions
/// increase, and occurrences found one after the other do not overlap.
pub proof fn lemma_occurrences_match(s: Seq<char>, pat: Seq<char>, start: int)
    ensures
        forall|i: int|
            0 <= i < occurrences_from(s, pat, start).len() ==> matches_at(
                s,
                pat,
                #[trigger] occurrences_from(s, pat, start)[i],
            ) && start <= occurrences_from(s, pat, start)[i],
        forall|i: int|
            0 <= i < occurrences_from(s, pat, start).len() - 1 ==> #[trigger] occurrences_from(
                s,
                pat,
                start,
            )[i] + pat.len() <= occurrences_from(s, pat, start)[i + 1],
    decreases s.len() + 1 - start,
{
    let occ = occurrences_from(s, pat, start);
    if pat.len() == 0 || start < 0 || start > s.len() {
    } else {
        let t = s.skip(start);
        lemma_find_first(t, pat);
        match find_first(t, pat) {
            Some(p) => {
                if p >= 0 && start + p + pat.len() <= s.len() {
                    let next = start + p + pat.len();
                    lemma_occurrences_match(s, pat, next);
                    let rest = occurrences_from(s, pat, next);
                    assert(occ == seq![start + p] + rest);
                    assert(matches_at(s, pat, start + p)) by {
                        assert(t.subrange(p, p + pat.len()) =~= s.subrange(start + p, start + p + pat.len()));
                    }
                    assert forall|i: int| 0 <= i < occ.len() implies matches_at(
                        s,
                        pat,
                        #[trigger] occ[i],
                    ) && start <= occ[i] by {
                        if i > 0 {
                            assert(occ[i] == rest[i - 1]);
                        }
                    }
                    assert forall|i: int| 0 <= i < occ.len() - 1 implies #[trigger] occ[i]
                        + pat.len() <= occ[i + 1] by {
                        if i > 0 {
                            assert(occ[i] == rest[i - 1]);
                            assert(occ[i + 1] == rest[i]);
                        } else {
                            assert(occ[1] == rest[0]);
                        }
                    }
                }
            },
            None => {},
        }
    }
}

/// The byte span of an occurrence of `pat` at character position `p` of `s`.
pub open spec fn byte_span(s: Seq<char>, pat: Seq<char>, p: int) -> (usize, usize) {
    (byte_len(s.take(p)), byte_len(s.take(p + pat.len())))
}

/// The spans, in bytes, at which the original value `o` occurs in `s`,
/// together with `o`.
pub open spec fn value_spans(s: Seq<char>, o: String) -> Seq<(String, usize, usize)> {
    occurrences_from(s, o@, 0).map_values(
        |p: int| (o, byte_span(s, o@, p).0, byte_span(s, o@, p).1),
    )
}

/// The spans of every stored original value in `s`: the pairs in order, each
/// with its occurrences from left to right.
pub open spec fn known_spans(s: Seq<char>, pairs: Seq<(String, String)>) -> Seq<(String, usize, usize)>
    decreases pairs.len(),
{
    if pairs.len() == 0 {
        Seq::empty()
    } else {
        known_spans(s, pairs.drop_last()) + value_spans(s, pairs.last().1)
    }
}

/// `e` is the detection of a known value at a span: a person's name, found
/// with full confidence.
pub open spec fn is_known_entity(e: DetectedEntity, span: (String, usize, usize)) -> bool {
    &&& e.entity_type@ == "person_name"@
    &&& e.original_value == span.0
    &&& e.start == span.1
    &&& e.end == span.2
    &&& e.confidence == FULL_CONFIDENCE
}

/// `ents` are the detections of the known values at `spans`, one each.
pub open spec fn are_known_entities(ents: Seq<DetectedEntity>, spans: Seq<(String, usize, usize)>) -> bool {
    ents.len() == spans.len() && forall|i: int|
        0 <= i < ents.len() ==> is_known_entity(#[trigger] ents[i], spans[i])
}

/// No stored original value is empty.
pub open spec fn originals_nonempty(pairs: Seq<(String, String)>) -> bool {
    forall|i: int| 0 <= i < pairs.len() ==> (#[trigger] pairs[i]).1@.len() > 0
}

/// The first `n` characters of `v`.
fn take_chars(v: &Vec<char>, n: usize) -> (r: Vec<char>)
    requires
        n <= v@.len(),
    ensures
        r@ == v@.take(n as int),
{
    let mut out: Vec<char> = Vec::new();
    let mut i: usize = 0;
    while i < n
        invariant
            i <= n <= v@.len(),
            out@ == v@.take(i as int),
        decreases n - i,
    {
        out.push(v[i]);
        i = i + 1;
        assert(out@ =~= v@.take(i as int));
    }
    out
}

/// The characters of `v` from position `n` on.
fn skip_chars(v: &Vec<char>, n: usize) -> (r: Vec<char>)
    requires
        n <= v@.len(),
    ensures
        r@ == v@.skip(n as int),
{
    let mut out: Vec<char> = Vec::new();
    let mut i: usize = n;
    while i < v.len()
        invariant
            n <= i <= v@.len(),
            out@ == v@.subrange(n as int, i as int),
        decreases v@.len() - i,
    {
        out.push(v[i]);
        i = i + 1;
        assert(out@ =~= v@.subrange(n as int, i as int));
    }
    assert(v@.subrange(n as int, i as int) =~= v@.skip(n as int));
    out
}

/// The length in bytes of the first `n` characters of `v`.
fn prefix_bytes(v: &Vec<char>, n: usize) -> (r: usize)
    requires
        n <= v@.len(),
    ensures
        r == byte_len(v@.take(n as int)),
{
    string_of(&take_chars(v, n)).as_str().len()
}

/// The detections of the occurrences of `o` in `text` from character
/// position `start` on, appended to `out`.
fn push_value_spans(text: &Vec<char>, o: &String, out: &mut Vec<DetectedEntity>)
    requires
        o@.len() > 0,
    ensures
        final(out)@.len() == old(out)@.len() + value_spans(text@, *o).len(),
        forall|i: int| 0 <= i < old(out)@.len() ==> #[trigger] final(out)@[i] == old(out)@[i],
        forall|i: int|
            0 <= i < value_spans(text@, *o).len() ==> is_known_entity(
                #[trigger] final(out)@[old(out)@.len() + i],
                value_spans(text@, *o)[i],
            ),
{
    let pat = chars_of(o.as_str());
    let ghost s = text@;
    let ghost all = occurrences_from(s, o@, 0);
    let ghost base = out@.len();
    let mut start: usize = 0;
    let ghost mut k: int = 0;
    while start <= text.len()
        invariant
            pat@ == o@,
            o@.len() > 0,
            s == text@,
            start <= s.len() + 1,
            all == occurrences_from(s, o@, 0),
            0 <= k <= all.len(),
            start <= s.len() ==> all.skip(k) == occurrences_from(s, o@, start as int),
            start > s.len() ==> k == all.len(),
            out@.len() == base + k,
            base == old(out)@.len(),
            forall|i: int| 0 <= i < base ==> #[trigger] out@[i] == old(out)@[i],
            forall|i: int|
                0 <= i < k ==> is_known_entity(
                    #[trigger] out@[base + i],
                    (*o, byte_span(s, o@, all[i]).0, byte_span(s, o@, all[i]).1),
                ),
        ensures
            k == all.len(),
            out@.len() == base + k,
            forall|i: int| 0 <= i < base ==> #[trigger] out@[i] == old(out)@[i],
            forall|i: int|
                0 <= i < k ==> is_known_entity(
                    #[trigger] out@[base + i],
                    (*o, byte_span(s, o@, all[i]).0, byte_span(s, o@, all[i]).1),
                ),
        decreases s.len() + 1 - start,
    {
        let tail = skip_chars(text, start);
        match find_first_exec(&tail, &pat) {
            Some(p) => {
                proof {
                    lemma_find_first(tail@, pat@);
                    assert(matches_at(tail@, pat@, p as int));
                    assert(occurrences_from(s, o@, start as int) == seq![start + p]
                        + occurrences_from(s, o@, start + p + o@.len()));
                    assert(all.skip(k)[0] == start + p);
                    assert(all[k] == start + p);
                    assert(all.skip(k + 1) =~= all.skip(k).skip(1));
                }
                let abs = start + p;
                let end = abs + pat.len();
                let b_start = prefix_bytes(text, abs);
                let b_end = prefix_bytes(text, end);
                out.push(
                    DetectedEntity {
                        entity_type: owned("person_name"),
                        original_value: o.clone(),
                        start: b_start,
                        end: b_end,
                        confidence: FULL_CONFIDENCE,
                    },
                );
                proof {
                    reveal_strlit("person_name");
                }
                start = end;
                proof {
                    k = k + 1;
                }
            },
            None => {
                proof {
                    assert(occurrences_from(s, o@, start as int).len() == 0);
                    assert(all.skip(k).len() == 0);
                }
                break;
            },
        }
    }
    proof {
        assert forall|i: int| 0 <= i < value_spans(s, *o).len() implies is_known_entity(
            #[trigger] out@[base + i],
            value_spans(s, *o)[i],
        ) by {
            assert(value_spans(s, *o)[i] == (*o, byte_span(s, o@, all[i]).0, byte_span(s, o@, all[i]).1));
        }
    }
}

/// The detections of every stored original value that occurs in `text`: for
/// each fake-to-original pair in turn, every non-overlapping occurrence of the
/// original value from left to right, as a person's name found with full
/// confidence, positioned in bytes.
pub fn detect_known_entities(text: &str, pairs: &Vec<(String, String)>) -> (r: Vec<DetectedEntity>)
    requires
        originals_nonempty(pairs@),
    ensures
        are_known_entities(r@, known_spans(text@, pairs@)),
{
    let t = chars_of(text);
    let mut out: Vec<DetectedEntity> = Vec::new();
    let mut i: usize = 0;
    while i < pairs.len()
        invariant
            i <= pairs@.len(),
            t@ == text@,
            originals_nonempty(pairs@),
            are_known_entities(out@, known_spans(text@, pairs@.take(i as int))),
        decreases pairs@.len() - i,
    {
        let ghost before = out@;
        let ghost prev = known_spans(text@, pairs@.take(i as int));
        assert(pairs@[i as int].1@.len() > 0);
        push_value_spans(&t, &pairs[i].1, &mut out);
        proof {
            let next = pairs@.take(i + 1);
            assert(next.drop_last() =~= pairs@.take(i as int));
            assert(next.last() == pairs@[i as int]);
            let vs = value_spans(text@, pairs@[i as int].1);
            assert(known_spans(text@, next) == prev + vs);
            assert forall|j: int| 0 <= j < out@.len() implies is_known_entity(
                #[trigger] out@[j],
                known_spans(text@, next)[j],
            ) by {
                if j < before.len() {
                    assert(out@[j] == before[j]);
                } else {
                    let m = j - before.len();
                    assert(out@[before.len() + m] == out@[j]);
                }
            }
        }
        i = i + 1;
    }
    assert(pairs@.take(i as int) =~= pairs@);
    out
}

// ---------------------------------------------------------------------------
// The plan of replacements
// ---------------------------------------------------------------------------

/// `e` and `k` are detections of the same value at the same start.
pub open spec fn same_value_at(e: DetectedEntity, k: DetectedEntity) -> bool {
    e.original_value@ == k.original_value@ && e.start == k.start
}

/// `ents` with each known detection appended that has no detection of the
/// same value at the same start before it (earlier known detections
/// included).
pub open spec fn merge_known(ents: Seq<DetectedEntity>, known: Seq<DetectedEntity>) -> Seq<DetectedEntity>
    decreases known.len(),
{
    if known.len() == 0 {
        ents
    } else {
        let acc = merge_known(ents, known.drop_last());
        if exists|j: int| 0 <= j < acc.len() && same_value_at(#[trigger] acc[j], known.last()) {
            acc
        } else {
            acc.push(known.last())
        }
    }
}

/// `x` inserted into `sorted` after every detection that starts at or after
/// it.
pub open spec fn insert_by_start(x: DetectedEntity, sorted: Seq<DetectedEntity>) -> Seq<DetectedEntity>
    decreases sorted.len(),
{
    if sorted.len() == 0 {
        seq![x]
    } else if sorted[0].start >= x.start {
        seq![sorted[0]] + insert_by_start(x, sorted.skip(1))
    } else {
        seq![x] + sorted
    }
}

/// The detections sorted by start, last start first; detections with the same
/// start keep their order (a stable sort).
pub open spec fn sort_by_start_desc(s: Seq<DetectedEntity>) -> Seq<DetectedEntity>
    decreases s.len(),
{
    if s.len() == 0 {
        s
    } else {
        insert_by_start(s.last(), sort_by_start_desc(s.drop_last()))
    }
}

/// `x` starts within the span of the detection `kept` that precedes it and
/// does not start before it. In a list sorted last start first this holds
/// only when the two start at the same place.
pub open spec fn overlaps_kept(x: DetectedEntity, kept: DetectedEntity) -> bool {
    x.start >= kept.start && x.start < kept.end
}

/// Neighbours merged by [`overlaps_kept`] (`Vec::dedup_by`): a detection
/// that starts within the last kept one, not before it, is dropped, and when
/// it is the more confident of the two it takes the kept one's place. On a
/// list sorted last start first (as the replacement plan is) only detections
/// with the same start are merged; other overlapping ones both stay.
pub open spec fn dedup_overlaps(s: Seq<DetectedEntity>) -> Seq<DetectedEntity>
    decreases s.len(),
{
    if s.len() == 0 {
        s
    } else {
        let kept = dedup_overlaps(s.drop_last());
        let x = s.last();
        if kept.len() > 0 && overlaps_kept(x, kept.last()) {
            if x.confidence > kept.last().confidence {
                kept.update(kept.len() - 1, x)
            } else {
                kept
            }
        } else {
            kept.push(x)
        }
    }
}

/// The detections are sorted by start, last start first.
pub open spec fn starts_descending(s: Seq<DetectedEntity>) -> bool {
    forall|i: int, j: int| 0 <= i < j < s.len() ==> (#[trigger] s[i]).start >= (#[trigger] s[j]).start
}

/// Merging neighbours (see [`dedup_overlaps`]) of detections sorted by start
/// (last first) keeps that order and leaves no detection starting within the
/// span of the one before it, not before it.
pub proof fn lemma_dedup_no_overlap(s: Seq<DetectedEntity>)
    requires
        starts_descending(s),
    ensures
        starts_descending(dedup_overlaps(s)),
        forall|i: int|
            0 <= i < dedup_overlaps(s).len() - 1 ==> !overlaps_kept(
                #[trigger] dedup_overlaps(s)[i + 1],
                dedup_overlaps(s)[i],
            ),
        dedup_overlaps(s).len() <= s.len(),
        s.len() > 0 ==> dedup_overlaps(s).len() > 0 && dedup_overlaps(s).last().start == s.last().start,
        forall|i: int|
            0 <= i < dedup_overlaps(s).len() ==> exists|j: int|
                0 <= j < s.len() && #[trigger] dedup_overlaps(s)[i] == s[j],
    decreases s.len(),
{
    if s.len() > 0 {
        let p = s.drop_last();
        assert(starts_descending(p)) by {
            assert forall|i: int, j: int| 0 <= i < j < p.len() implies (#[trigger] p[i]).start
                >= (#[trigger] p[j]).start by {
                assert(p[i] == s[i] && p[j] == s[j]);
            }
        }
        lemma_dedup_no_overlap(p);
        let kept = dedup_overlaps(p);
        let x = s.last();
        let r = dedup_overlaps(s);
        assert forall|i: int| 0 <= i < kept.len() implies (#[trigger] kept[i]).start >= x.start by {
            let j = choose|j: int| 0 <= j < p.len() && kept[i] == p[j];
            assert(p[j] == s[j]);
        }
        if kept.len() > 0 && overlaps_kept(x, kept.last()) {
            if x.confidence > kept.last().confidence {
                assert(r == kept.update(kept.len() - 1, x));
                assert(x.start == kept.last().start);
                assert forall|i: int, j: int| 0 <= i < j < r.len() implies (#[trigger] r[i]).start
                    >= (#[trigger] r[j]).start by {
                    if j == r.len() - 1 {
                        assert(r[i] == kept[i]);
                        assert(kept[i].start >= kept[j].start);
                    } else {
                        assert(r[i] == kept[i] && r[j] == kept[j]);
                    }
                }
                assert forall|i: int| 0 <= i < r.len() - 1 implies !overlaps_kept(
                    #[trigger] r[i + 1],
                    r[i],
                ) by {
                    assert(r[i] == kept[i]);
                    if i + 1 == r.len() - 1 {
                        assert(!overlaps_kept(kept[i + 1], kept[i]));
                    } else {
                        assert(r[i + 1] == kept[i + 1]);
                    }
                }
                assert forall|i: int| 0 <= i < r.len() implies exists|j: int|
                    0 <= j < s.len() && #[trigger] r[i] == s[j] by {
                    if i == r.len() - 1 {
                        assert(r[i] == s[s.len() - 1]);
                    } else {
                        assert(r[i] == kept[i]);
                        let j = choose|j: int| 0 <= j < p.len() && kept[i] == p[j];
                        assert(p[j] == s[j]);
                    }
                }
            } else {
                assert(r == kept);
                assert forall|i: int| 0 <= i < r.len() implies exists|j: int|
                    0 <= j < s.len() && #[trigger] r[i] == s[j] by {
                    let j = choose|j: int| 0 <= j < p.len() && kept[i] == p[j];
                    assert(p[j] == s[j]);
                }
                assert(x.start == kept.last().start);
            }
        } else {
            assert(r == kept.push(x));
            assert forall|i: int, j: int| 0 <= i < j < r.len() implies (#[trigger] r[i]).start
                >= (#[trigger] r[j]).start by {
                assert(r[i] == kept[i]);
                if j < kept.len() {
                    assert(r[j] == kept[j]);
                }
            }
            assert forall|i: int| 0 <= i < r.len() - 1 implies !overlaps_kept(
                #[trigger] r[i + 1],
                r[i],
            ) by {
                assert(r[i] == kept[i]);
                if i + 1 < kept.len() {
                    assert(r[i + 1] == kept[i + 1]);
                }
            }
            assert forall|i: int| 0 <= i < r.len() implies exists|j: int|
                0 <= j < s.len() && #[trigger] r[i] == s[j] by {
                if i == r.len() - 1 {
                    assert(r[i] == s[s.len() - 1]);
                } else {
                    assert(r[i] == kept[i]);
                    let j = choose|j: int| 0 <= j < p.len() && kept[i] == p[j];
                    assert(p[j] == s[j]);
                }
            }
        }
    }
}

/// Inserting by start keeps a list sorted by start, last first, and keeps its
/// elements.
proof fn lemma_insert_by_start_sorted(x: DetectedEntity, s: Seq<DetectedEntity>)
    requires
        starts_descending(s),
    ensures
        starts_descending(insert_by_start(x, s)),
        insert_by_start(x, s).len() == s.len() + 1,
        forall|i: int|
            0 <= i < insert_by_start(x, s).len() ==> #[trigger] insert_by_start(x, s)[i] == x
                || s.contains(insert_by_start(x, s)[i]),
    decreases s.len(),
{
    let r = insert_by_start(x, s);
    if s.len() == 0 {
        assert(r == seq![x]);
    } else if s[0].start >= x.start {
        let rest = s.skip(1);
        assert(starts_descending(rest)) by {
            assert forall|i: int, j: int| 0 <= i < j < rest.len() implies (#[trigger] rest[i]).start
                >= (#[trigger] rest[j]).start by {
                assert(rest[i] == s[i + 1] && rest[j] == s[j + 1]);
            }
        }
        lemma_insert_by_start_sorted(x, rest);
        let t = insert_by_start(x, rest);
        assert(r == seq![s[0]] + t);
        assert forall|i: int| 0 <= i < t.len() implies (#[trigger] t[i]).start <= s[0].start by {
            if t[i] != x {
                assert(rest.contains(t[i]));
                let k = choose|k: int| 0 <= k < rest.len() && rest[k] == t[i];
                assert(rest[k] == s[k + 1]);
            }
        }
        assert forall|i: int, j: int| 0 <= i < j < r.len() implies (#[trigger] r[i]).start
            >= (#[trigger] r[j]).start by {
            assert(r[j] == t[j - 1]);
            if i > 0 {
                assert(r[i] == t[i - 1]);
            }
        }
        assert forall|i: int| 0 <= i < r.len() implies #[trigger] r[i] == x || s.contains(r[i]) by {
            if i == 0 {
                assert(s[0] == r[0]);
            } else {
                assert(r[i] == t[i - 1]);
                if t[i - 1] != x {
                    let k = choose|k: int| 0 <= k < rest.len() && rest[k] == t[i - 1];
                    assert(rest[k] == s[k + 1]);
                }
            }
        }
    } else {
        assert(r == seq![x] + s);
        assert forall|i: int, j: int| 0 <= i < j < r.len() implies (#[trigger] r[i]).start
            >= (#[trigger] r[j]).start by {
            assert(r[j] == s[j - 1]);
            if i > 0 {
                assert(r[i] == s[i - 1]);
            } else {
                assert(s[0].start >= s[j - 1].start);
            }
        }
        assert forall|i: int| 0 <= i < r.len() implies #[trigger] r[i] == x || s.contains(r[i]) by {
            if i > 0 {
                assert(r[i] == s[i - 1]);
            }
        }
    }
}

/// Sorting by start gives a list sorted by start, last first.
pub proof fn lemma_sort_by_start_sorted(s: Seq<DetectedEntity>)
    ensures
        starts_descending(sort_by_start_desc(s)),
    decreases s.len(),
{
    if s.len() > 0 {
        lemma_sort_by_start_sorted(s.drop_last());
        lemma_insert_by_start_sorted(s.last(), sort_by_start_desc(s.drop_last()));
    }
}

/// The replacement plan goes from the last start to the first, and no
/// detection in it starts within the span of the one before it.
pub proof fn lemma_plan_ordered(detected: Seq<DetectedEntity>, known: Seq<DetectedEntity>)
    ensures
        starts_descending(replacement_plan(detected, known)),
        forall|i: int|
            0 <= i < replacement_plan(detected, known).len() - 1 ==> !overlaps_kept(
                #[trigger] replacement_plan(detected, known)[i + 1],
                replacement_plan(detected, known)[i],
            ),
{
    let m = merge_known(detected, known);
    lemma_sort_by_start_sorted(m);
    lemma_dedup_no_overlap(sort_by_start_desc(m));
}

/// The detections a text is anonymised with, in the order of replacement.
pub open spec fn replacement_plan(detected: Seq<DetectedEntity>, known: Seq<DetectedEntity>) -> Seq<
    DetectedEntity,
> {
    dedup_overlaps(sort_by_start_desc(merge_known(detected, known)))
}

/// Appends the known detections that are not yet present.
fn merge_known_exec(ents: Vec<DetectedEntity>, known: Vec<DetectedEntity>) -> (r: Vec<DetectedEntity>)
    ensures
        r@ == merge_known(ents@, known@),
{
    let mut acc = ents;
    let mut i: usize = 0;
    while i < known.len()
        invariant
            i <= known@.len(),
            acc@ == merge_known(ents@, known@.take(i as int)),
        decreases known@.len() - i,
    {
        let k = &known[i];
        let mut found = false;
        let mut j: usize = 0;
        while j < acc.len()
            invariant
                j <= acc@.len(),
                found <==> exists|m: int| 0 <= m < j && same_value_at(#[trigger] acc@[m], *k),
            decreases acc@.len() - j,
        {
            if acc[j].original_value == k.original_value && acc[j].start == k.start {
                found = true;
            }
            proof {
                if same_value_at(acc@[j as int], *k) {
                    assert(exists|m: int| 0 <= m < j + 1 && same_value_at(#[trigger] acc@[m], *k));
                }
                if exists|m: int| 0 <= m < j + 1 && same_value_at(#[trigger] acc@[m], *k) {
                    let m = choose|m: int| 0 <= m < j + 1 && same_value_at(#[trigger] acc@[m], *k);
                    if m < j {
                        assert(exists|m: int| 0 <= m < j && same_value_at(#[trigger] acc@[m], *k));
                    }
                }
            }
            j = j + 1;
        }
        proof {
            let next = known@.take(i + 1);
            assert(next.drop_last() =~= known@.take(i as int));
            assert(next.last() == *k);
        }
        if !found {
            acc.push(k.duplicate());
        }
        i = i + 1;
    }
    assert(known@.take(i as int) =~= known@);
    acc
}

/// Inserting by start puts `x` at the first position whose detection starts
/// before it.
proof fn lemma_insert_by_start_at(x: DetectedEntity, s: Seq<DetectedEntity>, p: int)
    requires
        0 <= p <= s.len(),
        forall|j: int| 0 <= j < p ==> (#[trigger] s[j]).start >= x.start,
        p < s.len() ==> s[p].start < x.start,
    ensures
        insert_by_start(x, s) == s.insert(p, x),
    decreases p,
{
    if s.len() == 0 {
        assert(s.insert(p, x) =~= seq![x]);
    } else if p == 0 {
        assert(s.insert(p, x) =~= seq![x] + s);
    } else {
        let rest = s.skip(1);
        assert forall|j: int| 0 <= j < p - 1 implies (#[trigger] rest[j]).start >= x.start by {
            assert(rest[j] == s[j + 1]);
        }
        lemma_insert_by_start_at(x, rest, p - 1);
        assert(s.insert(p, x) =~= seq![s[0]] + rest.insert(p - 1, x));
    }
}

/// The detections sorted by start, last start first, stably.
fn sort_by_start_desc_exec(v: Vec<DetectedEntity>) -> (r: Vec<DetectedEntity>)
    ensures
        r@ == sort_by_start_desc(v@),
{
    let mut sorted: Vec<DetectedEntity> = Vec::new();
    let mut rest = v;
    let ghost orig = rest@;
    let ghost mut i: int = 0;
    while rest.len() > 0
        invariant
            0 <= i <= orig.len(),
            rest@ == orig.skip(i),
            sorted@ == sort_by_start_desc(orig.take(i)),
        decreases rest@.len(),
    {
        let x = rest.remove(0);
        proof {
            assert(orig.take(i + 1).drop_last() =~= orig.take(i));
            assert(orig.take(i + 1).last() == x);
            assert(rest@ =~= orig.skip(i + 1));
        }
        let mut p: usize = 0;
        while p < sorted.len() && sorted[p].start >= x.start
            invariant
                p <= sorted@.len(),
                forall|j: int| 0 <= j < p ==> (#[trigger] sorted@[j]).start >= x.start,
            decreases sorted@.len() - p,
        {
            p = p + 1;
        }
        proof {
            lemma_insert_by_start_at(x, sorted@, p as int);
            i = i + 1;
        }
        sorted.insert(p, x);
    }
    assert(orig.take(i) =~= orig);
    sorted
}

/// Overlapping neighbours merged as `Vec::dedup_by` does with the rule of
/// [`dedup_overlaps`].
fn dedup_overlaps_exec(v: Vec<DetectedEntity>) -> (r: Vec<DetectedEntity>)
    ensures
        r@ == dedup_overlaps(v@),
{
    let mut kept: Vec<DetectedEntity> = Vec::new();
    let mut rest = v;
    let ghost orig = rest@;
    let ghost mut i: int = 0;
    while rest.len() > 0
        invariant
            0 <= i <= orig.len(),
            rest@ == orig.skip(i),
            kept@ == dedup_overlaps(orig.take(i)),
        decreases rest@.len(),
    {
        let x = rest.remove(0);
        proof {
            assert(orig.take(i + 1).drop_last() =~= orig.take(i));
            assert(orig.take(i + 1).last() == x);
            assert(rest@ =~= orig.skip(i + 1));
            i = i + 1;
        }
        let n = kept.len();
        if n > 0 && x.start >= kept[n - 1].start && x.start < kept[n - 1].end {
            if x.confidence > kept[n - 1].confidence {
                kept.set(n - 1, x);
            }
        } else {
            kept.push(x);
        }
    }
    assert(orig.take(i) =~= orig);
    kept
}

// ---------------------------------------------------------------------------
// Resolving fake values
// ---------------------------------------------------------------------------

/// The mapping rows and the fake-to-original pairs of a store.
pub open spec fn tables(store: MappingStore) -> (Seq<EntityMapping>, Seq<(String, String)>) {
    (store.mapping_rows(), store.reverse_pairs())
}

/// One detection resolved to a fake value: the stored fake value when the
/// detection's type and value have one (the fake-to-original pair is stored
/// again, which keeps an existing pair); otherwise a newly generated fake
/// value, whose mapping and fake-to-original pair are stored.
pub open spec fn resolve_step(
    before: (Seq<EntityMapping>, Seq<(String, String)>),
    e: DetectedEntity,
    a: AnonymizedEntity,
    after: (Seq<EntityMapping>, Seq<(String, String)>),
) -> bool {
    match lookup_fake(before.0, e.entity_type@, value_hash(e.original_value@)) {
        Some(f) => {
            &&& a.entity_type == e.entity_type
            &&& a.original_value == e.original_value
            &&& a.fake_value == f
            &&& after.0 == before.0
            &&& after.1 == insert_reverse(before.1, f, e.original_value)
        },
        None => {
            &&& anonymized_from(e, a)
            &&& exists|row: EntityMapping, now: u64|
                #[trigger] is_mapping_row(row, a, now) && after.0 == insert_mapping(before.0, row)
            &&& after.1 == insert_reverse(before.1, a.fake_value, a.original_value)
        },
    }
}

/// No mapping row has the id `id`.
pub open spec fn id_unused(rows: Seq<EntityMapping>, id: Seq<char>) -> bool {
    forall|i: int| 0 <= i < rows.len() ==> (#[trigger] rows[i]).id@ != id
}

/// Once a detection is resolved, its type and value are mapped to the fake
/// value it got: the stored one, or the new one when the new mapping's id was
/// not taken.
pub proof fn lemma_resolve_then_lookup(
    before: (Seq<EntityMapping>, Seq<(String, String)>),
    e: DetectedEntity,
    a: AnonymizedEntity,
    after: (Seq<EntityMapping>, Seq<(String, String)>),
)
    requires
        resolve_step(before, e, a, after),
        id_unused(before.0, a.mapping_id@),
    ensures
        lookup_fake(after.0, e.entity_type@, value_hash(e.original_value@)) == Some(a.fake_value),
{
    let t = e.entity_type@;
    let h = value_hash(e.original_value@);
    if lookup_fake(before.0, t, h) is None {
        let row = choose|row: EntityMapping, now: u64|
            #[trigger] is_mapping_row(row, a, now) && after.0 == insert_mapping(before.0, row);
        let (row, now) = row;
        assert(is_mapping_row(row, a, now));
        assert(!mapping_conflicts(before.0, row)) by {
            if mapping_conflicts(before.0, row) {
                let i = choose|i: int|
                    0 <= i < before.0.len() && (before.0[i].id@ == row.id@ || crate::mapping::has_key(
                        #[trigger] before.0[i],
                        row.entity_type@,
                        row.original_value_hash@,
                    ));
                if before.0[i].id@ == row.id@ {
                    assert(before.0[i].id@ != a.mapping_id@);
                } else {
                    assert(exists|j: int|
                        0 <= j < before.0.len() && crate::mapping::has_key(before.0[j], t, h));
                }
            }
        }
        lemma_store_then_get(before.0, row);
    }
}

/// The same type and value resolved twice get the same fake value: the
/// second resolution finds what the first stored (when the first's new
/// mapping id was not taken).
pub proof fn lemma_consistent_fakes(
    s0: (Seq<EntityMapping>, Seq<(String, String)>),
    e1: DetectedEntity,
    a1: AnonymizedEntity,
    s1: (Seq<EntityMapping>, Seq<(String, String)>),
    e2: DetectedEntity,
    a2: AnonymizedEntity,
    s2: (Seq<EntityMapping>, Seq<(String, String)>),
)
    requires
        resolve_step(s0, e1, a1, s1),
        id_unused(s0.0, a1.mapping_id@),
        resolve_step(s1, e2, a2, s2),
        e2.entity_type@ == e1.entity_type@,
        e2.original_value@ == e1.original_value@,
    ensures
        a2.fake_value == a1.fake_value,
{
    lemma_resolve_then_lookup(s0, e1, a1, s1);
}

/// Over a whole run of resolutions, a key that has a stored fake value keeps
/// it, and every detection of that key is resolved to it: the same real value
/// keeps the same fake value across calls.
pub proof fn lemma_stored_fakes_kept(
    states: Seq<(Seq<EntityMapping>, Seq<(String, String)>)>,
    plan: Seq<DetectedEntity>,
    anons: Seq<AnonymizedEntity>,
    k: int,
    t: Seq<char>,
    h: Seq<char>,
    f: String,
)
    requires
        resolves(states, plan, anons, k),
        lookup_fake(states[0].0, t, h) == Some(f),
    ensures
        forall|i: int| 0 <= i <= k ==> lookup_fake(#[trigger] states[i].0, t, h) == Some(f),
        forall|i: int|
            0 <= i < k && plan[i].entity_type@ == t && value_hash(plan[i].original_value@) == h
                ==> (#[trigger] anons[i]).fake_value == f,
    decreases k,
{
    if k > 0 {
        let ps = states.take(k);
        assert(resolves(ps, plan, anons.take(k - 1), k - 1)) by {
            assert forall|i: int| 0 <= i < k - 1 implies #[trigger] resolve_step(
                ps[i],
                plan[i],
                anons.take(k - 1)[i],
                ps[i + 1],
            ) by {
                assert(resolve_step(states[i], plan[i], anons[i], states[i + 1]));
            }
        }
        lemma_stored_fakes_kept(ps, plan, anons.take(k - 1), k - 1, t, h, f);
        assert(ps[k - 1] == states[k - 1]);
        let before = states[k - 1];
        let after = states[k];
        assert(resolve_step(before, plan[k - 1], anons[k - 1], after));
        assert(lookup_fake(before.0, t, h) == Some(f));
        if lookup_fake(
            before.0,
            plan[k - 1].entity_type@,
            value_hash(plan[k - 1].original_value@),
        ) is None {
            let (row, now) = choose|row: EntityMapping, now: u64|
                #[trigger] is_mapping_row(row, anons[k - 1], now) && after.0 == insert_mapping(
                    before.0,
                    row,
                );
            lemma_insert_keeps_lookup(before.0, row, t, h);
        }
        assert forall|i: int| 0 <= i <= k implies lookup_fake(#[trigger] states[i].0, t, h) == Some(
            f,
        ) by {
            if i < k {
                assert(ps[i] == states[i]);
            }
        }
        assert forall|i: int|
            0 <= i < k && plan[i].entity_type@ == t && value_hash(plan[i].original_value@) == h
                implies (#[trigger] anons[i]).fake_value == f by {
            if i < k - 1 {
                assert(anons.take(k - 1)[i] == anons[i]);
            }
        }
    }
}

/// When every detection of the plan has a stored fake value, no resolution
/// needs a new one, so resolving the plan reads no clock and cannot fail.
pub proof fn lemma_all_stored_resolve(
    states: Seq<(Seq<EntityMapping>, Seq<(String, String)>)>,
    plan: Seq<DetectedEntity>,
    anons: Seq<AnonymizedEntity>,
    k: int,
)
    requires
        resolves(states, plan, anons, k),
        k < plan.len(),
        forall|i: int| 0 <= i < plan.len() ==> !needs_new_fake(states[0].0, #[trigger] plan[i]),
    ensures
        !needs_new_fake(states[k].0, plan[k]),
{
    let t = plan[k].entity_type@;
    let h = value_hash(plan[k].original_value@);
    assert(!needs_new_fake(states[0].0, plan[k]));
    let f = lookup_fake(states[0].0, t, h)->Some_0;
    lemma_stored_fakes_kept(states, plan, anons, k, t, h, f);
    assert(lookup_fake(states[k].0, t, h) == Some(f));
}

/// Once a detection is resolved, its fake value leads back to its original
/// value, unless that fake value was already stored for some original.
pub proof fn lemma_resolve_then_restore(
    before: (Seq<EntityMapping>, Seq<(String, String)>),
    e: DetectedEntity,
    a: AnonymizedEntity,
    after: (Seq<EntityMapping>, Seq<(String, String)>),
)
    requires
        resolve_step(before, e, a, after),
        !has_fake(before.1, a.fake_value@),
    ensures
        lookup_original(after.1, a.fake_value@) == Some(e.original_value),
        after.1 == before.1.push((a.fake_value, e.original_value)),
{
    lemma_reverse_after_store(before.1, a.fake_value, e.original_value);
}

/// At step `i`, the fake value given is either new to the fake-to-original
/// table or already leads back to the detection's own original value.
pub open spec fn fake_fresh_or_same(
    states: Seq<(Seq<EntityMapping>, Seq<(String, String)>)>,
    plan: Seq<DetectedEntity>,
    anons: Seq<AnonymizedEntity>,
    i: int,
) -> bool {
    !has_fake(states[i].1, anons[i].fake_value@) || lookup_original(
        states[i].1,
        anons[i].fake_value@,
    ) == Some(plan[i].original_value)
}

/// After a whole run of resolutions, every fake value given leads back to
/// the original value it replaced, provided each one was new to the
/// fake-to-original table or already led back to that original.
pub proof fn lemma_all_fakes_restorable(
    states: Seq<(Seq<EntityMapping>, Seq<(String, String)>)>,
    plan: Seq<DetectedEntity>,
    anons: Seq<AnonymizedEntity>,
    k: int,
)
    requires
        resolves(states, plan, anons, k),
        forall|i: int| 0 <= i < k ==> #[trigger] fake_fresh_or_same(states, plan, anons, i),
    ensures
        forall|i: int|
            0 <= i < k ==> lookup_original(states[k].1, (#[trigger] anons[i]).fake_value@) == Some(
                plan[i].original_value,
            ),
    decreases k,
{
    if k > 0 {
        let ps = states.take(k);
        let pa = anons.take(k - 1);
        assert(resolves(ps, plan, pa, k - 1)) by {
            assert forall|i: int| 0 <= i < k - 1 implies #[trigger] resolve_step(
                ps[i],
                plan[i],
                pa[i],
                ps[i + 1],
            ) by {
                assert(resolve_step(states[i], plan[i], anons[i], states[i + 1]));
            }
        }
        assert forall|i: int| 0 <= i < k - 1 implies #[trigger] fake_fresh_or_same(ps, plan, pa, i) by {
            assert(fake_fresh_or_same(states, plan, anons, i));
            assert(ps[i] == states[i]);
        }
        lemma_all_fakes_restorable(ps, plan, pa, k - 1);
        let before = states[k - 1];
        let after = states[k];
        let e = plan[k - 1];
        let a = anons[k - 1];
        assert(resolve_step(before, e, a, after));
        assert(fake_fresh_or_same(states, plan, anons, k - 1));
        assert(after.1 == insert_reverse(before.1, a.fake_value, e.original_value));
        assert forall|i: int| 0 <= i < k implies lookup_original(
            states[k].1,
            (#[trigger] anons[i]).fake_value@,
        ) == Some(plan[i].original_value) by {
            if i < k - 1 {
                assert(pa[i] == anons[i]);
                assert(ps[k - 1] == before);
                assert(lookup_original(before.1, anons[i].fake_value@) == Some(plan[i].original_value));
                assert(has_fake(before.1, anons[i].fake_value@));
                lemma_reverse_keeps(before.1, a.fake_value, e.original_value, anons[i].fake_value@);
            } else {
                lemma_reverse_after_store(before.1, a.fake_value, e.original_value);
            }
        }
    }
}

/// Anonymising and then de-anonymising gives the text back: when a detection
/// is resolved to a fake value that was not stored before, the text
/// `x + fake + y` in which that fake value occurs once is restored to
/// `x + original + y`, provided the fake value is not empty, does not occur
/// in the restored text, and no earlier stored fake value occurs in either
/// text.
pub proof fn lemma_round_trip(
    x: Seq<char>,
    y: Seq<char>,
    before: (Seq<EntityMapping>, Seq<(String, String)>),
    e: DetectedEntity,
    a: AnonymizedEntity,
    after: (Seq<EntityMapping>, Seq<(String, String)>),
)
    requires
        resolve_step(before, e, a, after),
        !has_fake(before.1, a.fake_value@),
        a.fake_value@.len() > 0,
        forall|j: int| matches_at(x + a.fake_value@ + y, a.fake_value@, j) ==> j == x.len(),
        !occurs(x + e.original_value@ + y, a.fake_value@),
        forall|i: int|
            0 <= i < before.1.len() ==> !occurs(x + a.fake_value@ + y, (#[trigger] before.1[i]).0@)
                && !occurs(x + e.original_value@ + y, before.1[i].0@),
    ensures
        deanonymized(x + a.fake_value@ + y, after.1) == x + e.original_value@ + y,
{
    lemma_resolve_then_restore(before, e, a, after);
    let pairs = after.1;
    let k = before.1.len() as int;
    assert(pairs[k] == (a.fake_value, e.original_value));
    assert forall|i: int| 0 <= i < pairs.len() && pairs[i] != pairs[k] implies !occurs(
        x + pairs[k].0@ + y,
        (#[trigger] pairs[i]).0@,
    ) && !occurs(x + pairs[k].1@ + y, pairs[i].0@) by {
        assert(i < k);
        assert(pairs[i] == before.1[i]);
    }
    lemma_deanonymize_restores(x, y, pairs, k);
}

/// A piece of an anonymised text: the fake value of one of the resolved
/// detections, standing where that detection's original value stood, or text
/// left as it was that is no stored fake value.
pub open spec fn piece_from_run(
    p: (Seq<char>, Seq<char>),
    anons: Seq<AnonymizedEntity>,
    pairs: Seq<(String, String)>,
) -> bool {
    ||| exists|i: int|
        0 <= i < anons.len() && p.0 == (#[trigger] anons[i]).fake_value@ && p.1
            == anons[i].original_value@
    ||| p.0 == p.1 && !has_fake(pairs, p.0)
}

/// No two fake-to-original pairs have the same fake value.
pub open spec fn distinct_fakes(pairs: Seq<(String, String)>) -> bool {
    forall|i: int, j: int|
        0 <= i < pairs.len() && 0 <= j < pairs.len() && (#[trigger] pairs[i]).0@ == (
        #[trigger] pairs[j]).0@ ==> i == j
}

/// Anonymising a whole text and then de-anonymising it gives the text back.
/// The anonymised text is taken as pieces (see [`piece_from_run`]): with
/// nothing put back they read as the anonymised text, and their originals
/// read as the text before. De-anonymising the anonymised text against the
/// fake-to-original table left by the run gives the text before, provided
/// that each fake value given was new to the table or already led back to
/// its own original, that the table's fake values are non-empty and
/// distinct, and that however many fake values have been put back, a stored
/// fake value occurs only where a piece still shows it.
pub proof fn lemma_text_round_trip(
    states: Seq<(Seq<EntityMapping>, Seq<(String, String)>)>,
    plan: Seq<DetectedEntity>,
    anons: Seq<AnonymizedEntity>,
    pieces: Seq<(Seq<char>, Seq<char>)>,
)
    requires
        resolves(states, plan, anons, plan.len() as int),
        forall|i: int| 0 <= i < plan.len() ==> #[trigger] fake_fresh_or_same(states, plan, anons, i),
        distinct_fakes(states.last().1),
        forall|i: int|
            0 <= i < states.last().1.len() ==> (#[trigger] states.last().1[i]).0@.len() > 0,
        forall|k: int| 0 <= k < pieces.len() ==> piece_from_run(#[trigger] pieces[k], anons, states.last().1),
        fakes_only_in_place(pieces, states.last().1),
    ensures
        deanonymized(pieces_text(pieces, Set::empty()), states.last().1) == originals_text(pieces),
{
    let n = plan.len() as int;
    let pairs = states.last().1;
    lemma_all_fakes_restorable(states, plan, anons, n);
    assert(states[n] == states.last());
    assert forall|k: int, i: int|
        #![trigger pieces[k], pairs[i]]
        0 <= k < pieces.len() && 0 <= i < pairs.len() && pieces[k].0 == pairs[i].0@ implies pieces[k].1
            == pairs[i].1@ by {
        assert(piece_from_run(pieces[k], anons, pairs));
        if exists|a: int|
            0 <= a < anons.len() && pieces[k].0 == (#[trigger] anons[a]).fake_value@ && pieces[k].1
                == anons[a].original_value@ {
            let a = choose|a: int|
                0 <= a < anons.len() && pieces[k].0 == (#[trigger] anons[a]).fake_value@
                    && pieces[k].1 == anons[a].original_value@;
            let f = anons[a].fake_value@;
            assert(lookup_original(pairs, f) == Some(plan[a].original_value));
            assert(resolve_step(states[a], plan[a], anons[a], states[a + 1]));
            assert(anons[a].original_value == plan[a].original_value);
            lemma_first_reverse_exists(pairs, f, i);
            let j0 = choose|j: int| first_reverse(pairs, f, j);
            assert(pairs[j0].0@ == pairs[i].0@);
        } else {
            assert(has_fake(pairs, pieces[k].0));
        }
    }
    assert forall|k: int|
        0 <= k < pieces.len() && !has_fake(pairs, (#[trigger] pieces[k]).0) implies pieces[k].0
            == pieces[k].1 by {
        assert(piece_from_run(pieces[k], anons, pairs));
        if exists|a: int|
            0 <= a < anons.len() && pieces[k].0 == (#[trigger] anons[a]).fake_value@ && pieces[k].1
                == anons[a].original_value@ {
            let a = choose|a: int|
                0 <= a < anons.len() && pieces[k].0 == (#[trigger] anons[a]).fake_value@
                    && pieces[k].1 == anons[a].original_value@;
            assert(lookup_original(pairs, anons[a].fake_value@) == Some(plan[a].original_value));
        }
    }
    assert(pieces_match_pairs(pieces, pairs));
    lemma_deanonymize_pieces(pieces, pairs);
}

/// Characters `p..p + len` of the anonymised text fall wholly inside piece
/// `k`, a piece left as it was.
pub open spec fn inside_plain(pieces: Seq<(Seq<char>, Seq<char>)>, k: int, p: int, len: int) -> bool {
    &&& 0 <= k < pieces.len()
    &&& pieces[k].0 == pieces[k].1
    &&& piece_start(pieces, Set::empty(), k) <= p
    &&& p + len <= piece_start(pieces, Set::empty(), k) + pieces[k].0.len()
}

/// Piece `k`, left as it was, split around the `o.len()` characters at
/// offset `d`, which become the piece `(f, o)`.
pub open spec fn split_piece(
    pieces: Seq<(Seq<char>, Seq<char>)>,
    k: int,
    d: int,
    o: Seq<char>,
    f: Seq<char>,
) -> Seq<(Seq<char>, Seq<char>)> {
    let w = pieces[k].0;
    pieces.take(k) + seq![(w.take(d), w.take(d)), (f, o), (w.skip(d + o.len()), w.skip(d + o.len()))]
        + pieces.skip(k + 1)
}

/// The pieces after the first occurrence of `o` in their text is replaced
/// by `f`: that occurrence becomes the piece `(f, o)`. `None` when the
/// occurrence does not lie wholly inside text left as it was.
pub open spec fn replace_in_pieces(pieces: Seq<(Seq<char>, Seq<char>)>, o: Seq<char>, f: Seq<char>) -> Option<
    Seq<(Seq<char>, Seq<char>)>,
> {
    match find_first(pieces_text(pieces, Set::empty()), o) {
        None => Some(pieces),
        Some(p) => if exists|k: int| inside_plain(pieces, k, p, o.len() as int) {
            let k = choose|k: int| inside_plain(pieces, k, p, o.len() as int);
            Some(split_piece(pieces, k, p - piece_start(pieces, Set::empty(), k), o, f))
        } else {
            None
        },
    }
}

/// The pieces of the text anonymised by `anons` in turn (see
/// [`replace_firsts`]): each replaced value becomes a piece of its own.
/// `None` when some replaced value was found in text that an earlier
/// replacement had touched.
pub open spec fn run_pieces(text: Seq<char>, anons: Seq<AnonymizedEntity>) -> Option<
    Seq<(Seq<char>, Seq<char>)>,
>
    decreases anons.len(),
{
    if anons.len() == 0 {
        Some(seq![(text, text)])
    } else {
        match run_pieces(text, anons.drop_last()) {
            Some(ps) => replace_in_pieces(ps, anons.last().original_value@, anons.last().fake_value@),
            None => None,
        }
    }
}

/// One replacement on pieces: their text gets the replacement, their
/// originals stay, and the new pieces are old ones, `(f, o)` or pieces left
/// as they were.
proof fn lemma_replace_in_pieces(pieces: Seq<(Seq<char>, Seq<char>)>, o: Seq<char>, f: Seq<char>)
    requires
        replace_in_pieces(pieces, o, f) is Some,
    ensures
        ({
            let ps = replace_in_pieces(pieces, o, f)->Some_0;
            &&& pieces_text(ps, Set::empty()) == replace_first(pieces_text(pieces, Set::empty()), o, f)
            &&& originals_text(ps) == originals_text(pieces)
            &&& forall|m: int|
                0 <= m < ps.len() ==> pieces.contains(#[trigger] ps[m]) || ps[m] == (f, o) || ps[m].0
                    == ps[m].1
        }),
{
    let e = Set::<Seq<char>>::empty();
    let t = pieces_text(pieces, e);
    lemma_find_first(t, o);
    if let Some(p) = find_first(t, o) {
        let k = choose|k: int| inside_plain(pieces, k, p, o.len() as int);
        let st = piece_start(pieces, e, k);
        let w = pieces[k].0;
        let d = p - st;
        let w1 = w.take(d);
        let w2 = w.skip(d + o.len());
        let pre = pieces.take(k);
        let post = pieces.skip(k + 1);
        let mid = seq![(w1, w1), (f, o), (w2, w2)];
        let ps = split_piece(pieces, k, d, o, f);
        assert(ps == pre + mid + post);
        assert(pieces =~= pre + seq![pieces[k]] + post);
        lemma_pieces_text_concat(pre + seq![pieces[k]], post, e);
        lemma_pieces_text_concat(pre, seq![pieces[k]], e);
        lemma_pieces_text_concat(pre + mid, post, e);
        lemma_pieces_text_concat(pre, mid, e);
        lemma_pieces_text_single(pieces[k], e);
        assert(piece_shown(pieces[k], e) == w);
        assert(mid =~= seq![(w1, w1)] + seq![(f, o)] + seq![(w2, w2)]);
        lemma_pieces_text_single((w1, w1), e);
        lemma_pieces_text_single((f, o), e);
        lemma_pieces_text_single((w2, w2), e);
        lemma_pieces_text_concat(seq![(w1, w1)] + seq![(f, o)], seq![(w2, w2)], e);
        lemma_pieces_text_concat(seq![(w1, w1)], seq![(f, o)], e);
        assert(pieces_text(mid, e) =~= w1 + f + w2);
        assert(originals_text(mid) =~= w1 + o + w2);
        let a = pieces_text(pre, e);
        let b = pieces_text(post, e);
        assert(t == a + w + b);
        assert(a.len() == st);
        assert(matches_at(t, o, p));
        assert(t.subrange(p, p + o.len()) =~= w.subrange(d, d + o.len()));
        assert(w1 + o + w2 =~= w);
        assert(t.take(p) =~= a + w1);
        assert(t.skip(p + o.len()) =~= w2 + b);
        assert(replace_first(t, o, f) =~= a + (w1 + f + w2) + b);
        assert forall|m: int| 0 <= m < ps.len() implies pieces.contains(#[trigger] ps[m]) || ps[m] == (
        f, o) || ps[m].0 == ps[m].1 by {
            if m < k {
                assert(ps[m] == pieces[m]);
            } else if m >= k + 3 {
                assert(ps[m] == pieces[m - 2]);
            }
        }
    }
}

/// The pieces of an anonymised text read, with nothing put back, as the
/// anonymised text, and their originals read as the text before.
proof fn lemma_run_pieces(text: Seq<char>, anons: Seq<AnonymizedEntity>)
    requires
        run_pieces(text, anons) is Some,
    ensures
        ({
            let ps = run_pieces(text, anons)->Some_0;
            &&& pieces_text(ps, Set::empty()) == replace_firsts(text, anons)
            &&& originals_text(ps) == text
            &&& forall|m: int|
                0 <= m < ps.len() ==> (#[trigger] ps[m]).0 == ps[m].1 || exists|i: int|
                    0 <= i < anons.len() && ps[m] == ((#[trigger] anons[i]).fake_value@,
                    anons[i].original_value@)
        }),
    decreases anons.len(),
{
    if anons.len() == 0 {
        lemma_pieces_text_single((text, text), Set::empty());
    } else {
        let d = anons.drop_last();
        lemma_run_pieces(text, d);
        let prev = run_pieces(text, d)->Some_0;
        let x = anons.last();
        lemma_replace_in_pieces(prev, x.original_value@, x.fake_value@);
        let ps = run_pieces(text, anons)->Some_0;
        assert forall|m: int| 0 <= m < ps.len() implies (#[trigger] ps[m]).0 == ps[m].1 || exists|i: int|
            0 <= i < anons.len() && ps[m] == ((#[trigger] anons[i]).fake_value@,
            anons[i].original_value@) by {
            if ps[m] == (x.fake_value@, x.original_value@) {
                assert(anons[anons.len() - 1] == x);
            } else if ps[m].0 != ps[m].1 {
                assert(prev.contains(ps[m]));
                let q = choose|q: int| 0 <= q < prev.len() && prev[q] == ps[m];
                assert(prev[q].0 != prev[q].1);
                let i = choose|i: int|
                    0 <= i < d.len() && prev[q] == ((#[trigger] d[i]).fake_value@, d[i].original_value@);
                assert(anons[i] == d[i]);
            }
        }
    }
}

/// Anonymising a text and then de-anonymising the result gives the text
/// back. The run resolved the detections `plan` in turn into `anons`, through
/// the table states `states`, and replaced the first occurrence of each
/// original value by its fake value (see [`replace_firsts`]). De-anonymising
/// against the fake-to-original table left by the run gives the text before,
/// provided that: each replaced value was found in text that no earlier
/// replacement had touched ([`run_pieces`] is `Some`); no text left as it
/// was is itself a stored fake value; each fake value given was new to the
/// table or already led back to its own original; the table's fake values
/// are non-empty and distinct; and however many of the fake values have been
/// put back, a stored fake value occurs only where a fake value was put and
/// has not been put back.
pub proof fn lemma_anonymized_text_round_trip(
    text: Seq<char>,
    states: Seq<(Seq<EntityMapping>, Seq<(String, String)>)>,
    plan: Seq<DetectedEntity>,
    anons: Seq<AnonymizedEntity>,
)
    requires
        resolves(states, plan, anons, plan.len() as int),
        forall|i: int| 0 <= i < plan.len() ==> #[trigger] fake_fresh_or_same(states, plan, anons, i),
        distinct_fakes(states.last().1),
        forall|i: int|
            0 <= i < states.last().1.len() ==> (#[trigger] states.last().1[i]).0@.len() > 0,
        run_pieces(text, anons) is Some,
        forall|k: int|
            0 <= k < run_pieces(text, anons)->Some_0.len() && (#[trigger] run_pieces(
                text,
                anons,
            )->Some_0[k]).0 == run_pieces(text, anons)->Some_0[k].1 ==> !has_fake(
                states.last().1,
                run_pieces(text, anons)->Some_0[k].0,
            ),
        fakes_only_in_place(run_pieces(text, anons)->Some_0, states.last().1),
    ensures
        deanonymized(replace_firsts(text, anons), states.last().1) == text,
{
    let ps = run_pieces(text, anons)->Some_0;
    let pairs = states.last().1;
    lemma_run_pieces(text, anons);
    assert forall|k: int| 0 <= k < ps.len() implies piece_from_run(#[trigger] ps[k], anons, pairs) by {
        if ps[k].0 != ps[k].1 {
            let i = choose|i: int|
                0 <= i < anons.len() && ps[k] == ((#[trigger] anons[i]).fake_value@, anons[i].original_value@);
            assert(ps[k].0 == anons[i].fake_value@ && ps[k].1 == anons[i].original_value@);
        }
    }
    lemma_text_round_trip(states, plan, anons, ps);
}

/// The first `k` detections of `plan` resolved in turn, through the states
/// `states` of the tables, into `anons`.
pub open spec fn resolves(
    states: Seq<(Seq<EntityMapping>, Seq<(String, String)>)>,
    plan: Seq<DetectedEntity>,
    anons: Seq<AnonymizedEntity>,
    k: int,
) -> bool {
    &&& 0 <= k <= plan.len()
    &&& states.len() == k + 1
    &&& anons.len() == k
    &&& forall|i: int|
        0 <= i < k ==> #[trigger] resolve_step(states[i], plan[i], anons[i], states[i + 1])
}

/// The detection has no stored fake value in `rows`: resolving it generates
/// and stores one, which reads the clock.
pub open spec fn needs_new_fake(rows: Seq<EntityMapping>, e: DetectedEntity) -> bool {
    lookup_fake(rows, e.entity_type@, value_hash(e.original_value@)) is None
}

/// The mapping id given to a detection whose fake value was already stored:
/// `existing-` followed by a time in nanoseconds.
pub open spec fn is_existing_id(id: Seq<char>) -> bool {
    exists|n: nat| id == "existing-"@ + dec(n)
}

/// `SystemTime::now().duration_since(UNIX_EPOCH)` in nanoseconds, or `None`
/// when the clock reads a time before the epoch. The time itself is not
/// stated.
#[verifier::external_body]
fn unix_nanos() -> Option<u128> {
    match std::time::SystemTime::now().duration_since(std::time::UNIX_EPOCH) {
        Ok(d) => Some(d.as_nanos()),
        Err(_) => None,
    }
}

/// Resolves one detection to its fake value, storing what a new one needs.
/// With `tag_existing`, a stored fake value comes with an `existing-` mapping
/// id, which takes a reading of the clock.
pub(crate) fn resolve(
    store: &mut MappingStore,
    faker: &mut FakerEngine,
    e: &DetectedEntity,
    tag_existing: bool,
) -> (r: Result<AnonymizedEntity, ConcealError>)
    ensures
        final(store).cache_entries() == old(store).cache_entries(),
        final(store).retention() == old(store).retention(),
        match r {
            Ok(a) => {
                &&& resolve_step(tables(*old(store)), *e, a, tables(*final(store)))
                &&& (tag_existing && lookup_fake(
                    old(store).mapping_rows(),
                    e.entity_type@,
                    value_hash(e.original_value@),
                ) is Some ==> is_existing_id(a.mapping_id@))
            },
            Err(err) => {
                &&& err == ConcealError::ClockBeforeUnixEpoch
                &&& tables(*final(store)) == tables(*old(store))
                &&& (!tag_existing ==> lookup_fake(
                    old(store).mapping_rows(),
                    e.entity_type@,
                    value_hash(e.original_value@),
                ) is None)
            },
        },
{
    let found = store.get_mapping(e.entity_type.as_str(), e.original_value.as_str());
    let existing = match found {
        Ok(x) => x,
        Err(err) => return Err(err),
    };
    match existing {
        Some(f) => {
            let mapping_id = if tag_existing {
                match unix_nanos() {
                    Some(n) => {
                        let mut id = chars_of("existing-");
                        push_all(&mut id, &dec_exec(n));
                        proof {
                            reveal_strlit("existing-");
                            assert(id@ == "existing-"@ + dec(n as nat));
                        }
                        string_of(&id)
                    },
                    None => return Err(ConcealError::ClockBeforeUnixEpoch),
                }
            } else {
                String::new()
            };
            store.insert_reverse_pair(f.clone(), e.original_value.clone());
            Ok(
                AnonymizedEntity {
                    entity_type: e.entity_type.clone(),
                    original_value: e.original_value.clone(),
                    fake_value: f,
                    mapping_id,
                },
            )
        },
        None => {
            let a = match faker.anonymize_entity(e) {
                Ok(a) => a,
                Err(err) => return Err(err),
            };
            match store.store_mapping(&a) {
                Ok(_) => {},
                Err(err) => return Err(err),
            }
            store.insert_reverse_pair(a.fake_value.clone(), a.original_value.clone());
            Ok(a)
        },
    }
}

// ---------------------------------------------------------------------------
// Anonymising a text
// ---------------------------------------------------------------------------

/// The text with, for each resolved detection in turn, the first occurrence
/// of its original value replaced by its fake value.
pub open spec fn replace_firsts(text: Seq<char>, anons: Seq<AnonymizedEntity>) -> Seq<char>
    decreases anons.len(),
{
    if anons.len() == 0 {
        text
    } else {
        replace_first(
            replace_firsts(text, anons.drop_last()),
            anons.last().original_value@,
            anons.last().fake_value@,
        )
    }
}

/// Anonymises `text` given the detections of the configured detectors: the
/// known values of the store are added (see [`detect_known_entities`]), the
/// detections are sorted by start, last first, neighbours with the same start
/// are merged keeping the more confident one (see [`dedup_overlaps`]), and
/// each detection in that order
/// has the first occurrence of its value replaced by its fake value, the
/// stored one or a new one (see [`resolve_step`]). Returns the text and the
/// resolved detections, in that order. A failed clock reading stops the work
/// after the detections resolved so far.
pub fn anonymize_text(
    text: &str,
    detected: Vec<DetectedEntity>,
    faker: &mut FakerEngine,
    store: &mut MappingStore,
) -> (r: Result<(String, Vec<AnonymizedEntity>), ConcealError>)
    requires
        originals_nonempty(old(store).reverse_pairs()),
    ensures
        final(store).cache_entries() == old(store).cache_entries(),
        final(store).retention() == old(store).retention(),
        exists|known: Seq<DetectedEntity>|
            #[trigger] are_known_entities(known, known_spans(text@, old(store).reverse_pairs()))
                && match r {
                Ok((s, anons)) => {
                    let plan = replacement_plan(detected@, known);
                    &&& s@ == replace_firsts(text@, anons@)
                    &&& exists|states: Seq<(Seq<EntityMapping>, Seq<(String, String)>)>|
                        #[trigger] resolves(states, plan, anons@, plan.len() as int)
                            && states[0] == tables(*old(store)) && states.last() == tables(
                            *final(store),
                        )
                },
                Err(err) => {
                    let plan = replacement_plan(detected@, known);
                    &&& err == ConcealError::ClockBeforeUnixEpoch
                    &&& exists|states: Seq<(Seq<EntityMapping>, Seq<(String, String)>)>,
                        anons: Seq<AnonymizedEntity>,
                        k: int|
                        #[trigger] resolves(states, plan, anons, k) && k < plan.len()
                            && states[0] == tables(*old(store)) && states.last() == tables(
                            *final(store),
                        ) && needs_new_fake(states[k].0, plan[k])
                },
            },
{
    let pairs = match store.get_all_reverse_entries() {
        Ok(p) => p,
        Err(err) => return Err(err),
    };
    let known = detect_known_entities(text, &pairs);
    let ghost gk = known@;
    let merged = merge_known_exec(detected, known);
    let sorted = sort_by_start_desc_exec(merged);
    let plan = dedup_overlaps_exec(sorted);
    let ghost gplan = plan@;
    let ghost start = tables(*store);
    let mut result = chars_of(text);
    let mut anons: Vec<AnonymizedEntity> = Vec::new();
    let ghost mut states: Seq<(Seq<EntityMapping>, Seq<(String, String)>)> = seq![start];
    let mut i: usize = 0;
    while i < plan.len()
        invariant
            i <= plan@.len(),
            gplan == plan@,
            gplan == replacement_plan(detected@, gk),
            are_known_entities(gk, known_spans(text@, old(store).reverse_pairs())),
            start == tables(*old(store)),
            resolves(states, gplan, anons@, i as int),
            states[0] == start,
            states.last() == tables(*store),
            result@ == replace_firsts(text@, anons@),
            store.cache_entries() == old(store).cache_entries(),
            store.retention() == old(store).retention(),
        decreases plan@.len() - i,
    {
        let ghost before = tables(*store);
        match resolve(store, faker, &plan[i], false) {
            Ok(a) => {
                let o = chars_of(a.original_value.as_str());
                let f = chars_of(a.fake_value.as_str());
                result = replace_first_exec(&result, &o, &f);
                let ghost old_anons = anons@;
                anons.push(a);
                proof {
                    let next = states.push(tables(*store));
                    assert(anons@.drop_last() =~= old_anons);
                    assert forall|j: int| 0 <= j < i + 1 implies #[trigger] resolve_step(
                        next[j],
                        gplan[j],
                        anons@[j],
                        next[j + 1],
                    ) by {
                        if j < i {
                            assert(next[j] == states[j]);
                            assert(next[j + 1] == states[j + 1]);
                            assert(anons@[j] == old_anons[j]);
                            assert(resolve_step(states[j], gplan[j], old_anons[j], states[j + 1]));
                        } else {
                            assert(next[j] == before);
                        }
                    }
                    states = next;
                }
            },
            Err(err) => {
                assert(resolves(states, gplan, anons@, i as int));
                return Err(err);
            },
        }
        i = i + 1;
    }
    let out = string_of(&result);
    proof {
        assert(resolves(states, replacement_plan(detected@, gk), anons@, gplan.len() as int));
        assert(are_known_entities(gk, known_spans(text@, old(store).reverse_pairs())));
    }
    let ghost ganons = anons@;
    let ghost gout = out@;
    let res: Result<(String, Vec<AnonymizedEntity>), ConcealError> = Ok((out, anons));
    assert(res->Ok_0.1@ == ganons && res->Ok_0.0@ == gout);
    res
}

} // verus!
