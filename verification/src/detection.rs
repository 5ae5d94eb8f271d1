//! Detection by the configured regular expressions: every match of a pattern
//! is a detection named after the pattern.

use crate::anonymize::FULL_CONFIDENCE;
use crate::config::{is_pattern_error, regex_compiles, validate_detection_patterns, ConcealError, DetectedEntity};
use vstd::prelude::*;

verus! {

/// What `Regex::new(pattern)` and `find_iter(text)` give for a pattern that
/// compiles: each match's byte start, byte end and matched text, left to right.
pub uninterp spec fn regex_matches(pattern: Seq<char>, text: Seq<char>) -> Seq<(usize, usize, Seq<char>)>;

/// `Regex::new(pattern)` then `find_iter(text)`, each match as
/// `(start(), end(), as_str())`; `None` when the pattern does not compile.
/// The matches are named, not stated.
#[verifier::external_body]
fn find_matches(pattern: &str, text: &str) -> (r: Option<Vec<(usize, usize, String)>>)
    ensures
        match r {
            Some(v) => regex_compiles(pattern@) && v@.len() == regex_matches(pattern@, text@).len()
                && forall|i: int|
                0 <= i < v@.len() ==> (#[trigger] v@[i]).0 == regex_matches(pattern@, text@)[i].0
                    && v@[i].1 == regex_matches(pattern@, text@)[i].1 && v@[i].2@ == regex_matches(
                    pattern@,
                    text@,
                )[i].2,
            None => !regex_compiles(pattern@),
        },
{
    match regex::Regex::new(pattern) {
        Ok(re) => {
            let mut v = Vec::new();
            for m in re.find_iter(text) {
                v.push((m.start(), m.end(), m.as_str().to_string()));
            }
            Some(v)
        },
        Err(_) => None,
    }
}

/// `e` is the detection of match `m` of the pattern named `name`.
pub open spec fn is_match_entity(e: DetectedEntity, name: String, m: (usize, usize, Seq<char>)) -> bool {
    &&& e.entity_type == name
    &&& e.original_value@ == m.2
    &&& e.start == m.0
    &&& e.end == m.1
    &&& e.confidence == FULL_CONFIDENCE
}

/// The matches of the patterns in `text`: the patterns in order, each with its
/// matches from left to right, together with the pattern's name.
pub open spec fn pattern_matches(patterns: Seq<(String, String)>, text: Seq<char>) -> Seq<
    (String, (usize, usize, Seq<char>)),
>
    decreases patterns.len(),
{
    if patterns.len() == 0 {
        Seq::empty()
    } else {
        pattern_matches(patterns.drop_last(), text) + regex_matches(patterns.last().1@, text).map_values(
            |m: (usize, usize, Seq<char>)| (patterns.last().0, m),
        )
    }
}

/// The detector of the configured patterns.
pub struct RegexDetectionEngine {
    enabled: bool,
    patterns: Vec<(String, String)>,
}

impl RegexDetectionEngine {
    #[verifier::type_invariant]
    spec fn compiles(self) -> bool {
        forall|i: int| 0 <= i < self.patterns@.len() ==> regex_compiles(#[trigger] self.patterns@[i].1@)
    }

    /// Whether detection is enabled.
    pub closed spec fn is_enabled(self) -> bool {
        self.enabled
    }

    /// The named patterns, in order.
    pub closed spec fn pattern_list(self) -> Seq<(String, String)> {
        self.patterns@
    }

    /// A detector of the named patterns; the error names the first pattern
    /// that is not a valid regular expression.
    pub fn new(enabled: bool, patterns: Vec<(String, String)>) -> (r: Result<Self, ConcealError>)
        ensures
            match r {
                Ok(d) => d.is_enabled() == enabled && d.pattern_list() == patterns@,
                Err(e) => exists|i: int| is_pattern_error(e, patterns@, i),
            },
    {
        match validate_detection_patterns(&patterns) {
            Ok(_) => Ok(RegexDetectionEngine { enabled, patterns }),
            Err(e) => Err(e),
        }
    }

    /// The detections in `text`: none when detection is disabled; otherwise
    /// every match of every pattern (see [`pattern_matches`]), named after its
    /// pattern, with full confidence.
    pub fn detect_in_text(&self, text: &str) -> (r: Vec<DetectedEntity>)
        ensures
            !self.is_enabled() ==> r@.len() == 0,
            self.is_enabled() ==> r@.len() == pattern_matches(self.pattern_list(), text@).len()
                && forall|i: int|
                0 <= i < r@.len() ==> is_match_entity(
                    #[trigger] r@[i],
                    pattern_matches(self.pattern_list(), text@)[i].0,
                    pattern_matches(self.pattern_list(), text@)[i].1,
                ),
    {
        proof {
            use_type_invariant(self);
        }
        let mut out: Vec<DetectedEntity> = Vec::new();
        if !self.enabled {
            return out;
        }
        let ghost ps = self.patterns@;
        let mut i: usize = 0;
        while i < self.patterns.len()
            invariant
                i <= ps.len(),
                ps == self.patterns@,
                forall|j: int| 0 <= j < ps.len() ==> regex_compiles(#[trigger] ps[j].1@),
                out@.len() == pattern_matches(ps.take(i as int), text@).len(),
                forall|k: int|
                    0 <= k < out@.len() ==> is_match_entity(
                        #[trigger] out@[k],
                        pattern_matches(ps.take(i as int), text@)[k].0,
                        pattern_matches(ps.take(i as int), text@)[k].1,
                    ),
            decreases ps.len() - i,
        {
            let ghost before = out@;
            let ghost prev = pattern_matches(ps.take(i as int), text@);
            assert(regex_compiles(ps[i as int].1@));
            let ms = match find_matches(self.patterns[i].1.as_str(), text) {
                Some(v) => v,
                None => Vec::new(),
            };
            let ghost found = regex_matches(ps[i as int].1@, text@).map_values(
                |m: (usize, usize, Seq<char>)| (ps[i as int].0, m),
            );
            let mut j: usize = 0;
            while j < ms.len()
                invariant
                    j <= ms@.len(),
                    ms@.len() == found.len(),
                    found == regex_matches(ps[i as int].1@, text@).map_values(
                        |m: (usize, usize, Seq<char>)| (ps[i as int].0, m),
                    ),
                    forall|k: int|
                        0 <= k < ms@.len() ==> (#[trigger] ms@[k]).0 == regex_matches(
                            ps[i as int].1@,
                            text@,
                        )[k].0 && ms@[k].1 == regex_matches(ps[i as int].1@, text@)[k].1
                            && ms@[k].2@ == regex_matches(ps[i as int].1@, text@)[k].2,
                    i < ps.len(),
                    ps == self.patterns@,
                    out@.len() == before.len() + j,
                    forall|k: int| 0 <= k < before.len() ==> #[trigger] out@[k] == before[k],
                    forall|k: int|
                        0 <= k < j ==> is_match_entity(
                            #[trigger] out@[before.len() + k],
                            found[k].0,
                            found[k].1,
                        ),
                decreases ms@.len() - j,
            {
                out.push(
                    DetectedEntity {
                        entity_type: self.patterns[i].0.clone(),
                        original_value: ms[j].2.clone(),
                        start: ms[j].0,
                        end: ms[j].1,
                        confidence: FULL_CONFIDENCE,
                    },
                );
                j = j + 1;
            }
            proof {
                let next = ps.take(i + 1);
                assert(next.drop_last() =~= ps.take(i as int));
                assert(next.last() == ps[i as int]);
                assert(pattern_matches(next, text@) == prev + found);
                assert forall|k: int| 0 <= k < out@.len() implies is_match_entity(
                    #[trigger] out@[k],
                    pattern_matches(next, text@)[k].0,
                    pattern_matches(next, text@)[k].1,
                ) by {
                    if k >= before.len() {
                        let m = k - before.len();
                        assert(out@[before.len() + m] == out@[k]);
                    }
                }
            }
            i = i + 1;
        }
        assert(ps.take(i as int) =~= ps);
        out
    }
}

} // verus!
