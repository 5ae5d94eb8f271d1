//! Configuration values and the entity records that flow through the
//! anonymisation pipeline.

use crate::text::{chars_of, push_all, string_of};
use std::path::PathBuf;
use vstd::prelude::*;

verus! {

/// `std::path::PathBuf`, carried through configuration values.
#[verifier::external_type_specification]
#[verifier::external_body]
pub struct ExPathBuf(PathBuf);

/// `PathBuf::clone`: the copy is taken as an opaque path; nothing is claimed
/// of it.
pub assume_specification[ <PathBuf as Clone>::clone ](p: &PathBuf) -> PathBuf;

/// How personal data is detected.
#[derive(Debug, Clone, Copy, PartialEq, Eq, Structural)]
pub enum DetectionMode {
    Regex,
    Llm,
    RegexLlm,
    RegexNer,
}

/// Settings of the fake-value generator.
#[derive(Debug, Clone)]
pub struct FakerConfig {
    pub locale: String,
    pub seed: Option<u64>,
    pub consistency: bool,
}

/// Settings of the mapping store.
#[derive(Debug, Clone)]
pub struct MappingConfig {
    pub database_path: PathBuf,
    pub encryption: bool,
    pub retention_days: Option<u32>,
}

/// Settings of the language-model detector.
#[derive(Debug, Clone)]
pub struct LlmConfig {
    pub enabled: bool,
    pub model: String,
    pub endpoint: String,
    pub timeout_seconds: u64,
    pub prompt_template: Option<String>,
}

/// Settings of the named-entity-recognition detector.
#[derive(Debug, Clone)]
pub struct NerConfig {
    pub model_path: String,
    pub tokenizer_path: String,
    pub labels: Vec<String>,
}

/// A piece of personal data found in a text: its kind, its value and its
/// position. `confidence` orders entities as their detection confidence does:
/// a larger value stands for a more confident detection.
#[derive(Debug, Clone)]
pub struct DetectedEntity {
    pub entity_type: String,
    pub original_value: String,
    pub start: usize,
    pub end: usize,
    pub confidence: u64,
}

/// A detected value together with the fake value that replaces it.
#[derive(Debug, Clone)]
pub struct AnonymizedEntity {
    pub entity_type: String,
    pub original_value: String,
    pub fake_value: String,
    pub mapping_id: String,
}

/// The errors of the library.
#[derive(Debug, Clone, PartialEq, Eq)]
pub enum ConcealError {
    /// The system clock reads a time before the Unix epoch.
    ClockBeforeUnixEpoch,
    /// A target environment variable is not of the form `KEY=VALUE`.
    InvalidEnvVar { value: String },
    /// A detection pattern is not a valid regular expression: its name and
    /// the regex crate's account of the fault.
    InvalidPattern { name: String, reason: String },
}

/// The text of an error.
pub open spec fn error_message(e: ConcealError) -> Seq<char> {
    match e {
        ConcealError::ClockBeforeUnixEpoch => "second time provided was later than self"@,
        ConcealError::InvalidEnvVar { value } => "Invalid environment variable format: '"@
            + value@ + "'. Expected KEY=VALUE"@,
        ConcealError::InvalidPattern { name, reason } => "Invalid regex pattern for '"@ + name@
            + "': "@ + reason@,
    }
}

impl ConcealError {
    /// The text of the error.
    pub fn message(&self) -> (r: String)
        ensures
            r@ == error_message(*self),
    {
        match self {
            ConcealError::ClockBeforeUnixEpoch => string_of(
                &chars_of("second time provided was later than self"),
            ),
            ConcealError::InvalidEnvVar { value } => {
                let mut m = chars_of("Invalid environment variable format: '");
                push_all(&mut m, &chars_of(value.as_str()));
                push_all(&mut m, &chars_of("'. Expected KEY=VALUE"));
                string_of(&m)
            },
            ConcealError::InvalidPattern { name, reason } => {
                let mut m = chars_of("Invalid regex pattern for '");
                push_all(&mut m, &chars_of(name.as_str()));
                push_all(&mut m, &chars_of("': "));
                push_all(&mut m, &chars_of(reason.as_str()));
                string_of(&m)
            },
        }
    }
}

impl DetectedEntity {
    /// A copy of this entity.
    pub fn duplicate(&self) -> (r: DetectedEntity)
        ensures
            r == *self,
    {
        DetectedEntity {
            entity_type: self.entity_type.clone(),
            original_value: self.original_value.clone(),
            start: self.start,
            end: self.end,
            confidence: self.confidence,
        }
    }
}

impl AnonymizedEntity {
    /// A copy of this entity.
    pub fn duplicate(&self) -> (r: AnonymizedEntity)
        ensures
            r == *self,
    {
        AnonymizedEntity {
            entity_type: self.entity_type.clone(),
            original_value: self.original_value.clone(),
            fake_value: self.fake_value.clone(),
            mapping_id: self.mapping_id.clone(),
        }
    }
}

/// Whether `pattern` is accepted by `regex::Regex::new`.
pub uninterp spec fn regex_compiles(pattern: Seq<char>) -> bool;

/// The text (`Display`) of the error that `regex::Regex::new` reports for a
/// pattern that does not compile.
pub uninterp spec fn regex_error_text(pattern: Seq<char>) -> Seq<char>;

/// `regex::Regex::new(pattern)`: `None` when the pattern compiles, otherwise
/// the text of the error. Both are named, not stated: the regex crate's
/// grammar decides them.
#[verifier::external_body]
fn regex_error(pattern: &str) -> (r: Option<String>)
    ensures
        r is None <==> regex_compiles(pattern@),
        r matches Some(t) ==> t@ == regex_error_text(pattern@),
{
    match regex::Regex::new(pattern) {
        Ok(_) => None,
        Err(e) => Some(e.to_string()),
    }
}

/// `e` reports pattern `i` as the first of `patterns` that does not compile,
/// with the regex crate's account of the fault.
pub open spec fn is_pattern_error(e: ConcealError, patterns: Seq<(String, String)>, i: int) -> bool {
    &&& 0 <= i < patterns.len()
    &&& !regex_compiles(patterns[i].1@)
    &&& forall|j: int| 0 <= j < i ==> regex_compiles(#[trigger] patterns[j].1@)
    &&& e matches ConcealError::InvalidPattern { name, reason } && name == patterns[i].0 && reason@
        == regex_error_text(patterns[i].1@)
}

/// The error for the first pattern that failed to compile, given the error
/// text of each pattern (`None` for one that compiles); `Ok` when all compile.
pub fn pattern_error(patterns: &Vec<(String, String)>, errors: &Vec<Option<String>>) -> (r: Result<
    (),
    ConcealError,
>)
    requires
        errors@.len() == patterns@.len(),
    ensures
        r is Ok <==> forall|i: int| 0 <= i < errors@.len() ==> errors@[i] is None,
        match r {
            Ok(_) => true,
            Err(e) => exists|i: int|
                0 <= i < errors@.len() && (forall|j: int| 0 <= j < i ==> errors@[j] is None)
                    && errors@[i] is Some && e == (ConcealError::InvalidPattern {
                    name: patterns@[i].0,
                    reason: errors@[i]->Some_0,
                }),
        },
{
    let mut i: usize = 0;
    while i < errors.len()
        invariant
            i <= errors@.len(),
            errors@.len() == patterns@.len(),
            forall|j: int| 0 <= j < i ==> errors@[j] is None,
        decreases errors@.len() - i,
    {
        if let Some(reason) = &errors[i] {
            return Err(ConcealError::InvalidPattern { name: patterns[i].0.clone(), reason: reason.clone() });
        }
        i = i + 1;
    }
    Ok(())
}

/// Checks that every named detection pattern is a valid regular expression;
/// the error names the first pattern that is not, with the regex crate's
/// account of the fault.
pub fn validate_detection_patterns(patterns: &Vec<(String, String)>) -> (r: Result<
    (),
    ConcealError,
>)
    ensures
        r is Ok <==> forall|i: int| 0 <= i < patterns@.len() ==> regex_compiles(patterns@[i].1@),
        match r {
            Ok(_) => true,
            Err(e) => exists|i: int| is_pattern_error(e, patterns@, i),
        },
{
    let mut errors: Vec<Option<String>> = Vec::new();
    let mut i: usize = 0;
    while i < patterns.len()
        invariant
            i <= patterns@.len(),
            errors@.len() == i,
            forall|j: int|
                0 <= j < i ==> (#[trigger] errors@[j] is None <==> regex_compiles(patterns@[j].1@)),
            forall|j: int|
                0 <= j < i ==> (#[trigger] errors@[j] matches Some(t) ==> t@ == regex_error_text(
                    patterns@[j].1@,
                )),
        decreases patterns@.len() - i,
    {
        errors.push(regex_error(patterns[i].1.as_str()));
        i = i + 1;
    }
    let r = pattern_error(patterns, &errors);
    proof {
        if forall|j: int| 0 <= j < errors@.len() ==> errors@[j] is None {
            assert forall|j: int| 0 <= j < patterns@.len() implies regex_compiles(
                patterns@[j].1@,
            ) by {
                assert(errors@[j] is None);
            }
        }
        if forall|j: int| 0 <= j < patterns@.len() ==> regex_compiles(patterns@[j].1@) {
            assert forall|j: int| 0 <= j < errors@.len() implies errors@[j] is None by {
                assert(regex_compiles(patterns@[j].1@));
            }
        }
        if r is Err {
            let e = r->Err_0;
            let k = choose|k: int|
                0 <= k < errors@.len() && (forall|j: int| 0 <= j < k ==> errors@[j] is None)
                    && errors@[k] is Some && e == (ConcealError::InvalidPattern {
                    name: patterns@[k].0,
                    reason: errors@[k]->Some_0,
                });
            assert forall|j: int| 0 <= j < k implies regex_compiles(#[trigger] patterns@[j].1@) by {
                assert(errors@[j] is None);
            }
            assert(is_pattern_error(e, patterns@, k));
        }
    }
    r
}

} // verus!
