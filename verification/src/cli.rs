//! The command-line arguments and the parsing of the target server's
//! arguments and environment.

use crate::config::ConcealError;
use crate::strmap::StrMap;
use crate::text::{chars_of, find_first, find_first_exec, lemma_find_first, string_of};
use std::path::PathBuf;
use vstd::prelude::*;

verus! {

/// The command-line arguments of the program.
#[derive(Debug, Clone)]
pub struct Args {
    pub mode: String,
    pub target_command: Option<String>,
    pub target_args: Option<String>,
    pub target_env: Vec<String>,
    pub target_cwd: Option<PathBuf>,
    pub log_level: String,
    pub config: Option<PathBuf>,
    pub keep_database: bool,
}

/// The words that `shell_words::split` makes of a string, or `None` when it
/// reports a parse error (an unterminated quote or escape).
pub uninterp spec fn shell_words_split(s: Seq<char>) -> Option<Seq<Seq<char>>>;

/// The character views of a list of strings.
pub open spec fn views(v: Seq<String>) -> Seq<Seq<char>> {
    v.map_values(|s: String| s@)
}

/// `shell_words::split(s)`, with its error taken as `None`. The words are
/// named, not stated: shell_words' quoting rules decide them.
#[verifier::external_body]
fn split_shell_words(s: &str) -> (r: Option<Vec<String>>)
    ensures
        match r {
            Some(v) => shell_words_split(s@) == Some(views(v@)),
            None => shell_words_split(s@) is None,
        },
{
    match shell_words::split(s) {
        Ok(v) => Some(v),
        Err(_) => None,
    }
}

/// The key of a `KEY=VALUE` entry: the part before its first `=`.
pub open spec fn env_key(s: Seq<char>) -> Seq<char> {
    s.take(find_first(s, seq!['=']).unwrap())
}

/// The value of a `KEY=VALUE` entry: the part after its first `=`.
pub open spec fn env_value(s: Seq<char>) -> Seq<char> {
    s.skip(find_first(s, seq!['=']).unwrap() + 1)
}

/// The map that a list of `KEY=VALUE` entries stands for; a later entry for a
/// key replaces an earlier one.
pub open spec fn env_map(entries: Seq<String>) -> Map<Seq<char>, Seq<char>>
    decreases entries.len(),
{
    if entries.len() == 0 {
        Map::empty()
    } else {
        env_map(entries.drop_last()).insert(
            env_key(entries.last()@),
            env_value(entries.last()@),
        )
    }
}

/// `s` splits at `=`.
pub open spec fn has_equals(s: Seq<char>) -> bool {
    find_first(s, seq!['=']) is Some
}

impl Args {
    /// The target server's arguments: `target_args` split as a shell would,
    /// the whole string as one argument when it does not split, none when
    /// there is no `target_args`.
    pub fn parse_target_args(&self) -> (r: Vec<String>)
        ensures
            match self.target_args {
                None => r@.len() == 0,
                Some(s) => match shell_words_split(s@) {
                    Some(words) => views(r@) == words,
                    None => r@.len() == 1 && r@[0]@ == s@,
                },
            },
    {
        match &self.target_args {
            None => Vec::new(),
            Some(s) => match split_shell_words(s.as_str()) {
                Some(v) => v,
                None => {
                    let mut v: Vec<String> = Vec::new();
                    v.push(s.clone());
                    v
                },
            },
        }
    }

    /// The target server's environment: each `KEY=VALUE` entry split at its
    /// first `=`; the first entry without `=` is an error.
    pub fn parse_target_env(&self) -> (r: Result<StrMap<String>, ConcealError>)
        ensures
            match r {
                Ok(m) => (forall|i: int|
                    0 <= i < self.target_env@.len() ==> has_equals(
                        (#[trigger] self.target_env@[i])@,
                    )) && m@.dom() == env_map(self.target_env@).dom() && forall|k: Seq<char>|
                    #[trigger] m@.contains_key(k) ==> m@[k]@ == env_map(self.target_env@)[k],
                Err(e) => exists|i: int|
                    0 <= i < self.target_env@.len() && !has_equals(
                        (#[trigger] self.target_env@[i])@,
                    ) && (forall|j: int|
                        0 <= j < i ==> has_equals(self.target_env@[j]@))
                        && e == ConcealError::InvalidEnvVar { value: self.target_env@[i] },
            },
    {
        let mut m: StrMap<String> = StrMap::new();
        let mut i: usize = 0;
        let mut eq: Vec<char> = Vec::new();
        eq.push('=');
        while i < self.target_env.len()
            invariant
                i <= self.target_env@.len(),
                eq@ == seq!['='],
                forall|j: int| 0 <= j < i ==> has_equals((#[trigger] self.target_env@[j])@),
                m@.dom() == env_map(self.target_env@.take(i as int)).dom(),
                forall|k: Seq<char>|
                    #[trigger] m@.contains_key(k) ==> m@[k]@ == env_map(
                        self.target_env@.take(i as int),
                    )[k],
            decreases self.target_env@.len() - i,
        {
            let entry = chars_of(self.target_env[i].as_str());
            assert(self.target_env@.take(i + 1).drop_last() =~= self.target_env@.take(i as int));
            match find_first_exec(&entry, &eq) {
                None => {
                    return Err(ConcealError::InvalidEnvVar { value: self.target_env[i].clone() });
                },
                Some(p) => {
                    proof {
                        lemma_find_first(entry@, eq@);
                    }
                    let mut key: Vec<char> = Vec::new();
                    let mut k: usize = 0;
                    while k < p
                        invariant
                            k <= p,
                            p < entry@.len(),
                            key@ == entry@.take(k as int),
                        decreases p - k,
                    {
                        key.push(entry[k]);
                        k = k + 1;
                        assert(key@ =~= entry@.take(k as int));
                    }
                    let mut value: Vec<char> = Vec::new();
                    assert(p < entry@.len());
                    assert(entry@.len() == entry.len());
                    let mut k: usize = p + 1;
                    while k < entry.len()
                        invariant
                            p + 1 <= k <= entry@.len(),
                            value@ == entry@.subrange(p + 1, k as int),
                        decreases entry@.len() - k,
                    {
                        value.push(entry[k]);
                        k = k + 1;
                        assert(value@ =~= entry@.subrange(p + 1, k as int));
                    }
                    assert(entry@.subrange(p + 1, k as int) =~= entry@.skip(p + 1));
                    let ghost before = m@;
                    m.insert(string_of(&key), string_of(&value));
                    proof {
                        let prev = env_map(self.target_env@.take(i as int));
                        let next = env_map(self.target_env@.take(i + 1));
                        assert(self.target_env@.take(i + 1).last() == self.target_env@[i as int]);
                        assert(next == prev.insert(key@, value@));
                        assert(m@.dom() =~= next.dom());
                        assert forall|kk: Seq<char>| #[trigger] m@.contains_key(kk) implies m@[kk]@
                            == next[kk] by {
                            if kk != key@ {
                                assert(before.contains_key(kk));
                            }
                        }
                    }
                },
            }
            i = i + 1;
        }
        assert(self.target_env@.take(i as int) =~= self.target_env@);
        Ok(m)
    }
}

} // verus!
