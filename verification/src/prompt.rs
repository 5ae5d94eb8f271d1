//! Prompt templates for the language-model detector.

use crate::text::{chars_of, push_all, replace_all, replace_all_exec, string_of};
use std::path::PathBuf;
use vstd::prelude::*;

verus! {

/// Where a prompt template comes from.
#[derive(Debug)]
pub enum PromptSource {
    /// The built-in template for small models.
    BuiltinSimple,
    /// The built-in template for larger models.
    BuiltinDetailed,
    /// A template file of the user's, named by its file name in the prompts
    /// directory, with the built-in simple template in its place when it
    /// cannot be read.
    UserFile(String),
}

/// Loads and fills in prompt templates; user templates live in
/// `prompts_dir`.
#[derive(Clone)]
pub struct PromptLoader {
    pub prompts_dir: PathBuf,
}

/// The text with every `"` escaped as `\"`.
pub open spec fn escape_quotes(text: Seq<char>) -> Seq<char> {
    replace_all(text, seq!['"'], seq!['\\', '"'])
}

/// The template with every `{text}` replaced by the escaped text.
pub open spec fn formatted_prompt(template: Seq<char>, text: Seq<char>) -> Seq<char> {
    replace_all(template, "{text}"@, escape_quotes(text))
}

impl PromptLoader {
    /// A loader whose user templates live in `prompts_dir`.
    pub fn with_prompts_dir(prompts_dir: PathBuf) -> (r: Self)
        ensures
            r.prompts_dir == prompts_dir,
    {
        PromptLoader { prompts_dir }
    }

    /// Where the template named `template_name` comes from: the built-in
    /// simple one for no name or `simple`, the built-in detailed one for
    /// `detailed`, the file `NAME.md` in the prompts directory otherwise (the
    /// file name is returned; it is read from `prompts_dir`).
    pub fn prompt_source(&self, template_name: Option<&String>) -> (r: PromptSource)
        ensures
            match template_name {
                None => r is BuiltinSimple,
                Some(n) => if n@ == "simple"@ {
                    r is BuiltinSimple
                } else if n@ == "detailed"@ {
                    r is BuiltinDetailed
                } else {
                    r matches PromptSource::UserFile(f) && f@ == n@ + ".md"@
                },
            },
    {
        match template_name {
            None => PromptSource::BuiltinSimple,
            Some(n) => {
                let v = chars_of(n.as_str());
                if crate::text::chars_eq(&v, &chars_of("simple")) {
                    PromptSource::BuiltinSimple
                } else if crate::text::chars_eq(&v, &chars_of("detailed")) {
                    PromptSource::BuiltinDetailed
                } else {
                    let mut file = v;
                    push_all(&mut file, &chars_of(".md"));
                    proof {
                        reveal_strlit(".md");
                    }
                    PromptSource::UserFile(string_of(&file))
                }
            },
        }
    }

    /// The template with every `{text}` replaced by `text`, whose double
    /// quotes are escaped with a backslash.
    pub fn format_prompt(&self, template: &str, text: &str) -> (r: String)
        ensures
            r@ == formatted_prompt(template@, text@),
    {
        let t = chars_of(text);
        let mut quote: Vec<char> = Vec::new();
        quote.push('"');
        let mut escaped_quote: Vec<char> = Vec::new();
        escaped_quote.push('\\');
        escaped_quote.push('"');
        let escaped = replace_all_exec(&t, &quote, &escaped_quote);
        let placeholder = chars_of("{text}");
        let filled = replace_all_exec(&chars_of(template), &placeholder, &escaped);
        assert(quote@ =~= seq!['"']);
        assert(escaped_quote@ =~= seq!['\\', '"']);
        string_of(&filled)
    }
}

} // verus!
