//! A project's configuration, as the answers to the setup questions give it.
use vstd::prelude::*;
use crate::text::{chars_of, string_of, trim, trim_chars, trimmed_fields, split_trimmed, views_of};

verus! {

/// What one project's prompt generation is set up with.
#[derive(Debug, Clone)]
pub struct Config {
    pub project_name: String,
    pub output_path: String,
    pub intro_prompt: String,
    pub allowed_extensions: Vec<String>,
    pub deny_dirs: Vec<String>,
    /// The goals of earlier runs, oldest first.
    pub history: Vec<String>,
}

/// The project name an answer gives: the trimmed answer, or the directory
/// when nothing but whitespace was entered.
pub open spec fn name_or_default(answer: Seq<char>, current_dir: Seq<char>) -> Seq<char> {
    if trim(answer).len() == 0 {
        current_dir
    } else {
        trim(answer)
    }
}

fn trimmed(s: &str) -> (r: String)
    ensures
        r@ == trim(s@),
{
    let c = chars_of(s);
    let t = trim_chars(&c);
    string_of(&t)
}

/// Builds a configuration from the answers to the setup questions, each
/// given as the line that was entered. Lists are comma-separated; every
/// entry and every answer is trimmed. The history starts empty.
pub fn create_config(
    current_dir: &str,
    project_name: &str,
    output_path: &str,
    intro_prompt: &str,
    allowed_extensions: &str,
    deny_dirs: &str,
) -> (r: Config)
    ensures
        r.project_name@ == name_or_default(project_name@, current_dir@),
        r.output_path@ == trim(output_path@),
        r.intro_prompt@ == trim(intro_prompt@),
        views_of(r.allowed_extensions@) == trimmed_fields(trim(allowed_extensions@), ','),
        views_of(r.deny_dirs@) == trimmed_fields(trim(deny_dirs@), ','),
        r.history@.len() == 0,
{
    let name = trimmed(project_name);
    let name = if name.as_str().is_empty() {
        string_of(&chars_of(current_dir))
    } else {
        name
    };
    let exts = trim_chars(&chars_of(allowed_extensions));
    let dirs = trim_chars(&chars_of(deny_dirs));
    Config {
        project_name: name,
        output_path: trimmed(output_path),
        intro_prompt: trimmed(intro_prompt),
        allowed_extensions: split_trimmed(&exts, ','),
        deny_dirs: split_trimmed(&dirs, ','),
        history: Vec::new(),
    }
}

} // verus!
