//! How the diff command is invoked, and what its output means.
use vstd::prelude::*;

use crate::config::{DiffEngineConfig, url_of};

verus! {

/// A program to run and its arguments.
#[derive(Clone, PartialEq, Eq, Debug)]
pub struct Invocation {
    pub program: String,
    pub args: Vec<String>,
}

/// The invocation that compares the two databases of `config`: the default
/// diff tool with both URLs and `--unsafe`, or the configured command run by
/// the shell with `postgit` as its name and both URLs as its arguments.
pub fn diff_invocation(config: &DiffEngineConfig) -> (r: Invocation)
    ensures
        config.command is None ==> r.program@ == "migra"@ && r.args@.len() == 3 && r.args@[0]@
            == url_of(config.source) && r.args@[1]@ == url_of(config.target) && r.args@[2]@
            == "--unsafe"@,
        config.command matches Some(c) ==> r.program@ == "sh"@ && r.args@.len() == 5
            && r.args@[0]@ == "-c"@ && r.args@[1]@ == c@ && r.args@[2]@ == "postgit"@
            && r.args@[3]@ == url_of(config.source) && r.args@[4]@ == url_of(config.target),
{
    let source = config.source.to_url();
    let target = config.target.to_url();
    match &config.command {
        Some(command) => {
            let mut args: Vec<String> = Vec::new();
            args.push(String::from_str("-c"));
            args.push(command.clone());
            args.push(String::from_str("postgit"));
            args.push(source);
            args.push(target);
            Invocation { program: String::from_str("sh"), args }
        },
        None => {
            let mut args: Vec<String> = Vec::new();
            args.push(source);
            args.push(target);
            args.push(String::from_str("--unsafe"));
            Invocation { program: String::from_str("migra"), args }
        },
    }
}

/// Unicode's `White_Space` characters.
pub open spec fn is_whitespace(c: char) -> bool {
    let u = c as u32;
    (0x09 <= u && u <= 0x0D) || u == 0x20 || u == 0x85 || u == 0xA0 || u == 0x1680 || (0x2000
        <= u && u <= 0x200A) || u == 0x2028 || u == 0x2029 || u == 0x202F || u == 0x205F || u
        == 0x3000
}

pub open spec fn trim_start(s: Seq<char>) -> Seq<char>
    decreases s.len(),
{
    if s.len() > 0 && is_whitespace(s[0]) {
        trim_start(s.drop_first())
    } else {
        s
    }
}

pub open spec fn trim_end(s: Seq<char>) -> Seq<char>
    decreases s.len(),
{
    if s.len() > 0 && is_whitespace(s.last()) {
        trim_end(s.drop_last())
    } else {
        s
    }
}

/// `s` without leading and trailing whitespace.
pub open spec fn trimmed(s: Seq<char>) -> Seq<char> {
    trim_end(trim_start(s))
}

/// Relies on `str::trim`: leading and trailing `White_Space` removed.
#[verifier::external_body]
fn trim_text(s: &str) -> (r: String)
    ensures
        r@ == trimmed(s@),
{
    s.trim().to_string()
}

/// What a finished diff command gives: any diagnostic output is a failure,
/// whatever the exit status, and carries the message; otherwise the script is
/// the standard output without surrounding whitespace.
pub fn diff_output(stdout: &str, stderr: &str) -> (r: Result<String, String>)
    ensures
        stderr@.len() > 0 ==> (r matches Err(m) && m@ == stderr@),
        stderr@.len() == 0 ==> (r matches Ok(s) && s@ == trimmed(stdout@)),
{
    if stderr.unicode_len() > 0 {
        Err(String::from_str(stderr))
    } else {
        Ok(trim_text(stdout))
    }
}

} // verus!
