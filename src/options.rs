use vstd::prelude::*;

use crate::document::DotenvFile;
use crate::sync::SyncMode;
use crate::text::chars_of;
use crate::writer::{is_whitespace, white_space};

verus! {

/// Options for synchronizing between local and remote.
#[derive(Clone, Copy, PartialEq, Eq, Structural, Debug)]
pub struct SyncOptions {
    /// How to synchronize values.
    pub sync_mode: SyncMode,
    /// Only check if anything needs to be synchronized.
    pub check_only: bool,
    /// Don't ask for confirmation before synchronizing.
    pub no_confirm: bool,
}

/// Global options that are always relevant.
#[derive(Clone, PartialEq, Eq, Debug)]
pub struct GlobalOptions {
    /// The dotenv file to load (if present).
    pub env_file: String,
    /// Disables loading options from dotenv files.
    pub no_env_file: bool,
    /// How verbose the output is (0 to 3).
    pub verbose: u8,
}

/// How much is logged.
#[derive(Clone, Copy, PartialEq, Eq, Structural, Debug)]
pub enum LogLevel {
    Info,
    Debug,
    Trace,
}

/// The log level for a verbosity count: the first `-v` changes nothing.
pub fn log_level(verbose: u8) -> (r: LogLevel)
    ensures
        verbose <= 1 ==> r == LogLevel::Info,
        verbose == 2 ==> r == LogLevel::Debug,
        verbose >= 3 ==> r == LogLevel::Trace,
{
    if verbose <= 1 {
        LogLevel::Info
    } else if verbose == 2 {
        LogLevel::Debug
    } else {
        LogLevel::Trace
    }
}

/// A shell that completions can be generated for.
#[derive(Clone, Copy, PartialEq, Eq, Structural, Hash, Debug)]
pub enum Shell {
    Bash,
    PowerShell,
    Zsh,
    Elvish,
    Fish,
    Nushell,
}

/// Options for generating shell completions.
#[derive(Clone, Copy, PartialEq, Eq, Structural, Debug)]
pub struct CompletionsOptions {
    /// The shell to generate completions for.
    pub shell: Shell,
}

/// A value that may be loaded from the environment or a dotenv file.
///
/// To load from an environment, the value is written `env:VAR_NAME`.
#[derive(Clone, PartialEq, Eq, Debug)]
pub enum MaybeEnv<T> {
    /// Value refers to an environment variable.
    EnvVar(String),
    /// Value was provided directly.
    Value(T),
}

/// The value of variable `name` where the dotenv file defines it, else the
/// value the process environment gives (`from_process`), in that order.
pub open spec fn lookup_spec(
    name: Seq<char>,
    file: Option<Map<Seq<char>, Seq<char>>>,
    from_process: Option<Seq<char>>,
) -> Option<Seq<char>> {
    match file {
        Some(m) => if m.contains_key(name) {
            Some(m[name])
        } else {
            from_process
        },
        None => from_process,
    }
}

/// Looks a variable up: first in the dotenv file, then in the process
/// environment, whose value the caller reads.
pub fn lookup_var(name: &String, env_file: Option<&DotenvFile>, from_process: Option<String>) -> (r: Option<String>)
    requires
        env_file matches Some(f) ==> f.wf(),
    ensures
        match r {
            Some(s) => Some(s@),
            None => None::<Seq<char>>,
        } == lookup_spec(
            name@,
            match env_file {
                Some(f) => Some(f.params()),
                None => None,
            },
            match from_process {
                Some(s) => Some(s@),
                None => None,
            },
        ),
{
    match env_file {
        Some(f) => match f.parameters().get(name) {
            Some(v) => Some(v.clone()),
            None => from_process,
        },
        None => from_process,
    }
}

/// A reply to a confirmation prompt.
#[derive(Clone, Copy, PartialEq, Eq, Structural, Debug)]
pub enum Answer {
    Yes,
    No,
    /// Neither: ask again.
    Unclear,
}

/// `s` without the white space at its end.
pub open spec fn trim_end_spec(s: Seq<char>) -> Seq<char>
    decreases s.len(),
{
    if s.len() > 0 && white_space(s.last()) {
        trim_end_spec(s.drop_last())
    } else {
        s
    }
}

/// What a typed line answers: `y` or `yes`, `n` or `no`, trailing white
/// space aside.
pub open spec fn answer_of(line: Seq<char>) -> Answer {
    let t = trim_end_spec(line);
    if t == seq!['y'] || t == seq!['y', 'e', 's'] {
        Answer::Yes
    } else if t == seq!['n'] || t == seq!['n', 'o'] {
        Answer::No
    } else {
        Answer::Unclear
    }
}

/// Reads the reply to a confirmation prompt.
pub fn answer(line: &str) -> (r: Answer)
    ensures
        r == answer_of(line@),
{
    let cs = chars_of(line);
    let mut n = cs.len();
    assert(cs@.take(n as int) =~= cs@);
    while n > 0 && is_whitespace(cs[n - 1])
        invariant
            n <= cs.len(),
            cs@ == line@,
            trim_end_spec(cs@) == trim_end_spec(cs@.take(n as int)),
        decreases n,
    {
        assert(cs@.take(n as int).drop_last() =~= cs@.take(n - 1));
        n -= 1;
    }
    assert(cs@.take(n as int) =~= cs@.subrange(0, n as int));
    let ghost t = cs@.take(n as int);
    assert(trim_end_spec(cs@) == t);
    if (n == 1 && cs[0] == 'y') || (n == 3 && cs[0] == 'y' && cs[1] == 'e' && cs[2] == 's') {
        assert(t =~= seq!['y'] || t =~= seq!['y', 'e', 's']);
        Answer::Yes
    } else if (n == 1 && cs[0] == 'n') || (n == 2 && cs[0] == 'n' && cs[1] == 'o') {
        assert(t =~= seq!['n'] || t =~= seq!['n', 'o']);
        Answer::No
    } else {
        proof {
            if t == seq!['y'] || t == seq!['y', 'e', 's'] || t == seq!['n'] || t == seq!['n', 'o'] {
                assert(t[0] == cs@[0]);
                if t.len() > 1 {
                    assert(t[1] == cs@[1]);
                }
                if t.len() > 2 {
                    assert(t[2] == cs@[2]);
                }
            }
        }
        Answer::Unclear
    }
}

/// Where a service URL comes from, by its scheme.
#[derive(Clone, Copy, PartialEq, Eq, Structural, Debug)]
pub enum UrlSource {
    /// `http` or `https`: the URL itself.
    Direct,
    /// `env`: the variable that the URL's host names.
    Variable,
    /// Any other scheme.
    Unsupported,
}

pub open spec fn url_source_of(scheme: Seq<char>) -> UrlSource {
    if scheme == "http"@ || scheme == "https"@ {
        UrlSource::Direct
    } else if scheme == "env"@ {
        UrlSource::Variable
    } else {
        UrlSource::Unsupported
    }
}

fn same_text(a: &Vec<char>, b: &str) -> (r: bool)
    ensures
        r == (a@ == b@),
{
    let cs = chars_of(b);
    if a.len() != cs.len() {
        return false;
    }
    let mut i: usize = 0;
    while i < cs.len()
        invariant
            i <= cs.len(),
            a.len() == cs.len(),
            cs@ == b@,
            forall|j: int| 0 <= j < i ==> a@[j] == cs@[j],
        decreases cs.len() - i,
    {
        if a[i] != cs[i] {
            return false;
        }
        i += 1;
    }
    assert(a@ =~= cs@);
    true
}

/// Decides where a service URL with this scheme comes from.
pub fn url_source(scheme: &str) -> (r: UrlSource)
    ensures
        r == url_source_of(scheme@),
{
    let cs = chars_of(scheme);
    if same_text(&cs, "http") || same_text(&cs, "https") {
        UrlSource::Direct
    } else if same_text(&cs, "env") {
        UrlSource::Variable
    } else {
        UrlSource::Unsupported
    }
}

} // verus!
