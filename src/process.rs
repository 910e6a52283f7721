use vstd::prelude::*;

use crate::command::{command_split, command_tokens};
use crate::text::{chars_of, replace_all, replace_spec};
use crate::tree::string_views;
use crate::vars::{set_var, substitute, VariableReplace, MAX_PASSES};

verus! {

/// The text that a subprocess's output bytes decode to.
pub uninterp spec fn decoded_text(b: Seq<u8>) -> Seq<char>;

/// Relies on encoding_rs::Encoding::decode on UTF_8: the text of `b`, decoded
/// as UTF-8 unless a UTF-16 byte order mark switches it to UTF-16, with any
/// byte order mark removed and malformed sequences replaced.
#[verifier::external_body]
fn decode_output(b: &[u8]) -> (r: String)
    ensures
        r@ == decoded_text(b@),
{
    encoding_rs::UTF_8.decode(b).0.into_owned()
}

/// Whether `c` has the Unicode White_Space property (what `char::is_whitespace` tests).
pub open spec fn white_space(c: char) -> bool {
    let u = c as u32;
    (0x9 <= u && u <= 0xd) || u == 0x20 || u == 0x85 || u == 0xa0 || u == 0x1680 || (0x2000 <= u
        && u <= 0x200a) || u == 0x2028 || u == 0x2029 || u == 0x202f || u == 0x205f || u == 0x3000
}

fn is_white(c: char) -> (r: bool)
    ensures
        r == white_space(c),
{
    let u = c as u32;
    (0x9 <= u && u <= 0xd) || u == 0x20 || u == 0x85 || u == 0xa0 || u == 0x1680 || (0x2000 <= u
        && u <= 0x200a) || u == 0x2028 || u == 0x2029 || u == 0x202f || u == 0x205f || u == 0x3000
}

pub open spec fn digit(d: int) -> char {
    if d == 0 { '0' }
    else if d == 1 { '1' }
    else if d == 2 { '2' }
    else if d == 3 { '3' }
    else if d == 4 { '4' }
    else if d == 5 { '5' }
    else if d == 6 { '6' }
    else if d == 7 { '7' }
    else if d == 8 { '8' }
    else { '9' }
}

/// Decimal digits of a non-negative number.
pub open spec fn digits(n: nat) -> Seq<char>
    decreases n,
{
    if n < 10 {
        seq![digit(n as int)]
    } else {
        digits(n / 10).push(digit((n % 10) as int))
    }
}

/// Decimal text of an integer, with a leading `-` when negative.
pub open spec fn decimal(n: int) -> Seq<char> {
    if n < 0 {
        seq!['-'] + digits((-n) as nat)
    } else {
        digits(n as nat)
    }
}

/// Relies on `i32`'s `to_string`: its decimal text.
#[verifier::external_body]
fn int_text(n: i32) -> (r: String)
    ensures
        r@ == decimal(n as int),
{
    n.to_string()
}

pub open spec fn trim_start(s: Seq<char>) -> Seq<char>
    decreases s.len(),
{
    if s.len() > 0 && white_space(s[0]) {
        trim_start(s.drop_first())
    } else {
        s
    }
}

pub open spec fn trim_end(s: Seq<char>) -> Seq<char>
    decreases s.len(),
{
    if s.len() > 0 && white_space(s.last()) {
        trim_end(s.drop_last())
    } else {
        s
    }
}

/// Captured output as kept: line ends made `\n`, white space trimmed at both ends.
pub open spec fn normalized(s: Seq<char>) -> Seq<char> {
    trim_end(trim_start(replace_spec(replace_spec(s, seq!['\r', '\n'], seq!['\n']), seq!['\r'], seq!['\n'])))
}

fn trim(s: &str) -> (r: String)
    ensures
        r@ == trim_end(trim_start(s@)),
{
    let c = chars_of(s);
    let n = c.len();
    let mut lo: usize = 0;
    assert(s@.subrange(0, n as int) =~= s@);
    while lo < n && is_white(c[lo])
        invariant
            c@ == s@,
            n == s@.len(),
            lo <= n,
            trim_start(s@) == trim_start(s@.subrange(lo as int, n as int)),
        decreases n - lo,
    {
        assert(s@.subrange(lo as int, n as int).drop_first() =~= s@.subrange(lo + 1, n as int));
        lo = lo + 1;
    }
    let mut hi: usize = n;
    assert(s@.subrange(lo as int, n as int) =~= s@.subrange(lo as int, hi as int));
    while hi > lo && is_white(c[hi - 1])
        invariant
            c@ == s@,
            n == s@.len(),
            lo <= hi <= n,
            trim_start(s@) == s@.subrange(lo as int, n as int),
            trim_end(s@.subrange(lo as int, n as int)) == trim_end(s@.subrange(lo as int, hi as int)),
        decreases hi - lo,
    {
        assert(s@.subrange(lo as int, hi as int).drop_last() =~= s@.subrange(lo as int, hi - 1));
        hi = hi - 1;
    }
    s.substring_char(lo, hi).to_owned()
}

fn normalize(s: &str) -> (r: String)
    ensures
        r@ == normalized(s@),
{
    proof {
        reveal_strlit("\r\n");
        reveal_strlit("\n");
        reveal_strlit("\r");
    }
    let a = replace_all(s, "\r\n", "\n");
    let b = replace_all(a.as_str(), "\r", "\n");
    assert("\r\n"@ =~= seq!['\r', '\n']);
    assert("\n"@ =~= seq!['\n']);
    assert("\r"@ =~= seq!['\r']);
    trim(b.as_str())
}

/// What one step of a pipeline produced.
pub struct SubprocessResult {
    pub stdout: String,
    pub stderr: String,
    pub exitcode: i32,
}

/// Why a step could not be prepared or did not succeed.
pub enum ProcessError {
    /// The step has no command to run.
    EmptyCommand,
    /// The process was ended by a signal, so it has no exit code.
    Terminated,
    /// The process exited with a code other than zero.
    Failed { code: i32, stdout: String, stderr: String },
}

impl SubprocessResult {
    /// Judges a finished process by its exit code, and keeps its output as
    /// decoded and normalized text.
    pub fn from_output(code: Option<i32>, stdout: &[u8], stderr: &[u8]) -> (r: Result<
        SubprocessResult,
        ProcessError,
    >)
        ensures
            code is None ==> r matches Err(ProcessError::Terminated),
            code == Some(0i32) ==> (r matches Ok(res) && res.exitcode == 0 && res.stdout@
                == normalized(decoded_text(stdout@)) && res.stderr@ == normalized(
                decoded_text(stderr@),
            )),
            (code is Some && code != Some(0i32)) ==> (r matches Err(
                ProcessError::Failed { code: k, stdout: o, stderr: e },
            ) && Some(k) == code && o@ == normalized(decoded_text(stdout@)) && e@ == normalized(
                decoded_text(stderr@),
            )),
    {
        match code {
            None => Err(ProcessError::Terminated),
            Some(c) => {
                let out = normalize(decode_output(stdout).as_str());
                let err = normalize(decode_output(stderr).as_str());
                if c != 0 {
                    Err(ProcessError::Failed { code: c, stdout: out, stderr: err })
                } else {
                    Ok(SubprocessResult { stdout: out, stderr: err, exitcode: c })
                }
            },
        }
    }
}

/// The variables of a step: those given, with the previous step's results when there is one.
pub open spec fn step_vars(
    vars: Seq<(Seq<char>, Seq<char>)>,
    last: Option<(Seq<char>, Seq<char>, i32)>,
) -> Seq<(Seq<char>, Seq<char>)> {
    match last {
        None => vars,
        Some((out, err, code)) => set_var(
            set_var(set_var(vars, "last-stdout"@, out), "last-stderr"@, err),
            "last-exitcode"@,
            decimal(code as int),
        ),
    }
}

/// The step's tokens after substitution: a leading `+` on the first is removed
/// and keeps a lone token whole; otherwise a lone token is split as a command line.
pub open spec fn step_tokens(resolved: Seq<Seq<char>>) -> Seq<Seq<char>> {
    if resolved.len() == 0 {
        resolved
    } else if resolved[0].len() > 0 && resolved[0][0] == '+' {
        resolved.update(0, resolved[0].drop_first())
    } else if resolved.len() == 1 {
        command_tokens(resolved[0])
    } else {
        resolved
    }
}

pub open spec fn resolve_all(command: Seq<Seq<char>>, vars: Seq<(Seq<char>, Seq<char>)>) -> Seq<Seq<char>> {
    command.map_values(|t: Seq<char>| substitute(t, vars, MAX_PASSES as nat))
}

/// The search path of a step: the inherited one, then the working directory.
pub open spec fn search_path(inherited: Option<Seq<char>>, sep: Seq<char>, workdir: Seq<char>) -> Seq<char> {
    match inherited {
        Some(p) => p + sep + workdir,
        None => workdir,
    }
}

pub open spec fn last_view(l: Option<&SubprocessResult>) -> Option<(Seq<char>, Seq<char>, i32)> {
    match l {
        Some(l) => Some((l.stdout@, l.stderr@, l.exitcode)),
        None => None,
    }
}

pub open spec fn str_opt(s: Option<&str>) -> Option<Seq<char>> {
    match s {
        Some(p) => Some(p@),
        None => None,
    }
}

/// The tokens that a step runs: `command` with the step's variables substituted, then tokenized.
pub open spec fn planned_tokens(
    command: Seq<String>,
    vars: Seq<(Seq<char>, Seq<char>)>,
    last: Option<&SubprocessResult>,
) -> Seq<Seq<char>> {
    step_tokens(resolve_all(string_views(command), step_vars(vars, last_view(last))))
}

/// One command of a pipeline, ready to run.
pub struct SubprocessTask {
    pub program: String,
    pub args: Vec<String>,
    pub workdir: String,
    pub path_env: String,
    pub raw_divided: Vec<String>,
}

impl SubprocessTask {
    /// Prepares one step: substitutes the variables (with the previous step's
    /// results) into each token and into the working directory, and tokenizes.
    pub fn from_command_line(
        command_divided: &Vec<String>,
        workdir: &str,
        vars: &VariableReplace,
        last_result: Option<&SubprocessResult>,
        inherited_path: Option<&str>,
        path_separator: &str,
    ) -> (r: Result<SubprocessTask, ProcessError>)
        requires
            vars.wf(),
        ensures
            planned_tokens(command_divided@, vars@, last_result).len() == 0 ==> r matches Err(
                ProcessError::EmptyCommand,
            ),
            planned_tokens(command_divided@, vars@, last_result).len() > 0 ==> r is Ok,
            r matches Ok(t) ==> string_views(t.raw_divided@) == planned_tokens(
                command_divided@,
                vars@,
                last_result,
            ) && t.program@ == string_views(t.raw_divided@)[0] && string_views(t.args@)
                == string_views(t.raw_divided@).drop_first() && t.workdir@ == substitute(
                workdir@,
                step_vars(vars@, last_view(last_result)),
                MAX_PASSES as nat,
            ) && t.path_env@ == search_path(str_opt(inherited_path), path_separator@, t.workdir@),
    {
        let mut vs = copy_vars(vars);
        match last_result {
            Some(l) => {
                let code = int_text(l.exitcode);
                vs.add("last-stdout", l.stdout.as_str());
                vs.add("last-stderr", l.stderr.as_str());
                vs.add("last-exitcode", code.as_str());
            },
            None => {},
        }
        let ghost vv = vs@;
        let mut resolved: Vec<String> = Vec::new();
        let mut i: usize = 0;
        while i < command_divided.len()
            invariant
                i <= command_divided@.len(),
                vs@ == vv,
                string_views(resolved@) == resolve_all(string_views(command_divided@), vv).take(i as int),
            decreases command_divided@.len() - i,
        {
            let t = vs.apply(command_divided[i].as_str());
            let ghost before = string_views(resolved@);
            resolved.push(t);
            assert(string_views(resolved@) =~= before.push(t@));
            assert(resolve_all(string_views(command_divided@), vv).take(i + 1) =~= resolve_all(
                string_views(command_divided@),
                vv,
            ).take(i as int).push(t@));
            i = i + 1;
        }
        assert(resolve_all(string_views(command_divided@), vv).take(i as int) =~= resolve_all(
            string_views(command_divided@),
            vv,
        ));
        let toks = final_tokens(resolved);
        if toks.len() == 0 {
            return Err(ProcessError::EmptyCommand);
        }
        let program = toks[0].clone();
        let mut args: Vec<String> = Vec::new();
        let mut j: usize = 1;
        while j < toks.len()
            invariant
                1 <= j <= toks@.len(),
                string_views(args@) == string_views(toks@).subrange(1, j as int),
            decreases toks@.len() - j,
        {
            let ghost before = string_views(args@);
            args.push(toks[j].clone());
            assert(string_views(args@) =~= before.push(toks@[j as int]@));
            assert(string_views(toks@).subrange(1, j + 1) =~= string_views(toks@).subrange(
                1,
                j as int,
            ).push(toks@[j as int]@));
            j = j + 1;
        }
        assert(string_views(toks@).subrange(1, j as int) =~= string_views(toks@).drop_first());
        let wd = vs.apply(workdir);
        let path_env = match inherited_path {
            Some(p) => {
                let mut s = p.to_owned();
                s.append(path_separator);
                s.append(wd.as_str());
                s
            },
            None => wd.clone(),
        };
        Ok(SubprocessTask { program, args, workdir: wd, path_env, raw_divided: toks })
    }
}

fn copy_vars(vars: &VariableReplace) -> (r: VariableReplace)
    requires
        vars.wf(),
    ensures
        r@ == vars@,
        r.wf(),
{
    let mut v: Vec<(String, String)> = Vec::new();
    let mut i: usize = 0;
    while i < vars.variables.len()
        invariant
            i <= vars.variables@.len(),
            crate::vars::pairs_view(v@) == vars@.take(i as int),
        decreases vars.variables@.len() - i,
    {
        let (k, x) = &vars.variables[i];
        let ghost before = crate::vars::pairs_view(v@);
        v.push((k.clone(), x.clone()));
        assert(crate::vars::pairs_view(v@) =~= before.push((k@, x@)));
        assert(vars@.take(i + 1) =~= vars@.take(i as int).push((k@, x@)));
        i = i + 1;
    }
    assert(vars@.take(i as int) =~= vars@);
    VariableReplace { variables: v }
}

fn final_tokens(resolved: Vec<String>) -> (r: Vec<String>)
    ensures
        string_views(r@) == step_tokens(string_views(resolved@)),
{
    let mut resolved = resolved;
    if resolved.len() == 0 {
        return resolved;
    }
    let first = resolved[0].as_str();
    let n = first.unicode_len();
    if n > 0 && first.get_char(0) == '+' {
        let stripped = first.substring_char(1, n).to_owned();
        let ghost before = string_views(resolved@);
        assert(stripped@ =~= before[0].drop_first());
        resolved.set(0, stripped);
        assert(string_views(resolved@) =~= before.update(0, stripped@));
        resolved
    } else if resolved.len() == 1 {
        command_split(resolved[0].as_str())
    } else {
        resolved
    }
}

} // verus!
