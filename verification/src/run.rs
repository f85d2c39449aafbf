//! Running a tool or a program in an env, and what may be done with a service.

use crate::activate::{
    apply_to_command, assigns, dir_models, extend_pairs, law_plain_values_never_fail,
    law_plain_values_resolve_if, law_values_of_templates, marks, pair_texts, path_like,
    program_search, resolve_args, resolve_env, resolve_program, resolves_all, search_dirs,
    templates, ProcessEnv, Search, SearchModel,
};
use crate::activation_vars::{
    law_plain_values_resolve, resolve, resolves_to, EvalError, EvalErrorModel,
};
use crate::env::Env;
use crate::manifest::{Manifest, ManifestModel, Tool, ToolModel};
use crate::paths::Os;
use crate::report::{declared_tools, tools_listed};
use crate::service::ServiceState;
use crate::strmap::{law_listing_is_complete, listable, listed, StrMap};
use crate::text::{decimal, digits, has_char, texts};
use vstd::prelude::*;

verus! {

// ---- programs ----

/// Where a tool's program is looked for, once its `run` has this value: one
/// that is named by a path is below the env root, any other on the PATH of the
/// env.
pub open spec fn tool_search(
    m: ManifestModel,
    os: Os,
    n: nat,
    value: Seq<char>,
    exts: Seq<Seq<char>>,
) -> SearchModel {
    if path_like(value) {
        SearchModel::InRoot(value)
    } else {
        program_search(m, os, n, value, exts)
    }
}

/// The value of a tool's `run`, and where its program is looked for.
#[derive(Debug, PartialEq, Eq)]
pub struct ToolSearch {
    pub value: String,
    pub search: Search,
}

/// `r` is what the `run` of a tool can come to: its value and where the program
/// is looked for, or why it has no value.
pub open spec fn tool_found(
    env: Env,
    os: Os,
    n: nat,
    run: Seq<char>,
    exts: Seq<Seq<char>>,
    host: Map<Seq<char>, Seq<char>>,
    r: Result<ToolSearch, EvalError>,
) -> bool {
    match r {
        Ok(t) => resolves_to(run, env.root@, host, Ok(t.value@)) && t.search@ == tool_search(
            env.manifest@,
            os,
            n,
            t.value@,
            exts,
        ),
        Err(e) => resolves_to(run, env.root@, host, Err(e@)),
    }
}

/// Where the program of a tool is looked for, from the value of its `run`.
pub fn search_tool(manifest: &Manifest, os: Os, n: usize, value: &str, exts: &Vec<String>) -> (r:
    Search)
    ensures
        r@ == tool_search(manifest@, os, n as nat, value@, texts(exts@)),
{
    if has_char(value, '/') || has_char(value, '\\') {
        return Search::InRoot(value.to_owned());
    }
    resolve_program(manifest, os, n, value, exts)
}

/// Where the program of a tool is looked for. The PATH of the host has `n`
/// directories.
pub fn resolve_tool_program(
    env: &Env,
    os: Os,
    n: usize,
    run: &str,
    exts: &Vec<String>,
    host: &StrMap<String>,
) -> (r: Result<ToolSearch, EvalError>)
    ensures
        tool_found(*env, os, n as nat, run@, texts(exts@), host@, r),
{
    match resolve(run, env.root.as_str(), host) {
        Err(e) => Err(e),
        Ok(value) => {
            let search = search_tool(&env.manifest, os, n, value.as_str(), exts);
            Ok(ToolSearch { value, search })
        },
    }
}

/// What a name stands for in an env.
#[derive(Debug, PartialEq, Eq)]
pub enum Target {
    /// The declared tool of that name.
    Tool(ToolSearch),
    /// A program.
    Program(Search),
}

/// What `name` stands for in an env: the tool of that name where one is
/// declared, else a program.
pub fn which(
    env: &Env,
    os: Os,
    n: usize,
    name: &str,
    exts: &Vec<String>,
    host: &StrMap<String>,
) -> (r: Result<Target, EvalError>)
    ensures
        if env.manifest@.tools.contains_key(name@) {
            let run = env.manifest@.tools[name@].run;
            match r {
                Ok(Target::Tool(t)) => tool_found(
                    *env,
                    os,
                    n as nat,
                    run,
                    texts(exts@),
                    host@,
                    Ok(t),
                ),
                Ok(Target::Program(_)) => false,
                Err(e) => tool_found(*env, os, n as nat, run, texts(exts@), host@, Err(e)),
            }
        } else {
            r matches Ok(Target::Program(s)) && s@ == program_search(
                env.manifest@,
                os,
                n as nat,
                name@,
                texts(exts@),
            )
        },
{
    match env.manifest.tools.get(name) {
        Some(tool) => match resolve_tool_program(env, os, n, tool.run.as_str(), exts, host) {
            Err(e) => Err(e),
            Ok(t) => Ok(Target::Tool(t)),
        },
        None => Ok(Target::Program(resolve_program(&env.manifest, os, n, name, exts))),
    }
}

/// The env that a command is about: the one that was given, else the active
/// one. The error is the text to show where there is neither.
pub fn which_env(given: Option<&str>, active: Option<&str>) -> (r: Result<String, String>)
    ensures
        match (given, active) {
            (Some(e), _) => r matches Ok(s) && s@ == e@,
            (None, Some(e)) => r matches Ok(s) && s@ == e@,
            (None, None) => r matches Err(s) && s@
                == "no env given and TOOLBOX_ACTIVE_ENV is unset; pass --env or activate an env"@,
        },
{
    match (given, active) {
        (Some(e), _) => Ok(e.to_owned()),
        (None, Some(e)) => Ok(e.to_owned()),
        (None, None) => Err(
            "no env given and TOOLBOX_ACTIVE_ENV is unset; pass --env or activate an env".to_owned(),
        ),
    }
}

/// Why there is nothing to run.
#[derive(Debug, PartialEq, Eq)]
pub enum RunError {
    /// A name is neither a tool nor a program that was found.
    NotRunnable,
    /// A name stands for nothing in the env.
    Unknown,
    /// The program of a tool is not at the path that it names.
    NoProgramAt(String),
    /// The program of a tool was not found by this name.
    NoProgram(String),
}

/// The text for an error on running `cmd` in the env registered as `env`.
pub open spec fn run_error_text(e: RunError, cmd: Seq<char>, env: Seq<char>, m: ManifestModel) -> Seq<
    char,
> {
    match e {
        RunError::NotRunnable => "'"@ + cmd + "' is not a declared tool of env '"@ + env
            + "' and was not found on PATH; declared tools: "@ + tools_listed(m),
        RunError::Unknown => "'"@ + cmd
            + "' is not a declared tool or a program on the PATH of env '"@ + env + "'"@,
        RunError::NoProgramAt(p) => "tool program not found: "@ + p@,
        RunError::NoProgram(p) => "could not find tool program '"@ + p@ + "' in env '"@ + m.name
            + "' or PATH"@,
    }
}

impl RunError {
    /// The text to show.
    pub fn message(&self, cmd: &str, env: &str, manifest: &Manifest) -> (r: String)
        ensures
            r@ == run_error_text(*self, cmd@, env@, manifest@),
    {
        match self {
            RunError::NotRunnable => {
                let mut r = "'".to_owned();
                r.push_str(cmd);
                r.push_str("' is not a declared tool of env '");
                r.push_str(env);
                r.push_str("' and was not found on PATH; declared tools: ");
                r.push_str(declared_tools(manifest).as_str());
                r
            },
            RunError::Unknown => {
                let mut r = "'".to_owned();
                r.push_str(cmd);
                r.push_str("' is not a declared tool or a program on the PATH of env '");
                r.push_str(env);
                r.push_str("'");
                r
            },
            RunError::NoProgramAt(p) => {
                let mut r = "tool program not found: ".to_owned();
                r.push_str(p.as_str());
                r
            },
            RunError::NoProgram(p) => {
                let mut r = "could not find tool program '".to_owned();
                r.push_str(p.as_str());
                r.push_str("' in env '");
                r.push_str(manifest.name.as_str());
                r.push_str("' or PATH");
                r
            },
        }
    }
}

impl ToolSearch {
    /// Why a tool cannot be run whose program is at none of the places. `path`
    /// is the path that the value of its `run` names, where it names one.
    pub fn not_found(&self, path: &str) -> (r: RunError)
        ensures
            match self.search {
                Search::Probe(_) => r matches RunError::NoProgram(p) && p@ == self.value@,
                _ => r matches RunError::NoProgramAt(p) && p@ == path@,
            },
    {
        match &self.search {
            Search::Probe(_) => RunError::NoProgram(self.value.clone()),
            _ => RunError::NoProgramAt(path.to_owned()),
        }
    }
}

// ---- the process of a tool ----

/// What a tool's process is started with, beside its program.
#[derive(Debug, PartialEq, Eq)]
pub struct ToolProcess {
    pub args: Vec<String>,
    pub env: ProcessEnv,
}

/// `args` and `vars` are what the process of a tool can be started with: its
/// declared arguments, and the variables of the env with the tool's own on top.
pub open spec fn starts_with(
    m: ManifestModel,
    root: Seq<char>,
    os: Os,
    t: ToolModel,
    host: Map<Seq<char>, Seq<char>>,
    args: Seq<Seq<char>>,
    vars: Seq<(Seq<char>, Seq<char>)>,
) -> bool {
    &&& resolves_all(t.args, root, host, Ok(args))
    &&& exists|shared: Seq<(Seq<char>, Seq<char>)>, own: Seq<(Seq<char>, Seq<char>)>|
        {
            &&& #[trigger] assigns(templates(m, os), root, host, Ok(shared))
            &&& #[trigger] assigns(listed(t.env), root, host, Ok(own))
            &&& vars == marks(m.name, root) + shared + own
        }
}

/// All the arguments can be resolved.
pub open spec fn args_resolve(
    args: Seq<Seq<char>>,
    root: Seq<char>,
    host: Map<Seq<char>, Seq<char>>,
) -> bool {
    exists|xs: Seq<Seq<char>>| resolves_all(args, root, host, Ok(xs))
}

/// All the variables can be resolved.
pub open spec fn vars_resolve(
    ts: Seq<(Seq<char>, Seq<char>)>,
    root: Seq<char>,
    host: Map<Seq<char>, Seq<char>>,
) -> bool {
    exists|vals: Seq<(Seq<char>, Seq<char>)>| assigns(ts, root, host, Ok(vals))
}

/// The error of the first value that has one, where the arguments come before
/// the variables of the env and these before the tool's own.
pub open spec fn fails_with(
    m: ManifestModel,
    root: Seq<char>,
    os: Os,
    t: ToolModel,
    host: Map<Seq<char>, Seq<char>>,
    e: EvalErrorModel,
) -> bool {
    ||| resolves_all(t.args, root, host, Err(e))
    ||| args_resolve(t.args, root, host) && assigns(templates(m, os), root, host, Err(e))
    ||| args_resolve(t.args, root, host) && vars_resolve(templates(m, os), root, host) && assigns(
        listed(t.env),
        root,
        host,
        Err(e),
    )
}

/// What the process of a declared tool is started with. The PATH of the host
/// has `n` directories.
pub fn build_tool_command(env: &Env, tool: &Tool, os: Os, n: usize, host: &StrMap<String>) -> (r:
    Result<ToolProcess, EvalError>)
    ensures
        match r {
            Ok(p) => starts_with(
                env.manifest@,
                env.root@,
                os,
                tool@,
                host@,
                texts(p.args@),
                pair_texts(p.env.vars@),
            ) && dir_models(p.env.path@) == search_dirs(env.manifest@, os, n as nat),
            Err(e) => fails_with(env.manifest@, env.root@, os, tool@, host@, e@),
        },
{
    let root = env.root.as_str();
    let args = match resolve_args(&tool.args, root, host) {
        Err(e) => return Err(e),
        Ok(args) => args,
    };
    assert(resolves_all(tool@.args, root@, host@, Ok(texts(args@))));
    let mut all = match apply_to_command(env, os, n, host) {
        Err(e) => return Err(e),
        Ok(all) => all,
    };
    let ghost shared = choose|vals: Seq<(Seq<char>, Seq<char>)>| #[trigger]
        assigns(templates(env.manifest@, os), root@, host@, Ok(vals)) && pair_texts(all.vars@)
            == marks(env.manifest@.name, root@) + vals;
    match resolve_env(&tool.env, root, host) {
        Err(e) => Err(e),
        Ok(own) => {
            assert(assigns(listed(tool@.env), root@, host@, Ok::<_, EvalErrorModel>(
                pair_texts(own@),
            )));
            extend_pairs(&mut all.vars, own);
            Ok(ToolProcess { args, env: all })
        },
    }
}

// ---- services ----

/// Why nothing is done with a service.
#[derive(Debug, PartialEq, Eq, Clone, Copy)]
pub enum ServiceError {
    /// No tool of the name is declared.
    NotDeclared,
    /// The service already runs as this process.
    AlreadyRunning { pid: u32 },
    /// Nothing is recorded of the service.
    NotRunning,
    /// The service has no log.
    NoLog,
}

/// The text for an error on the service of `tool` in `env`.
pub open spec fn service_error_text(e: ServiceError, tool: Seq<char>, env: Seq<char>) -> Seq<char> {
    match e {
        ServiceError::NotDeclared => "no tool '"@ + tool + "' declared in env '"@ + env
            + "'; declare one with `config add-tool`"@,
        ServiceError::AlreadyRunning { pid } => "service '"@ + tool + "' is already running in '"@
            + env + "' (pid "@ + digits(pid as nat) + ")"@,
        ServiceError::NotRunning => "service '"@ + tool + "' is not running in '"@ + env + "'"@,
        ServiceError::NoLog => "no logs for service '"@ + tool + "' in '"@ + env
            + "' (never started?)"@,
    }
}

/// `a`, the tool, `b`, the env and `c`.
fn about(a: &str, tool: &str, b: &str, env: &str, c: &str) -> (r: String)
    ensures
        r@ == a@ + tool@ + b@ + env@ + c@,
{
    let mut r = a.to_owned();
    r.push_str(tool);
    r.push_str(b);
    r.push_str(env);
    r.push_str(c);
    r
}

impl ServiceError {
    /// The text to show.
    pub fn message(self, tool: &str, env: &str) -> (r: String)
        ensures
            r@ == service_error_text(self, tool@, env@),
    {
        match self {
            ServiceError::NotDeclared => about(
                "no tool '",
                tool,
                "' declared in env '",
                env,
                "'; declare one with `config add-tool`",
            ),
            ServiceError::AlreadyRunning { pid } => {
                let mut r = about("service '", tool, "' is already running in '", env, "' (pid ");
                r.push_str(decimal(pid as u128).as_str());
                r.push_str(")");
                r
            },
            ServiceError::NotRunning => about("service '", tool, "' is not running in '", env, "'"),
            ServiceError::NoLog => about(
                "no logs for service '",
                tool,
                "' in '",
                env,
                "' (never started?)",
            ),
        }
    }
}

/// Whether the service of `tool` may be started: the tool is declared, and no
/// process that is still alive is recorded for it. `alive` tells whether the
/// recorded process is.
pub fn start_service<'a>(
    manifest: &'a Manifest,
    tool: &str,
    recorded: Option<&ServiceState>,
    alive: bool,
) -> (r: Result<&'a Tool, ServiceError>)
    ensures
        match r {
            Ok(t) => manifest@.tools.contains_key(tool@) && t@ == manifest@.tools[tool@] && !(
            recorded is Some && alive),
            Err(e) => if !manifest@.tools.contains_key(tool@) {
                e == ServiceError::NotDeclared
            } else {
                recorded is Some && alive && e == ServiceError::AlreadyRunning {
                    pid: recorded->Some_0.pid,
                }
            },
        },
{
    match manifest.tools.get(tool) {
        None => Err(ServiceError::NotDeclared),
        Some(t) => match recorded {
            Some(s) => if alive {
                Err(ServiceError::AlreadyRunning { pid: s.pid })
            } else {
                Ok(t)
            },
            None => Ok(t),
        },
    }
}

/// What stopping a service takes. The record of the service goes either way.
#[derive(Debug, PartialEq, Eq, Clone, Copy)]
pub enum Stop {
    /// This process and its children have to end.
    Kill { pid: u32 },
    /// The process has ended already.
    Clear,
}

/// What stopping a service takes.
pub fn stop_service(recorded: Option<&ServiceState>, alive: bool) -> (r: Result<Stop, ServiceError>)
    ensures
        r == (match recorded {
            None => Err(ServiceError::NotRunning),
            Some(s) => Ok(
                if alive {
                    Stop::Kill { pid: s.pid }
                } else {
                    Stop::Clear
                },
            ),
        }),
{
    match recorded {
        None => Err(ServiceError::NotRunning),
        Some(s) => if alive {
            Ok(Stop::Kill { pid: s.pid })
        } else {
            Ok(Stop::Clear)
        },
    }
}

impl Stop {
    /// The text to show once it is done.
    pub fn message(self, tool: &str, env: &str) -> (r: String)
        ensures
            r@ == (match self {
                Stop::Kill { pid } => "Stopped service '"@ + tool@ + "' in '"@ + env@ + "' (pid "@
                    + digits(pid as nat) + ")\n"@,
                Stop::Clear => "Service '"@ + tool@ + "' was not running; cleared stale state.\n"@,
            }),
    {
        match self {
            Stop::Kill { pid } => {
                let mut r = about("Stopped service '", tool, "' in '", env, "' (pid ");
                r.push_str(decimal(pid as u128).as_str());
                r.push_str(")\n");
                r
            },
            Stop::Clear => {
                let mut r = "Service '".to_owned();
                r.push_str(tool);
                r.push_str("' was not running; cleared stale state.\n");
                r
            },
        }
    }
}

// ---- laws ----

/// The program of a tool that is named by a path is below the env root; any other
/// is looked for as every program is.
pub proof fn law_tool_programs(
    m: ManifestModel,
    os: Os,
    n: nat,
    value: Seq<char>,
    exts: Seq<Seq<char>>,
)
    ensures
        value.contains('/') || value.contains('\\') ==> tool_search(m, os, n, value, exts)
            == SearchModel::InRoot(value),
        !value.contains('/') && !value.contains('\\') ==> tool_search(m, os, n, value, exts)
            == program_search(m, os, n, value, exts),
{
}

/// The process of a tool gets every declared argument, in order, and one without a
/// dollar sign as it is. It finds the prefix and the name of its env, then the
/// variables of the env, and last its own, which so override.
pub proof fn law_tool_process(
    m: ManifestModel,
    root: Seq<char>,
    os: Os,
    t: ToolModel,
    host: Map<Seq<char>, Seq<char>>,
    args: Seq<Seq<char>>,
    vars: Seq<(Seq<char>, Seq<char>)>,
    i: int,
    k: Seq<char>,
)
    requires
        starts_with(m, root, os, t, host, args, vars),
        listable(t.env),
        !root.contains('$'),
    ensures
        args.len() == t.args.len(),
        0 <= i < args.len() && !t.args[i].contains('$') ==> args[i] == t.args[i],
        0 <= i < args.len() ==> resolves_to(t.args[i], root, host, Ok(args[i])),
        vars.len() == 2 + templates(m, os).len() + listed(t.env).len(),
        vars[0] == ("TOOLBOX_PREFIX"@, root),
        vars[1] == ("TOOLBOX_ACTIVE_ENV"@, m.name),
        0 <= i < templates(m, os).len() ==> vars[2 + i].0 == templates(m, os)[i].0 && resolves_to(
            templates(m, os)[i].1,
            root,
            host,
            Ok(vars[2 + i].1),
        ),
        t.env.contains_key(k) && !t.env[k].contains('$') ==> exists|j: int|
            0 <= j < vars.len() && #[trigger] vars[j] == (k, t.env[k]) && forall|l: int|
                j < l < vars.len() ==> (#[trigger] vars[l]).0 != k,
{
    if 0 <= i < args.len() {
        assert(resolves_to(t.args[i], root, host, Ok(args[i])));
        if !t.args[i].contains('$') {
            law_plain_values_resolve(t.args[i], Seq::empty(), root, host, Ok(args[i]));
        }
    }
    let ts = templates(m, os);
    let (shared, own) = choose|
        shared: Seq<(Seq<char>, Seq<char>)>,
        own: Seq<(Seq<char>, Seq<char>)>,
    |
        {
            &&& #[trigger] assigns(templates(m, os), root, host, Ok(shared))
            &&& #[trigger] assigns(listed(t.env), root, host, Ok(own))
            &&& vars == marks(m.name, root) + shared + own
        };
    let l = listed(t.env);
    assert(shared.len() == ts.len() && own.len() == l.len());
    if 0 <= i < ts.len() {
        assert(vars[2 + i] == shared[i]);
        law_values_of_templates(ts, root, host, shared, i);
    }
    if t.env.contains_key(k) && !t.env[k].contains('$') {
        law_listing_is_complete(t.env, k);
        let a = choose|a: int| 0 <= a < l.len() && (#[trigger] l[a]).0 == k;
        law_values_of_templates(l, root, host, own, a);
        let j = 2 + ts.len() + a;
        assert(vars[j] == own[a]);
        assert(vars[j] == (k, t.env[k]));
        assert forall|b: int| j < b < vars.len() implies (#[trigger] vars[b]).0 != k by {
            let c = b - 2 - ts.len();
            assert(vars[b] == own[c]);
            law_values_of_templates(l, root, host, own, c);
            assert(l[a].0 != l[c].0);
        }
    }
}

/// A tool whose program is named without a dollar sign is looked for by that name,
/// and its process can always be started where nothing of it holds one.
pub proof fn law_plain_tools_run(
    env: Env,
    os: Os,
    n: nat,
    t: ToolModel,
    exts: Seq<Seq<char>>,
    host: Map<Seq<char>, Seq<char>>,
    r: Result<ToolSearch, EvalError>,
    e: EvalErrorModel,
)
    requires
        !env.root@.contains('$'),
    ensures
        !t.run.contains('$') && tool_found(env, os, n, t.run, exts, host, r) ==> (r matches Ok(s)
            && s.value@ == t.run && s.search@ == tool_search(env.manifest@, os, n, t.run, exts)),
        (forall|i: int| 0 <= i < t.args.len() ==> !(#[trigger] t.args[i]).contains('$')) && (forall|
            i: int,
        |
            0 <= i < templates(env.manifest@, os).len() ==> !(#[trigger] templates(
                env.manifest@,
                os,
            )[i]).1.contains('$')) && (forall|i: int|
            0 <= i < listed(t.env).len() ==> !(#[trigger] listed(t.env)[i]).1.contains('$'))
            ==> !fails_with(env.manifest@, env.root@, os, t, host, e),
{
    let root = env.root@;
    law_plain_values_never_fail(templates(env.manifest@, os), t.args, root, host, e);
    law_plain_values_never_fail(listed(t.env), t.args, root, host, e);
    match r {
        Ok(s) => {
            law_plain_values_resolve_if(t.run, root, host, Ok(s.value@));
        },
        Err(x) => {
            law_plain_values_resolve_if(t.run, root, host, Err(x@));
        },
    }
}

/// What cannot be run is told by its name, with the env; where it is no tool, the
/// tools that there are.
pub proof fn law_run_errors_are_told(cmd: Seq<char>, env: Seq<char>, m: ManifestModel, p: String)
    ensures
        run_error_text(RunError::NotRunnable, cmd, env, m) == "'"@ + cmd
            + "' is not a declared tool of env '"@ + env
            + "' and was not found on PATH; declared tools: "@ + tools_listed(m),
        run_error_text(RunError::Unknown, cmd, env, m) == "'"@ + cmd
            + "' is not a declared tool or a program on the PATH of env '"@ + env + "'"@,
        run_error_text(RunError::NoProgramAt(p), cmd, env, m) == "tool program not found: "@ + p@,
        run_error_text(RunError::NoProgram(p), cmd, env, m) == "could not find tool program '"@ + p@
            + "' in env '"@ + m.name + "' or PATH"@,
{
}

/// What cannot be done with a service is told with the tool and the env, and of one
/// that runs already with its process.
pub proof fn law_service_errors_are_told(tool: Seq<char>, env: Seq<char>, pid: u32)
    ensures
        service_error_text(ServiceError::NotDeclared, tool, env) == "no tool '"@ + tool
            + "' declared in env '"@ + env + "'; declare one with `config add-tool`"@,
        service_error_text(ServiceError::AlreadyRunning { pid }, tool, env) == "service '"@ + tool
            + "' is already running in '"@ + env + "' (pid "@ + digits(pid as nat) + ")"@,
        service_error_text(ServiceError::NotRunning, tool, env) == "service '"@ + tool
            + "' is not running in '"@ + env + "'"@,
        service_error_text(ServiceError::NoLog, tool, env) == "no logs for service '"@ + tool
            + "' in '"@ + env + "' (never started?)"@,
{
}

} // verus!
