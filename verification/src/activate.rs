//! The shell snippets that activate and deactivate an env, and what an env
//! contributes to the environment of a process.

use crate::activation_vars::{
    law_plain_values_resolve, resolve, resolves_to, EvalError, EvalErrorModel,
};
use crate::env::Env;
use crate::manifest::{Manifest, ManifestModel};
use crate::paths::{os_subdir, os_word, Os};
use crate::strmap::{law_listing_is_complete, listable, listed, StrMap};
use crate::text::{
    among, chars_of, has_char, join, joined, law_split_joins_again, occurs_at, occurs_in, split,
    split_on, texts,
};
use vstd::prelude::*;

verus! {

/// A shell that snippets are written for.
#[derive(Debug, Clone, Copy, PartialEq, Eq, Structural)]
pub enum Shell {
    Posix,
    PowerShell,
}

impl Shell {
    /// PowerShell on Windows where its module path is set, else POSIX.
    pub fn detect(ps_modules: bool, os: Os) -> (r: Shell)
        ensures
            r == (if ps_modules && os == Os::Windows {
                Shell::PowerShell
            } else {
                Shell::Posix
            }),
    {
        if ps_modules && os == Os::Windows {
            Shell::PowerShell
        } else {
            Shell::Posix
        }
    }
}

/// The paths that an activation block prepends, none where there is no block.
pub open spec fn prepended(m: ManifestModel, key: Seq<char>) -> Seq<Seq<char>> {
    if m.activation.contains_key(key) {
        m.activation[key].path_prepend
    } else {
        Seq::empty()
    }
}

/// What an env adds to PATH, below its root, in order: the binaries for the
/// OS, then what the block of the OS prepends, then what the block for all
/// prepends.
pub open spec fn contributed(m: ManifestModel, os: Os) -> Seq<Seq<char>> {
    seq![os_word(os) + "/bin"@] + prepended(m, os_word(os)) + prepended(m, "all"@)
}

/// `parts` below `prefix`.
pub open spec fn rooted(prefix: Seq<char>, parts: Seq<Seq<char>>) -> Seq<Seq<char>> {
    Seq::new(parts.len(), |i: int| prefix + "/"@ + parts[i])
}

fn extend(out: &mut Vec<String>, more: &Vec<String>)
    ensures
        texts(final(out)@) == texts(old(out)@) + texts(more@),
{
    let mut i: usize = 0;
    let ghost start = texts(out@);
    assert(start + texts(more@).take(0) =~= start);
    while i < more.len()
        invariant
            i <= more.len(),
            texts(out@) == start + texts(more@).take(i as int),
        decreases more.len() - i,
    {
        let ghost before = texts(out@);
        out.push(more[i].clone());
        assert(texts(out@) =~= before.push(more@[i as int]@));
        assert(start + texts(more@).take(i + 1) =~= before.push(more@[i as int]@));
        i = i + 1;
    }
    assert(texts(more@).take(more@.len() as int) =~= texts(more@));
}

fn add_prepended(out: &mut Vec<String>, m: &Manifest, key: &str)
    ensures
        texts(final(out)@) == texts(old(out)@) + prepended(m@, key@),
{
    match m.activation.get(key) {
        Some(b) => {
            extend(out, &b.path_prepend);
        },
        None => {
            assert(texts(out@) + Seq::<Seq<char>>::empty() =~= texts(out@));
        },
    }
}

/// What an env adds to PATH, below its root.
pub fn path_adds(manifest: &Manifest, os: Os) -> (r: Vec<String>)
    ensures
        texts(r@) == contributed(manifest@, os),
        forall|i: int|
            #![trigger texts(r@)[1 + i]]
            manifest@.activation.contains_key(os_word(os)) && 0 <= i
                < manifest@.activation[os_word(os)].path_prepend.len() ==> texts(r@)[1 + i]
                == manifest@.activation[os_word(os)].path_prepend[i],
        manifest@.activation.contains_key("all"@)
            ==> manifest@.activation["all"@].path_prepend.is_suffix_of(texts(r@)),
{
    let mut first = os_subdir(os).to_owned();
    first.push_str("/bin");
    let mut r: Vec<String> = Vec::new();
    r.push(first);
    assert(texts(r@) =~= seq![os_word(os) + "/bin"@]);
    add_prepended(&mut r, manifest, os_subdir(os));
    add_prepended(&mut r, manifest, "all");
    proof {
        let all = texts(r@);
        if manifest@.activation.contains_key("all"@) {
            let tail = manifest@.activation["all"@].path_prepend;
            assert(tail =~= all.subrange(all.len() - tail.len(), all.len() as int));
        }
    }
    r
}

/// `parts` below `prefix`.
fn below(prefix: &str, parts: &Vec<String>) -> (r: Vec<String>)
    ensures
        texts(r@) == rooted(prefix@, texts(parts@)),
{
    let mut r: Vec<String> = Vec::new();
    let mut i: usize = 0;
    let ghost all = rooted(prefix@, texts(parts@));
    while i < parts.len()
        invariant
            i <= parts.len(),
            all == rooted(prefix@, texts(parts@)),
            texts(r@) == all.take(i as int),
        decreases parts.len() - i,
    {
        let mut p = prefix.to_owned();
        p.push_str("/");
        p.push_str(parts[i].as_str());
        let ghost before = texts(r@);
        r.push(p);
        assert(texts(r@) =~= before.push(p@));
        assert(all.take(i + 1) =~= all.take(i as int).push(all[i as int]));
        i = i + 1;
    }
    assert(all.take(all.len() as int) =~= all);
    r
}

/// The variables of an activation block, in order, none where there is none.
pub open spec fn block_vars(m: ManifestModel, key: Seq<char>) -> Seq<(Seq<char>, Seq<char>)> {
    if m.activation.contains_key(key) {
        listed(m.activation[key].env)
    } else {
        Seq::empty()
    }
}

/// The variables that an env sets, in the order in which it sets them: those
/// of the block for all, then those of the block of the OS, which override.
pub open spec fn templates(m: ManifestModel, os: Os) -> Seq<(Seq<char>, Seq<char>)> {
    block_vars(m, "all"@) + block_vars(m, os_word(os))
}

/// The pairs of a list.
pub open spec fn pair_texts(v: Seq<(String, String)>) -> Seq<(Seq<char>, Seq<char>)> {
    Seq::new(v.len(), |i: int| (v[i].0@, v[i].1@))
}

/// `vals` are values that the first of `ts` can resolve to, each under its
/// variable.
pub open spec fn assigned(
    ts: Seq<(Seq<char>, Seq<char>)>,
    root: Seq<char>,
    host: Map<Seq<char>, Seq<char>>,
    vals: Seq<(Seq<char>, Seq<char>)>,
) -> bool {
    &&& vals.len() <= ts.len()
    &&& forall|i: int|
        0 <= i < vals.len() ==> (#[trigger] vals[i]).0 == ts[i].0 && resolves_to(
            ts[i].1,
            root,
            host,
            Ok(vals[i].1),
        )
}

/// `r` is what resolving all of `ts` can give: all their values, or the error
/// of the first that has one.
pub open spec fn assigns(
    ts: Seq<(Seq<char>, Seq<char>)>,
    root: Seq<char>,
    host: Map<Seq<char>, Seq<char>>,
    r: Result<Seq<(Seq<char>, Seq<char>)>, EvalErrorModel>,
) -> bool {
    match r {
        Ok(vals) => vals.len() == ts.len() && assigned(ts, root, host, vals),
        Err(e) => exists|vals: Seq<(Seq<char>, Seq<char>)>|
            vals.len() < ts.len() && #[trigger] assigned(ts, root, host, vals) && resolves_to(
                ts[vals.len() as int].1,
                root,
                host,
                Err(e),
            ),
    }
}

/// The pairs in a result.
pub open spec fn pairs_in(r: Result<Vec<(String, String)>, EvalError>) -> Result<
    Seq<(Seq<char>, Seq<char>)>,
    EvalErrorModel,
> {
    match r {
        Ok(v) => Ok(pair_texts(v@)),
        Err(e) => Err(e@),
    }
}

/// Resolve the variables of one block after those in `out`.
fn assign_block(
    out: &mut Vec<(String, String)>,
    vars: &StrMap<String>,
    root: &str,
    host: &StrMap<String>,
    Ghost(ts): Ghost<Seq<(Seq<char>, Seq<char>)>>,
) -> (r: Result<(), EvalError>)
    requires
        assigned(ts, root@, host@, pair_texts(old(out)@)),
        old(out)@.len() + listed(vars@).len() <= ts.len(),
        forall|i: int|
            0 <= i < listed(vars@).len() ==> ts[old(out)@.len() + i] == #[trigger] listed(vars@)[i],
    ensures
        match r {
            Ok(()) => assigned(ts, root@, host@, pair_texts(final(out)@)) && final(out)@.len()
                == old(out)@.len() + listed(vars@).len(),
            Err(e) => assigns(ts, root@, host@, Err(e@)),
        },
{
    let n = vars.len();
    let start = out.len();
    let mut i: usize = 0;
    while i < n
        invariant
            i <= n,
            n == listed(vars@).len(),
            start + n <= ts.len(),
            out@.len() == start + i,
            assigned(ts, root@, host@, pair_texts(out@)),
            forall|i: int|
                0 <= i < listed(vars@).len() ==> ts[start + i] == #[trigger] listed(vars@)[i],
        decreases n - i,
    {
        let (k, v) = vars.at(i);
        let ghost before = pair_texts(out@);
        assert(ts[start + i] == listed(vars@)[i as int]);
        match resolve(v.as_str(), root, host) {
            Err(e) => {
                assert(assigned(ts, root@, host@, before));
                return Err(e);
            },
            Ok(x) => {
                out.push((k.clone(), x));
                proof {
                    let now = pair_texts(out@);
                    assert(now =~= before.push((k@, x@)));
                    assert forall|j: int| 0 <= j < now.len() implies (#[trigger] now[j]).0
                        == ts[j].0 && resolves_to(ts[j].1, root@, host@, Ok(now[j].1)) by {
                        if j < before.len() {
                            assert(now[j] == before[j]);
                        }
                    }
                }
            },
        }
        i = i + 1;
    }
    Ok(())
}

/// The variables that an env sets, with their values.
pub fn assignments(manifest: &Manifest, os: Os, root: &str, host: &StrMap<String>) -> (r: Result<
    Vec<(String, String)>,
    EvalError,
>)
    ensures
        assigns(templates(manifest@, os), root@, host@, pairs_in(r)),
{
    let mut out: Vec<(String, String)> = Vec::new();
    let ghost ts = templates(manifest@, os);
    let ghost a = block_vars(manifest@, "all"@);
    let ghost b = block_vars(manifest@, os_word(os));
    assert(assigned(ts, root@, host@, pair_texts(out@)));
    if let Some(block) = manifest.activation.get("all") {
        assert forall|i: int| 0 <= i < listed(block.env@).len() implies ts[out@.len() + i]
            == #[trigger] listed(block.env@)[i] by {
            assert(ts[i] == a[i]);
        }
        if let Err(e) = assign_block(&mut out, &block.env, root, host, Ghost(ts)) {
            return Err(e);
        }
    }
    assert(out@.len() == a.len());
    if let Some(block) = manifest.activation.get(os_subdir(os)) {
        assert forall|i: int| 0 <= i < listed(block.env@).len() implies ts[out@.len() + i]
            == #[trigger] listed(block.env@)[i] by {
            assert(ts[a.len() + i] == b[i]);
        }
        if let Err(e) = assign_block(&mut out, &block.env, root, host, Ghost(ts)) {
            return Err(e);
        }
    }
    Ok(out)
}

/// The variables of a tool, with their values.
pub fn resolve_env(vars: &StrMap<String>, root: &str, host: &StrMap<String>) -> (r: Result<
    Vec<(String, String)>,
    EvalError,
>)
    ensures
        assigns(listed(vars@), root@, host@, pairs_in(r)),
{
    let mut out: Vec<(String, String)> = Vec::new();
    match assign_block(&mut out, vars, root, host, Ghost(listed(vars@))) {
        Err(e) => Err(e),
        Ok(()) => Ok(out),
    }
}

/// `r` is what resolving all of `values` can give: their values, or the error
/// of the first that has one.
pub open spec fn resolves_all(
    values: Seq<Seq<char>>,
    root: Seq<char>,
    host: Map<Seq<char>, Seq<char>>,
    r: Result<Seq<Seq<char>>, EvalErrorModel>,
) -> bool {
    match r {
        Ok(xs) => xs.len() == values.len() && forall|i: int|
            0 <= i < xs.len() ==> resolves_to(values[i], root, host, Ok(#[trigger] xs[i])),
        Err(e) => exists|n: int|
            0 <= n < values.len() && resolves_to(#[trigger] values[n], root, host, Err(e)) && (
            forall|i: int| 0 <= i < n ==> resolvable(#[trigger] values[i], root, host)),
    }
}

/// The value can be resolved.
pub open spec fn resolvable(
    value: Seq<char>,
    root: Seq<char>,
    host: Map<Seq<char>, Seq<char>>,
) -> bool {
    exists|x: Seq<char>| resolves_to(value, root, host, Ok(x))
}

/// The arguments of a tool, with their values.
pub fn resolve_args(values: &Vec<String>, root: &str, host: &StrMap<String>) -> (r: Result<
    Vec<String>,
    EvalError,
>)
    ensures
        resolves_all(
            texts(values@),
            root@,
            host@,
            match r {
                Ok(v) => Ok(texts(v@)),
                Err(e) => Err(e@),
            },
        ),
{
    let ghost all = texts(values@);
    let mut out: Vec<String> = Vec::new();
    let mut i: usize = 0;
    while i < values.len()
        invariant
            i <= values.len(),
            all == texts(values@),
            out@.len() == i,
            forall|j: int| 0 <= j < i ==> resolves_to(all[j], root@, host@, Ok(#[trigger] out@[j]@)),
        decreases values.len() - i,
    {
        match resolve(values[i].as_str(), root, host) {
            Err(e) => {
                proof {
                    assert(resolves_to(all[i as int], root@, host@, Err(e@)));
                    assert forall|j: int| 0 <= j < i implies resolvable(
                        #[trigger] all[j],
                        root@,
                        host@,
                    ) by {
                        assert(resolves_to(all[j], root@, host@, Ok(out@[j]@)));
                    }
                }
                return Err(e);
            },
            Ok(x) => {
                out.push(x);
            },
        }
        i = i + 1;
    }
    Ok(out)
}

/// One line that sets a variable.
pub open spec fn export_line(shell: Shell, k: Seq<char>, v: Seq<char>) -> Seq<char> {
    match shell {
        Shell::Posix => "export "@ + k + "=\""@ + v + "\"\n"@,
        Shell::PowerShell => "$env:"@ + k + " = \""@ + v + "\"\n"@,
    }
}

/// The lines that set the variables, in order.
pub open spec fn export_lines(shell: Shell, vals: Seq<(Seq<char>, Seq<char>)>) -> Seq<char>
    decreases vals.len(),
{
    if vals.len() == 0 {
        Seq::empty()
    } else {
        export_lines(shell, vals.drop_last()) + export_line(shell, vals.last().0, vals.last().1)
    }
}

/// The line that keeps the old PATH.
pub open spec fn stash_line(shell: Shell) -> Seq<char> {
    match shell {
        Shell::Posix => "export _TOOLBOX_OLD_PATH=\"$PATH\"\n"@,
        Shell::PowerShell => "$env:_TOOLBOX_OLD_PATH = $env:PATH\n"@,
    }
}

/// The line that prepends to PATH.
pub open spec fn path_line(shell: Shell, adds: Seq<Seq<char>>) -> Seq<char> {
    match shell {
        Shell::Posix => "export PATH=\""@ + joined(adds, ":"@) + ":$PATH\"\n"@,
        Shell::PowerShell => "$env:PATH = \""@ + joined(adds, ";"@) + ";$env:PATH\"\n"@,
    }
}

/// The variables that are set, each once, in the order in which they first
/// come.
pub open spec fn var_names(vals: Seq<(Seq<char>, Seq<char>)>) -> Seq<Seq<char>>
    decreases vals.len(),
{
    if vals.len() == 0 {
        Seq::empty()
    } else {
        let done = var_names(vals.drop_last());
        if done.contains(vals.last().0) {
            done
        } else {
            done.push(vals.last().0)
        }
    }
}

/// The line that keeps which variables the env sets.
pub open spec fn names_line(shell: Shell, names: Seq<Seq<char>>) -> Seq<char> {
    match shell {
        Shell::Posix => "export _TOOLBOX_STASH_VARS=\""@ + joined(names, " "@) + "\"\n"@,
        Shell::PowerShell => "$env:_TOOLBOX_STASH_VARS = \""@ + joined(names, " "@) + "\"\n"@,
    }
}

/// The line that keeps the value of a variable, or that it had none.
pub open spec fn keep_line(shell: Shell, k: Seq<char>) -> Seq<char> {
    match shell {
        Shell::Posix => "if [ -n \"${"@ + k + "+x}\" ]; then export _TOOLBOX_STASH_"@ + k + "=\"$"@
            + k + "\"; else unset _TOOLBOX_STASH_"@ + k + "; fi\n"@,
        Shell::PowerShell => "if (Test-Path Env:"@ + k + ") { $env:_TOOLBOX_STASH_"@ + k
            + " = $env:"@ + k + " } else { Remove-Item Env:_TOOLBOX_STASH_"@ + k
            + " -ErrorAction SilentlyContinue }\n"@,
    }
}

/// The lines that keep the values of the variables, in order.
pub open spec fn keep_lines(shell: Shell, names: Seq<Seq<char>>) -> Seq<char>
    decreases names.len(),
{
    if names.len() == 0 {
        Seq::empty()
    } else {
        keep_lines(shell, names.drop_last()) + keep_line(shell, names.last())
    }
}

/// The snippet that activates an env: the old PATH and the old value of every
/// variable that the env sets are kept, the env's directories come first on the
/// new PATH, the env's prefix and name are exported, and then its variables.
pub open spec fn activation_script(
    shell: Shell,
    name: Seq<char>,
    prefix: Seq<char>,
    adds: Seq<Seq<char>>,
    vals: Seq<(Seq<char>, Seq<char>)>,
) -> Seq<char> {
    stash_line(shell) + names_line(shell, var_names(vals)) + keep_lines(shell, var_names(vals))
        + path_line(shell, adds) + export_line(shell, "TOOLBOX_PREFIX"@, prefix) + export_line(
        shell,
        "TOOLBOX_ACTIVE_ENV"@,
        name,
    ) + export_lines(shell, vals)
}

/// The variables that are set, each once.
fn names_of(vals: &Vec<(String, String)>) -> (r: Vec<String>)
    ensures
        texts(r@) == var_names(pair_texts(vals@)),
{
    let ghost all = pair_texts(vals@);
    let mut r: Vec<String> = Vec::new();
    let mut i: usize = 0;
    assert(texts(r@) =~= Seq::<Seq<char>>::empty());
    while i < vals.len()
        invariant
            i <= vals.len(),
            all == pair_texts(vals@),
            texts(r@) == var_names(all.take(i as int)),
        decreases vals.len() - i,
    {
        proof {
            assert(all.take(i + 1).drop_last() =~= all.take(i as int));
            assert(all.take(i + 1).last() == all[i as int]);
        }
        if !among(&r, vals[i].0.as_str()) {
            let ghost before = texts(r@);
            r.push(vals[i].0.clone());
            assert(texts(r@) =~= before.push(vals@[i as int].0@));
        }
        i = i + 1;
    }
    assert(all.take(all.len() as int) =~= all);
    r
}

fn write_names(shell: Shell, names: &Vec<String>) -> (r: String)
    ensures
        r@ == names_line(shell, texts(names@)),
{
    let mut r = match shell {
        Shell::Posix => "export _TOOLBOX_STASH_VARS=\"".to_owned(),
        Shell::PowerShell => "$env:_TOOLBOX_STASH_VARS = \"".to_owned(),
    };
    r.push_str(join(names, " ").as_str());
    r.push_str("\"\n");
    r
}

fn write_keep(shell: Shell, k: &str) -> (r: String)
    ensures
        r@ == keep_line(shell, k@),
{
    match shell {
        Shell::Posix => {
            let mut r = "if [ -n \"${".to_owned();
            r.push_str(k);
            r.push_str("+x}\" ]; then export _TOOLBOX_STASH_");
            r.push_str(k);
            r.push_str("=\"$");
            r.push_str(k);
            r.push_str("\"; else unset _TOOLBOX_STASH_");
            r.push_str(k);
            r.push_str("; fi\n");
            r
        },
        Shell::PowerShell => {
            let mut r = "if (Test-Path Env:".to_owned();
            r.push_str(k);
            r.push_str(") { $env:_TOOLBOX_STASH_");
            r.push_str(k);
            r.push_str(" = $env:");
            r.push_str(k);
            r.push_str(" } else { Remove-Item Env:_TOOLBOX_STASH_");
            r.push_str(k);
            r.push_str(" -ErrorAction SilentlyContinue }\n");
            r
        },
    }
}

fn write_keeps(shell: Shell, names: &Vec<String>) -> (r: String)
    ensures
        r@ == keep_lines(shell, texts(names@)),
{
    let ghost all = texts(names@);
    let mut r = String::new();
    let mut i: usize = 0;
    assert(r@ =~= Seq::<char>::empty());
    while i < names.len()
        invariant
            i <= names.len(),
            all == texts(names@),
            r@ == keep_lines(shell, all.take(i as int)),
        decreases names.len() - i,
    {
        let line = write_keep(shell, names[i].as_str());
        r.push_str(line.as_str());
        proof {
            assert(all.take(i + 1).drop_last() =~= all.take(i as int));
            assert(all.take(i + 1).last() == all[i as int]);
        }
        i = i + 1;
    }
    assert(all.take(all.len() as int) =~= all);
    r
}

fn write_export(shell: Shell, k: &str, v: &str) -> (r: String)
    ensures
        r@ == export_line(shell, k@, v@),
{
    match shell {
        Shell::Posix => {
            let mut r = "export ".to_owned();
            r.push_str(k);
            r.push_str("=\"");
            r.push_str(v);
            r.push_str("\"\n");
            r
        },
        Shell::PowerShell => {
            let mut r = "$env:".to_owned();
            r.push_str(k);
            r.push_str(" = \"");
            r.push_str(v);
            r.push_str("\"\n");
            r
        },
    }
}

fn write_path(shell: Shell, adds: &Vec<String>) -> (r: String)
    ensures
        r@ == path_line(shell, texts(adds@)),
{
    match shell {
        Shell::Posix => {
            let mut r = "export PATH=\"".to_owned();
            r.push_str(join(adds, ":").as_str());
            r.push_str(":$PATH\"\n");
            r
        },
        Shell::PowerShell => {
            let mut r = "$env:PATH = \"".to_owned();
            r.push_str(join(adds, ";").as_str());
            r.push_str(";$env:PATH\"\n");
            r
        },
    }
}

/// The snippet that activates an env, from the values of its variables.
pub fn render_script(
    shell: Shell,
    name: &str,
    prefix: &str,
    adds: &Vec<String>,
    vals: &Vec<(String, String)>,
) -> (r: String)
    ensures
        r@ == activation_script(shell, name@, prefix@, texts(adds@), pair_texts(vals@)),
{
    let mut r = match shell {
        Shell::Posix => "export _TOOLBOX_OLD_PATH=\"$PATH\"\n".to_owned(),
        Shell::PowerShell => "$env:_TOOLBOX_OLD_PATH = $env:PATH\n".to_owned(),
    };
    let names = names_of(vals);
    r.push_str(write_names(shell, &names).as_str());
    r.push_str(write_keeps(shell, &names).as_str());
    r.push_str(write_path(shell, adds).as_str());
    r.push_str(write_export(shell, "TOOLBOX_PREFIX", prefix).as_str());
    r.push_str(write_export(shell, "TOOLBOX_ACTIVE_ENV", name).as_str());
    let ghost head = r@;
    let ghost all = pair_texts(vals@);
    let mut i: usize = 0;
    assert(head + export_lines(shell, all.take(0)) =~= head);
    while i < vals.len()
        invariant
            i <= vals.len(),
            all == pair_texts(vals@),
            r@ == head + export_lines(shell, all.take(i as int)),
        decreases vals.len() - i,
    {
        let line = write_export(shell, vals[i].0.as_str(), vals[i].1.as_str());
        r.push_str(line.as_str());
        proof {
            assert(all.take(i + 1).drop_last() =~= all.take(i as int));
            assert(all.take(i + 1).last() == all[i as int]);
            assert(head + (export_lines(shell, all.take(i as int)) + line@) =~= head + export_lines(
                shell,
                all.take(i as int),
            ) + line@);
        }
        i = i + 1;
    }
    assert(all.take(all.len() as int) =~= all);
    r
}

/// The snippet that activates an env.
pub fn render_activate(env: &Env, shell: Shell, os: Os, host: &StrMap<String>) -> (r: Result<
    String,
    EvalError,
>)
    ensures
        match r {
            Ok(s) => exists|vals: Seq<(Seq<char>, Seq<char>)>| #[trigger]
                assigns(templates(env.manifest@, os), env.root@, host@, Ok(vals)) && s@
                    == activation_script(
                    shell,
                    env.manifest@.name,
                    env.root@,
                    rooted(env.root@, contributed(env.manifest@, os)),
                    vals,
                ),
            Err(e) => assigns(templates(env.manifest@, os), env.root@, host@, Err(e@)),
        },
{
    let adds = below(env.root.as_str(), &path_adds(&env.manifest, os));
    match assignments(&env.manifest, os, env.root.as_str(), host) {
        Err(e) => Err(e),
        Ok(vals) => {
            assert(assigns(
                templates(env.manifest@, os),
                env.root@,
                host@,
                Ok::<_, EvalErrorModel>(pair_texts(vals@)),
            ));
            Ok(render_script(shell, env.manifest.name.as_str(), env.root.as_str(), &adds, &vals))
        },
    }
}

/// The snippet that deactivates an env in a POSIX shell: PATH, and each variable
/// that the env set, is again what was kept of it.
pub const POSIX_DEACTIVATE: &'static str = "if [ -n \"$_TOOLBOX_OLD_PATH\" ]; then\n  export PATH=\"$_TOOLBOX_OLD_PATH\"\n  unset _TOOLBOX_OLD_PATH\nfi\nfor _toolbox_var in $(echo \"$_TOOLBOX_STASH_VARS\"); do\n  eval \"if [ -n \\\"\\${_TOOLBOX_STASH_$_toolbox_var+x}\\\" ]; then export $_toolbox_var=\\\"\\$_TOOLBOX_STASH_$_toolbox_var\\\"; else unset $_toolbox_var; fi\"\n  unset \"_TOOLBOX_STASH_$_toolbox_var\"\ndone\nunset _toolbox_var\nunset _TOOLBOX_STASH_VARS\nunset TOOLBOX_PREFIX\nunset TOOLBOX_ACTIVE_ENV\n";

/// The snippet that deactivates an env in PowerShell.
pub const POWERSHELL_DEACTIVATE: &'static str = "if ($env:_TOOLBOX_OLD_PATH) {\n  $env:PATH = $env:_TOOLBOX_OLD_PATH\n  Remove-Item Env:_TOOLBOX_OLD_PATH\n}\nforeach ($toolboxVar in (\"$env:_TOOLBOX_STASH_VARS\" -split ' ')) {\n  if ($toolboxVar) {\n    if (Test-Path \"Env:_TOOLBOX_STASH_$toolboxVar\") {\n      Set-Item \"Env:$toolboxVar\" (Get-Item \"Env:_TOOLBOX_STASH_$toolboxVar\").Value\n      Remove-Item \"Env:_TOOLBOX_STASH_$toolboxVar\"\n    } else {\n      Remove-Item \"Env:$toolboxVar\" -ErrorAction SilentlyContinue\n    }\n  }\n}\nRemove-Item Env:_TOOLBOX_STASH_VARS -ErrorAction SilentlyContinue\nRemove-Item Env:TOOLBOX_PREFIX -ErrorAction SilentlyContinue\nRemove-Item Env:TOOLBOX_ACTIVE_ENV -ErrorAction SilentlyContinue\n";

/// The snippet that deactivates an env.
pub fn render_deactivate(shell: Shell) -> (r: String)
    ensures
        r@ == (match shell {
            Shell::Posix => POSIX_DEACTIVATE@,
            Shell::PowerShell => POWERSHELL_DEACTIVATE@,
        }),
        shell == Shell::Posix ==> r@
            == "if [ -n \"$_TOOLBOX_OLD_PATH\" ]; then\n  export PATH=\"$_TOOLBOX_OLD_PATH\"\n  unset _TOOLBOX_OLD_PATH\nfi\nfor _toolbox_var in $(echo \"$_TOOLBOX_STASH_VARS\"); do\n  eval \"if [ -n \\\"\\${_TOOLBOX_STASH_$_toolbox_var+x}\\\" ]; then export $_toolbox_var=\\\"\\$_TOOLBOX_STASH_$_toolbox_var\\\"; else unset $_toolbox_var; fi\"\n  unset \"_TOOLBOX_STASH_$_toolbox_var\"\ndone\nunset _toolbox_var\nunset _TOOLBOX_STASH_VARS\nunset TOOLBOX_PREFIX\nunset TOOLBOX_ACTIVE_ENV\n"@,
        shell == Shell::PowerShell ==> r@
            == "if ($env:_TOOLBOX_OLD_PATH) {\n  $env:PATH = $env:_TOOLBOX_OLD_PATH\n  Remove-Item Env:_TOOLBOX_OLD_PATH\n}\nforeach ($toolboxVar in (\"$env:_TOOLBOX_STASH_VARS\" -split ' ')) {\n  if ($toolboxVar) {\n    if (Test-Path \"Env:_TOOLBOX_STASH_$toolboxVar\") {\n      Set-Item \"Env:$toolboxVar\" (Get-Item \"Env:_TOOLBOX_STASH_$toolboxVar\").Value\n      Remove-Item \"Env:_TOOLBOX_STASH_$toolboxVar\"\n    } else {\n      Remove-Item \"Env:$toolboxVar\" -ErrorAction SilentlyContinue\n    }\n  }\n}\nRemove-Item Env:_TOOLBOX_STASH_VARS -ErrorAction SilentlyContinue\nRemove-Item Env:TOOLBOX_PREFIX -ErrorAction SilentlyContinue\nRemove-Item Env:TOOLBOX_ACTIVE_ENV -ErrorAction SilentlyContinue\n"@,
{
    match shell {
        Shell::Posix => POSIX_DEACTIVATE.to_owned(),
        Shell::PowerShell => POWERSHELL_DEACTIVATE.to_owned(),
    }
}

/// The variable in which the old value of `k` is kept.
pub open spec fn stash_name(k: Seq<char>) -> Seq<char> {
    "_TOOLBOX_STASH_"@ + k
}

/// The variables of a shell after the lines that keep those in `names`.
pub open spec fn stashed(
    vars: Map<Seq<char>, Seq<char>>,
    names: Seq<Seq<char>>,
) -> Map<Seq<char>, Seq<char>>
    decreases names.len(),
{
    if names.len() == 0 {
        vars
    } else {
        let done = stashed(vars, names.drop_last());
        if done.contains_key(names.last()) {
            done.insert(stash_name(names.last()), done[names.last()])
        } else {
            done.remove(stash_name(names.last()))
        }
    }
}

/// The variables of a shell after the lines that bring back those in `names`.
pub open spec fn brought_back(
    vars: Map<Seq<char>, Seq<char>>,
    names: Seq<Seq<char>>,
) -> Map<Seq<char>, Seq<char>>
    decreases names.len(),
{
    if names.len() == 0 {
        vars
    } else {
        let done = brought_back(vars, names.drop_last());
        let k = names.last();
        if done.contains_key(stash_name(k)) {
            done.insert(k, done[stash_name(k)]).remove(stash_name(k))
        } else {
            done.remove(k)
        }
    }
}

/// The names are different, and none is that of a kept value.
pub open spec fn stashable(names: Seq<Seq<char>>) -> bool {
    &&& names.no_duplicates()
    &&& forall|i: int, j: int|
        0 <= i < names.len() && 0 <= j < names.len() ==> #[trigger] names[i] != stash_name(
            #[trigger] names[j],
        )
}

proof fn lemma_stash_names(a: Seq<char>, b: Seq<char>)
    ensures
        stash_name(a) == stash_name(b) ==> a == b,
{
    if stash_name(a) == stash_name(b) {
        let n = "_TOOLBOX_STASH_"@.len() as int;
        assert(stash_name(a).skip(n) =~= a);
        assert(stash_name(b).skip(n) =~= b);
    }
}

proof fn lemma_stashed(vars: Map<Seq<char>, Seq<char>>, names: Seq<Seq<char>>, k: Seq<char>)
    requires
        stashable(names),
    ensures
        (forall|j: int| 0 <= j < names.len() ==> k != stash_name(#[trigger] names[j])) ==> stashed(
            vars,
            names,
        ).contains_key(k) == vars.contains_key(k) && stashed(vars, names)[k] == vars[k],
        names.contains(k) ==> stashed(vars, names).contains_key(stash_name(k))
            == vars.contains_key(k) && (vars.contains_key(k) ==> stashed(vars, names)[stash_name(k)]
            == vars[k]),
    decreases names.len(),
{
    if names.len() > 0 {
        let rest = names.drop_last();
        let last = names.last();
        assert(last == names[names.len() - 1]);
        assert forall|i: int, j: int| 0 <= i < rest.len() && 0 <= j < rest.len() implies
            #[trigger] rest[i] != stash_name(#[trigger] rest[j]) by {
            assert(rest[i] == names[i] && rest[j] == names[j]);
        }
        lemma_stashed(vars, rest, k);
        lemma_stashed(vars, rest, last);
        assert forall|j: int| 0 <= j < rest.len() implies last != stash_name(#[trigger] rest[j]) by {
            assert(rest[j] == names[j]);
        }
        if forall|j: int| 0 <= j < names.len() ==> k != stash_name(#[trigger] names[j]) {
            assert forall|j: int| 0 <= j < rest.len() implies k != stash_name(#[trigger] rest[j]) by {
                assert(rest[j] == names[j]);
            }
        }
        if names.contains(k) && k != last {
            let i = choose|i: int| 0 <= i < names.len() && names[i] == k;
            assert(rest[i] == k);
            lemma_stash_names(k, last);
        }
    }
}

proof fn lemma_brought_back(vars: Map<Seq<char>, Seq<char>>, names: Seq<Seq<char>>, k: Seq<char>)
    requires
        stashable(names),
    ensures
        names.contains(k) ==> brought_back(vars, names).contains_key(k) == vars.contains_key(
            stash_name(k),
        ) && (vars.contains_key(stash_name(k)) ==> brought_back(vars, names)[k]
            == vars[stash_name(k)]),
        !names.contains(k) && (forall|j: int|
            0 <= j < names.len() ==> k != stash_name(#[trigger] names[j])) ==> brought_back(
            vars,
            names,
        ).contains_key(k) == vars.contains_key(k) && brought_back(vars, names)[k] == vars[k],
        forall|m: Seq<char>|
            !names.contains(m) && (forall|j: int|
                0 <= j < names.len() ==> #[trigger] names[j] != stash_name(m)) ==> brought_back(
                vars,
                names,
            ).contains_key(#[trigger] stash_name(m)) == vars.contains_key(stash_name(m))
                && brought_back(vars, names)[stash_name(m)] == vars[stash_name(m)],
    decreases names.len(),
{
    if names.len() > 0 {
        let rest = names.drop_last();
        let last = names.last();
        assert(last == names[names.len() - 1]);
        assert forall|i: int, j: int| 0 <= i < rest.len() && 0 <= j < rest.len() implies
            #[trigger] rest[i] != stash_name(#[trigger] rest[j]) by {
            assert(rest[i] == names[i] && rest[j] == names[j]);
        }
        lemma_brought_back(vars, rest, k);
        assert(!rest.contains(last)) by {
            if rest.contains(last) {
                let i = choose|i: int| 0 <= i < rest.len() && rest[i] == last;
                assert(names[i] == last);
            }
        }
        assert forall|j: int| 0 <= j < rest.len() implies #[trigger] rest[j] != stash_name(last) by {
            assert(rest[j] == names[j]);
        }
        let done = brought_back(vars, rest);
        assert(done.contains_key(stash_name(last)) == vars.contains_key(stash_name(last))
            && done[stash_name(last)] == vars[stash_name(last)]);
        if names.contains(k) && k != last {
            let i = choose|i: int| 0 <= i < names.len() && names[i] == k;
            assert(rest[i] == k);
            assert(names[i] != stash_name(names[names.len() - 1]));
        }
        if rest.contains(k) {
            let i = choose|i: int| 0 <= i < rest.len() && rest[i] == k;
            assert(names[i] == k);
        }
        if forall|j: int| 0 <= j < names.len() ==> k != stash_name(#[trigger] names[j]) {
            assert forall|j: int| 0 <= j < rest.len() implies k != stash_name(#[trigger] rest[j]) by {
                assert(rest[j] == names[j]);
            }
            assert(k != stash_name(names[names.len() - 1]));
        }
        assert forall|m: Seq<char>|
            !names.contains(m) && (forall|j: int|
                0 <= j < names.len() ==> #[trigger] names[j] != stash_name(m)) implies brought_back(
            vars,
            names,
        ).contains_key(#[trigger] stash_name(m)) == vars.contains_key(stash_name(m))
            && brought_back(vars, names)[stash_name(m)] == vars[stash_name(m)] by {
            if rest.contains(m) {
                let i = choose|i: int| 0 <= i < rest.len() && rest[i] == m;
                assert(names[i] == m);
            }
            assert(names[names.len() - 1] != stash_name(m));
            assert(m != last);
            lemma_stash_names(m, last);
            assert forall|j: int| 0 <= j < rest.len() implies #[trigger] rest[j] != stash_name(m) by {
                assert(rest[j] == names[j]);
            }
        }
    }
}

/// Every variable that an activation sets is kept first.
pub proof fn law_every_variable_is_kept(vals: Seq<(Seq<char>, Seq<char>)>, i: int)
    requires
        0 <= i < vals.len(),
    ensures
        var_names(vals).contains(vals[i].0),
        var_names(vals).no_duplicates(),
    decreases vals.len(),
{
    let rest = vals.drop_last();
    let done = var_names(rest);
    if rest.len() > 0 {
        law_every_variable_is_kept(
            rest,
            if i < rest.len() {
                i
            } else {
                0
            },
        );
    }
    let k = vals.last().0;
    if !done.contains(k) {
        let now = done.push(k);
        assert(now[now.len() - 1] == k);
        if i < rest.len() {
            let j = choose|j: int| 0 <= j < done.len() && done[j] == vals[i].0;
            assert(now[j] == vals[i].0);
        }
    }
}

/// Deactivation undoes activation: whatever the lines in between set the
/// variables of the env to, each is again what it was, or unset where it was
/// unset, and no other variable changes.
pub proof fn law_deactivation_restores(
    before: Map<Seq<char>, Seq<char>>,
    after: Map<Seq<char>, Seq<char>>,
    vals: Seq<(Seq<char>, Seq<char>)>,
    k: Seq<char>,
)
    requires
        stashable(var_names(vals)),
        forall|i: int|
            0 <= i < vals.len() ==> after.contains_key(stash_name((#[trigger] vals[i]).0))
                == stashed(before, var_names(vals)).contains_key(stash_name(vals[i].0))
                && after[stash_name(vals[i].0)] == stashed(before, var_names(vals))[stash_name(
                vals[i].0,
            )],
    ensures
        (exists|i: int| 0 <= i < vals.len() && (#[trigger] vals[i]).0 == k) ==> brought_back(
            after,
            var_names(vals),
        ).contains_key(k) == before.contains_key(k) && (before.contains_key(k) ==> brought_back(
            after,
            var_names(vals),
        )[k] == before[k]),
        (forall|i: int|
            0 <= i < vals.len() ==> (#[trigger] vals[i]).0 != k && stash_name(vals[i].0) != k)
            ==> brought_back(after, var_names(vals)).contains_key(k) == after.contains_key(k)
            && brought_back(after, var_names(vals))[k] == after[k],
{
    let names = var_names(vals);
    lemma_brought_back(after, names, k);
    lemma_stashed(before, names, k);
    if exists|i: int| 0 <= i < vals.len() && (#[trigger] vals[i]).0 == k {
        let i = choose|i: int| 0 <= i < vals.len() && (#[trigger] vals[i]).0 == k;
        law_every_variable_is_kept(vals, i);
        assert(after.contains_key(stash_name(vals[i].0)) == stashed(before, names).contains_key(
            stash_name(vals[i].0),
        ));
    }
    if forall|i: int|
        0 <= i < vals.len() ==> (#[trigger] vals[i]).0 != k && stash_name(vals[i].0) != k {
        lemma_names_come_from(vals);
        assert forall|j: int| 0 <= j < names.len() implies k != stash_name(#[trigger] names[j]) && k
            != names[j] by {
            let i = choose|i: int| 0 <= i < vals.len() && (#[trigger] vals[i]).0 == names[j];
            assert(stash_name(vals[i].0) != k);
        }
    }
}

proof fn lemma_names_come_from(vals: Seq<(Seq<char>, Seq<char>)>)
    ensures
        forall|j: int|
            0 <= j < var_names(vals).len() ==> exists|i: int|
                0 <= i < vals.len() && (#[trigger] vals[i]).0 == #[trigger] var_names(vals)[j],
    decreases vals.len(),
{
    if vals.len() > 0 {
        let rest = vals.drop_last();
        let done = var_names(rest);
        let now = var_names(vals);
        lemma_names_come_from(rest);
        assert forall|j: int| 0 <= j < now.len() implies exists|i: int|
            0 <= i < vals.len() && (#[trigger] vals[i]).0 == #[trigger] now[j] by {
            if j < done.len() {
                assert(now[j] == done[j]);
                let i = choose|i: int| 0 <= i < rest.len() && (#[trigger] rest[i]).0 == done[j];
                assert(vals[i].0 == now[j]);
            } else {
                assert(vals[vals.len() - 1].0 == now[j]);
            }
        }
    }
}

/// The snippet that defines a `toolbox` function in the shell, which runs the
/// program at `bin` and evaluates what it prints for `activate` and
/// `deactivate`.
pub open spec fn init_script(shell: Shell, bin: Seq<char>) -> Seq<char> {
    match shell {
        Shell::Posix =>
            "toolbox() {\n  case \"$1\" in\n    activate|deactivate)\n      eval \"$('"@ + bin
            + "' \"$@\")\"\n      ;;\n    *)\n      '"@ + bin + "' \"$@\"\n      ;;\n  esac\n}\n"@,
        Shell::PowerShell =>
            "function toolbox {\n  param([Parameter(ValueFromRemainingArguments=$true)] $args)\n  if ($args.Count -gt 0 -and ($args[0] -eq 'activate' -or $args[0] -eq 'deactivate')) {\n    $script = & '"@
            + bin + "' @args\n    Invoke-Expression ($script -join \"`n\")\n  } else {\n    & '"@
            + bin + "' @args\n  }\n}\n"@,
    }
}

/// The snippet that defines a `toolbox` function in the shell.
pub fn shell_init(shell: Shell, bin: &str) -> (r: String)
    ensures
        r@ == init_script(shell, bin@),
{
    match shell {
        Shell::Posix => {
            let mut r =
                "toolbox() {\n  case \"$1\" in\n    activate|deactivate)\n      eval \"$('".to_owned();
            r.push_str(bin);
            r.push_str("' \"$@\")\"\n      ;;\n    *)\n      '");
            r.push_str(bin);
            r.push_str("' \"$@\"\n      ;;\n  esac\n}\n");
            r
        },
        Shell::PowerShell => {
            let mut r =
                "function toolbox {\n  param([Parameter(ValueFromRemainingArguments=$true)] $args)\n  if ($args.Count -gt 0 -and ($args[0] -eq 'activate' -or $args[0] -eq 'deactivate')) {\n    $script = & '".to_owned();
            r.push_str(bin);
            r.push_str("' @args\n    Invoke-Expression ($script -join \"`n\")\n  } else {\n    & '");
            r.push_str(bin);
            r.push_str("' @args\n  }\n}\n");
            r
        },
    }
}

// ---- finding a program ----

/// What `str::to_lowercase` makes of a text.
pub uninterp spec fn lowercased(s: Seq<char>) -> Seq<char>;

/// The lower-case form of an ASCII character.
pub open spec fn ascii_lower(c: char) -> char {
    if 'A' <= c && c <= 'Z' {
        ((c as int + 32) as u8) as char
    } else {
        c
    }
}

/// `str::to_lowercase`: the Unicode lower-case form of a text; of an ASCII
/// text, with each letter in lower case and all else unchanged.
#[verifier::external_body]
fn to_lowercase(s: &str) -> (r: String)
    ensures
        r@ == lowercased(s@),
        (forall|i: int| 0 <= i < s@.len() ==> (#[trigger] s@[i] as int) < 128) ==> r@ == Seq::new(
            s@.len(),
            |i: int| ascii_lower(s@[i]),
        ),
{
    s.to_lowercase()
}

/// `tail` stands at the end of `s`.
pub open spec fn ends_with(s: Seq<char>, tail: Seq<char>) -> bool {
    tail.len() <= s.len() && s.skip(s.len() - tail.len()) == tail
}

/// The file name to look for, given an extension: the program itself where the
/// extension is empty or already there, whatever the case of its letters.
pub open spec fn file_name(program: Seq<char>, ext: Seq<char>) -> Seq<char> {
    let low = lowercased(ext);
    if ext.len() == 0 || ends_with(lowercased(program), low) {
        program
    } else {
        program + low
    }
}

/// A directory in which programs are looked for.
#[derive(Debug, PartialEq, Eq)]
pub enum SearchDir {
    /// The directory of this path below the env root.
    InEnv(String),
    /// The directory with this number on the PATH of the host.
    Host(usize),
}

/// The model of a directory in which programs are looked for.
pub enum DirModel {
    InEnv(Seq<char>),
    Host(int),
}

impl View for SearchDir {
    type V = DirModel;

    open spec fn view(&self) -> DirModel {
        match self {
            SearchDir::InEnv(p) => DirModel::InEnv(p@),
            SearchDir::Host(i) => DirModel::Host(*i as int),
        }
    }
}

/// The models of the directories in a list.
pub open spec fn dir_models(v: Seq<SearchDir>) -> Seq<DirModel> {
    Seq::new(v.len(), |i: int| v[i]@)
}

/// The PATH of a process in an env: what the env adds, then the `n`
/// directories on the PATH of the host.
pub open spec fn search_dirs(m: ManifestModel, os: Os, n: nat) -> Seq<DirModel> {
    Seq::new(contributed(m, os).len(), |i: int| DirModel::InEnv(contributed(m, os)[i])) + Seq::new(
        n,
        |i: int| DirModel::Host(i),
    )
}

/// The PATH of a process in an env, where the PATH of the host has `n`
/// directories.
pub fn search_path(manifest: &Manifest, os: Os, n: usize) -> (r: Vec<SearchDir>)
    ensures
        dir_models(r@) == search_dirs(manifest@, os, n as nat),
{
    let adds = path_adds(manifest, os);
    let ghost all = search_dirs(manifest@, os, n as nat);
    let mut r: Vec<SearchDir> = Vec::new();
    let mut i: usize = 0;
    while i < adds.len()
        invariant
            i <= adds.len(),
            texts(adds@) == contributed(manifest@, os),
            adds@.len() == contributed(manifest@, os).len(),
            all == search_dirs(manifest@, os, n as nat),
            dir_models(r@) == all.take(i as int),
        decreases adds.len() - i,
    {
        let ghost before = dir_models(r@);
        assert(adds@[i as int]@ == contributed(manifest@, os)[i as int]);
        r.push(SearchDir::InEnv(adds[i].clone()));
        assert(dir_models(r@) =~= before.push(all[i as int]));
        assert(all.take(i + 1) =~= all.take(i as int).push(all[i as int]));
        i = i + 1;
    }
    let mut j: usize = 0;
    while j < n
        invariant
            j <= n,
            adds@.len() == contributed(manifest@, os).len(),
            all == search_dirs(manifest@, os, n as nat),
            dir_models(r@) == all.take(adds@.len() + j),
        decreases n - j,
    {
        let ghost before = dir_models(r@);
        r.push(SearchDir::Host(j));
        proof {
            let at = adds@.len() + j;
            assert(dir_models(r@) =~= before.push(all[at]));
            assert(all.take(at + 1) =~= all.take(at).push(all[at]));
        }
        j = j + 1;
    }
    assert(all.take(all.len() as int) =~= all);
    r
}

/// What a process in an env finds in its environment, over that of the host.
#[derive(Debug, PartialEq, Eq)]
pub struct ProcessEnv {
    /// The directories on PATH.
    pub path: Vec<SearchDir>,
    /// The other variables, in the order in which they are set.
    pub vars: Vec<(String, String)>,
}

/// The variables that tell a process which env it runs in.
pub open spec fn marks(name: Seq<char>, root: Seq<char>) -> Seq<(Seq<char>, Seq<char>)> {
    seq![("TOOLBOX_PREFIX"@, root), ("TOOLBOX_ACTIVE_ENV"@, name)]
}

pub(crate) fn extend_pairs(out: &mut Vec<(String, String)>, more: Vec<(String, String)>)
    ensures
        pair_texts(final(out)@) == pair_texts(old(out)@) + pair_texts(more@),
{
    let ghost start = pair_texts(out@);
    let mut i: usize = 0;
    assert(start + pair_texts(more@).take(0) =~= start);
    while i < more.len()
        invariant
            i <= more.len(),
            pair_texts(out@) == start + pair_texts(more@).take(i as int),
        decreases more.len() - i,
    {
        let ghost before = pair_texts(out@);
        out.push((more[i].0.clone(), more[i].1.clone()));
        proof {
            let p = pair_texts(more@)[i as int];
            assert(pair_texts(out@) =~= before.push(p));
            assert(start + pair_texts(more@).take(i + 1) =~= before.push(p));
        }
        i = i + 1;
    }
    assert(pair_texts(more@).take(more@.len() as int) =~= pair_texts(more@));
}

/// The environment of a process, as if the env were active in the shell that
/// starts it. The PATH of the host has `n` directories.
pub fn apply_to_command(env: &Env, os: Os, n: usize, host: &StrMap<String>) -> (r: Result<
    ProcessEnv,
    EvalError,
>)
    ensures
        match r {
            Ok(p) => dir_models(p.path@) == search_dirs(env.manifest@, os, n as nat) && exists|
                vals: Seq<(Seq<char>, Seq<char>)>,
            | #[trigger]
                assigns(templates(env.manifest@, os), env.root@, host@, Ok(vals)) && pair_texts(
                    p.vars@,
                ) == marks(env.manifest@.name, env.root@) + vals,
            Err(e) => assigns(templates(env.manifest@, os), env.root@, host@, Err(e@)),
        },
{
    match assignments(&env.manifest, os, env.root.as_str(), host) {
        Err(e) => Err(e),
        Ok(vals) => {
            let ghost given = pair_texts(vals@);
            assert(assigns(
                templates(env.manifest@, os),
                env.root@,
                host@,
                Ok::<_, EvalErrorModel>(given),
            ));
            let mut vars: Vec<(String, String)> = Vec::new();
            vars.push(("TOOLBOX_PREFIX".to_owned(), env.root.clone()));
            vars.push(("TOOLBOX_ACTIVE_ENV".to_owned(), env.manifest.name.clone()));
            assert(pair_texts(vars@) =~= marks(env.manifest@.name, env.root@));
            extend_pairs(&mut vars, vals);
            Ok(ProcessEnv { path: search_path(&env.manifest, os, n), vars })
        },
    }
}

/// Where there are no extensions, as on every system but Windows, a program is
/// looked for by its own name.
pub proof fn law_no_extension_keeps_the_name(program: Seq<char>, exts: Seq<Seq<char>>, i: int)
    requires
        0 <= i < exts.len(),
        exts[i].len() == 0,
    ensures
        file_names(program, exts)[i] == program,
{
}

/// Where a program is looked for.
#[derive(Debug, PartialEq, Eq)]
pub enum Search {
    /// At this path, as it is.
    AsPath(String),
    /// At this path below the env root, or as it is where it is absolute.
    InRoot(String),
    /// In these directories by these names: the first that is a file.
    Probe(Vec<(SearchDir, String)>),
}

/// The model of where a program is looked for.
pub enum SearchModel {
    AsPath(Seq<char>),
    InRoot(Seq<char>),
    Probe(Seq<(DirModel, Seq<char>)>),
}

/// The places in a list.
pub open spec fn place_models(v: Seq<(SearchDir, String)>) -> Seq<(DirModel, Seq<char>)> {
    Seq::new(v.len(), |i: int| (v[i].0@, v[i].1@))
}

impl View for Search {
    type V = SearchModel;

    open spec fn view(&self) -> SearchModel {
        match self {
            Search::AsPath(p) => SearchModel::AsPath(p@),
            Search::InRoot(p) => SearchModel::InRoot(p@),
            Search::Probe(v) => SearchModel::Probe(place_models(v@)),
        }
    }
}

fn ends(s: &str, tail: &str) -> (r: bool)
    ensures
        r == ends_with(s@, tail@),
{
    let v = chars_of(s);
    let t = chars_of(tail);
    if t.len() > v.len() {
        return false;
    }
    let start = v.len() - t.len();
    let mut i: usize = 0;
    while i < t.len()
        invariant
            i <= t.len(),
            start + t.len() == v.len(),
            v@ == s@,
            t@ == tail@,
            forall|j: int| 0 <= j < i ==> s@[start + j] == tail@[j],
        decreases t.len() - i,
    {
        if v[start + i] != t[i] {
            assert(s@.skip(start as int)[i as int] != tail@[i as int]);
            return false;
        }
        i = i + 1;
    }
    assert(s@.skip(start as int) =~= tail@);
    true
}

/// The extensions of programs: on Windows those that `PATHEXT` lists, elsewhere
/// only none.
pub open spec fn extensions(pathext: Option<Seq<char>>, os: Os) -> Seq<Seq<char>> {
    if os == Os::Windows {
        split(
            match pathext {
                Some(s) => s,
                None => ".COM;.EXE;.BAT;.CMD"@,
            },
            ';',
        )
    } else {
        seq![Seq::empty()]
    }
}

/// The extensions of programs.
pub fn program_exts(pathext: Option<&str>, os: Os) -> (r: Vec<String>)
    ensures
        texts(r@) == extensions(crate::paths::opt_view(pathext), os),
{
    if os == Os::Windows {
        match pathext {
            Some(s) => split_on(s, ';'),
            None => split_on(".COM;.EXE;.BAT;.CMD", ';'),
        }
    } else {
        let mut r: Vec<String> = Vec::new();
        let none = String::new();
        assert(none@ =~= Seq::<char>::empty());
        r.push(none);
        assert(texts(r@) =~= seq![Seq::<char>::empty()]);
        r
    }
}

/// The names under which a program is looked for, one for each extension.
pub open spec fn file_names(program: Seq<char>, exts: Seq<Seq<char>>) -> Seq<Seq<char>> {
    Seq::new(exts.len(), |i: int| file_name(program, exts[i]))
}

fn program_names(program: &str, exts: &Vec<String>) -> (r: Vec<String>)
    ensures
        texts(r@) == file_names(program@, texts(exts@)),
{
    let low = to_lowercase(program);
    let mut names: Vec<String> = Vec::new();
    let mut i: usize = 0;
    let ghost all = file_names(program@, texts(exts@));
    while i < exts.len()
        invariant
            i <= exts.len(),
            low@ == lowercased(program@),
            all == file_names(program@, texts(exts@)),
            texts(names@) == all.take(i as int),
        decreases exts.len() - i,
    {
        let ext = to_lowercase(exts[i].as_str());
        let mut name = program.to_owned();
        if !(exts[i].as_str().is_empty() || ends(low.as_str(), ext.as_str())) {
            name.push_str(ext.as_str());
        }
        let ghost before = texts(names@);
        names.push(name);
        assert(texts(names@) =~= before.push(name@));
        assert(all.take(i + 1) =~= all.take(i as int).push(all[i as int]));
        i = i + 1;
    }
    assert(all.take(all.len() as int) =~= all);
    names
}

/// Every name in every directory: all names of a directory come before those of
/// the next.
pub open spec fn places(dirs: Seq<DirModel>, names: Seq<Seq<char>>) -> Seq<(DirModel, Seq<char>)>
    decreases dirs.len(),
{
    if dirs.len() == 0 {
        Seq::empty()
    } else {
        places(dirs.drop_last(), names) + Seq::new(names.len(), |j: int| (dirs.last(), names[j]))
    }
}

fn copy_dir(d: &SearchDir) -> (r: SearchDir)
    ensures
        r@ == d@,
{
    match d {
        SearchDir::InEnv(p) => SearchDir::InEnv(p.clone()),
        SearchDir::Host(i) => SearchDir::Host(*i),
    }
}

fn all_places(dirs: &Vec<SearchDir>, names: &Vec<String>) -> (r: Vec<(SearchDir, String)>)
    ensures
        place_models(r@) == places(dir_models(dirs@), texts(names@)),
{
    let mut r: Vec<(SearchDir, String)> = Vec::new();
    let ghost ds = dir_models(dirs@);
    let ghost ns = texts(names@);
    let mut i: usize = 0;
    assert(place_models(r@) =~= places(ds.take(0), ns));
    while i < dirs.len()
        invariant
            i <= dirs.len(),
            ds == dir_models(dirs@),
            ns == texts(names@),
            place_models(r@) == places(ds.take(i as int), ns),
        decreases dirs.len() - i,
    {
        let ghost start = place_models(r@);
        let ghost row = Seq::new(ns.len(), |j: int| (ds[i as int], ns[j]));
        let mut j: usize = 0;
        assert(start + row.take(0) =~= start);
        while j < names.len()
            invariant
                i < dirs.len(),
                j <= names.len(),
                ds == dir_models(dirs@),
                ns == texts(names@),
                row == Seq::new(ns.len(), |j: int| (ds[i as int], ns[j])),
                place_models(r@) == start + row.take(j as int),
            decreases names.len() - j,
        {
            let ghost before = place_models(r@);
            r.push((copy_dir(&dirs[i]), names[j].clone()));
            assert(place_models(r@) =~= before.push(row[j as int]));
            assert(start + row.take(j + 1) =~= before.push(row[j as int]));
            j = j + 1;
        }
        proof {
            assert(row.take(ns.len() as int) =~= row);
            assert(ds.take(i + 1).drop_last() =~= ds.take(i as int));
            assert(ds.take(i + 1).last() == ds[i as int]);
        }
        i = i + 1;
    }
    assert(ds.take(ds.len() as int) =~= ds);
    r
}

/// Whether a program is named by a path.
pub open spec fn path_like(program: Seq<char>) -> bool {
    program.contains('/') || program.contains('\\')
}

/// Where `program` is looked for: one that is named by a path is at that path,
/// any other on the PATH of the env by its name with each of the extensions.
pub open spec fn program_search(
    m: ManifestModel,
    os: Os,
    n: nat,
    program: Seq<char>,
    exts: Seq<Seq<char>>,
) -> SearchModel {
    if path_like(program) {
        SearchModel::AsPath(program)
    } else {
        SearchModel::Probe(places(search_dirs(m, os, n), file_names(program, exts)))
    }
}

/// Where `program` is looked for. The PATH of the host has `n` directories.
pub fn resolve_program(
    manifest: &Manifest,
    os: Os,
    n: usize,
    program: &str,
    exts: &Vec<String>,
) -> (r: Search)
    ensures
        r@ == program_search(manifest@, os, n as nat, program@, texts(exts@)),
{
    if has_char(program, '/') || has_char(program, '\\') {
        return Search::AsPath(program.to_owned());
    }
    Search::Probe(all_places(&search_path(manifest, os, n), &program_names(program, exts)))
}

/// The binaries of the env for the OS come first on PATH, and what is for the
/// OS comes before what is for all.
pub proof fn law_path_order(m: ManifestModel, os: Os, i: int, j: int)
    requires
        0 <= i < prepended(m, os_word(os)).len(),
        0 <= j < prepended(m, "all"@).len(),
    ensures
        contributed(m, os)[0] == os_word(os) + "/bin"@,
        contributed(m, os)[1 + i] == prepended(m, os_word(os))[i],
        contributed(m, os)[1 + prepended(m, os_word(os)).len() + j] == prepended(m, "all"@)[j],
{
}

proof fn lemma_places_in_order(dirs: Seq<DirModel>, names: Seq<Seq<char>>, i: int, j: int)
    requires
        0 <= i <= j < places(dirs, names).len(),
    ensures
        exists|a: int, b: int|
            0 <= a <= b < dirs.len() && places(dirs, names)[i].0 == #[trigger] dirs[a] && places(
                dirs,
                names,
            )[j].0 == #[trigger] dirs[b],
    decreases dirs.len(),
{
    let early = places(dirs.drop_last(), names);
    let all = places(dirs, names);
    let last = dirs.len() - 1;
    if j < early.len() {
        lemma_places_in_order(dirs.drop_last(), names, i, j);
        let (a, b) = choose|a: int, b: int|
            0 <= a <= b < dirs.drop_last().len() && early[i].0 == #[trigger] dirs.drop_last()[a]
                && early[j].0 == #[trigger] dirs.drop_last()[b];
        assert(all[i].0 == dirs[a] && all[j].0 == dirs[b]);
    } else if i < early.len() {
        lemma_places_in_order(dirs.drop_last(), names, i, i);
        let (a, b) = choose|a: int, b: int|
            0 <= a <= b < dirs.drop_last().len() && early[i].0 == #[trigger] dirs.drop_last()[a]
                && early[i].0 == #[trigger] dirs.drop_last()[b];
        assert(all[i].0 == dirs[a] && all[j].0 == dirs[last]);
    } else {
        assert(all[i].0 == dirs[last] && all[j].0 == dirs[last]);
    }
}

/// A program of the env is found before one of the same name on the PATH of
/// the host: no place in the env comes after a place of the host.
pub proof fn law_env_programs_come_first(
    m: ManifestModel,
    os: Os,
    n: nat,
    names: Seq<Seq<char>>,
    i: int,
    j: int,
)
    requires
        0 <= i <= j < places(search_dirs(m, os, n), names).len(),
        places(search_dirs(m, os, n), names)[i].0 is Host,
    ensures
        places(search_dirs(m, os, n), names)[j].0 is Host,
{
    let dirs = search_dirs(m, os, n);
    lemma_places_in_order(dirs, names, i, j);
    let (a, b) = choose|a: int, b: int|
        0 <= a <= b < dirs.len() && places(dirs, names)[i].0 == #[trigger] dirs[a] && places(
            dirs,
            names,
        )[j].0 == #[trigger] dirs[b];
    assert(dirs[a] is Host);
    assert(a >= contributed(m, os).len());
}

// ---- laws of activation ----

/// Every path that the manifest prepends for the OS, and every path that it
/// prepends for all, is on the PATH of the env, in the order of the manifest: the
/// binaries of the OS first, then those of the OS, then those for all.
pub proof fn law_every_path_is_added(m: ManifestModel, os: Os, i: int)
    ensures
        ({
            let word = match os {
                Os::Windows => "windows"@,
                Os::Linux => "linux"@,
                Os::Macos => "macos"@,
            };
            let own = if m.activation.contains_key(word) {
                m.activation[word].path_prepend.len() as int
            } else {
                0
            };
            let shared = if m.activation.contains_key("all"@) {
                m.activation["all"@].path_prepend.len() as int
            } else {
                0
            };
            &&& contributed(m, os).len() == 1 + own + shared
            &&& contributed(m, os)[0] == word + "/bin"@
            &&& 0 <= i < own ==> contributed(m, os)[1 + i] == m.activation[word].path_prepend[i]
            &&& 0 <= i < shared ==> contributed(m, os)[1 + own + i]
                == m.activation["all"@].path_prepend[i]
        }),
{
}

/// Below its root, each path of the env is the root, a slash and the path.
pub proof fn law_paths_are_rooted(prefix: Seq<char>, parts: Seq<Seq<char>>, i: int)
    ensures
        rooted(prefix, parts).len() == parts.len(),
        0 <= i < parts.len() ==> rooted(prefix, parts)[i] == prefix.push('/') + parts[i],
{
    reveal_strlit("/");
    if 0 <= i < parts.len() {
        assert(rooted(prefix, parts)[i] =~= prefix.push('/') + parts[i]);
    }
}

/// The snippet for a POSIX shell: it keeps PATH and the variables, puts all the
/// paths of the env, joined by colons, before what PATH was, and exports the
/// prefix, the name and the variables of the env.
pub proof fn law_posix_snippet(
    name: Seq<char>,
    prefix: Seq<char>,
    adds: Seq<Seq<char>>,
    vals: Seq<(Seq<char>, Seq<char>)>,
)
    ensures
        activation_script(Shell::Posix, name, prefix, adds, vals)
            == "export _TOOLBOX_OLD_PATH=\"$PATH\"\n"@ + ("export _TOOLBOX_STASH_VARS=\""@ + joined(
            var_names(vals),
            " "@,
        ) + "\"\n"@) + keep_lines(Shell::Posix, var_names(vals)) + ("export PATH=\""@ + joined(
            adds,
            ":"@,
        ) + ":$PATH\"\n"@) + ("export TOOLBOX_PREFIX=\""@ + prefix + "\"\n"@) + (
        "export TOOLBOX_ACTIVE_ENV=\""@ + name + "\"\n"@) + export_lines(Shell::Posix, vals),
{
    reveal_strlit("export ");
    reveal_strlit("=\"");
    reveal_strlit("TOOLBOX_PREFIX");
    reveal_strlit("TOOLBOX_ACTIVE_ENV");
    reveal_strlit("export TOOLBOX_PREFIX=\"");
    reveal_strlit("export TOOLBOX_ACTIVE_ENV=\"");
    assert("export "@ + "TOOLBOX_PREFIX"@ + "=\""@ =~= "export TOOLBOX_PREFIX=\""@);
    assert("export "@ + "TOOLBOX_ACTIVE_ENV"@ + "=\""@ =~= "export TOOLBOX_ACTIVE_ENV=\""@);
}

/// The snippet for PowerShell does the same in its own words.
pub proof fn law_powershell_snippet(
    name: Seq<char>,
    prefix: Seq<char>,
    adds: Seq<Seq<char>>,
    vals: Seq<(Seq<char>, Seq<char>)>,
)
    ensures
        activation_script(Shell::PowerShell, name, prefix, adds, vals)
            == "$env:_TOOLBOX_OLD_PATH = $env:PATH\n"@ + ("$env:_TOOLBOX_STASH_VARS = \""@ + joined(
            var_names(vals),
            " "@,
        ) + "\"\n"@) + keep_lines(Shell::PowerShell, var_names(vals)) + ("$env:PATH = \""@ + joined(
            adds,
            ";"@,
        ) + ";$env:PATH\"\n"@) + ("$env:TOOLBOX_PREFIX = \""@ + prefix + "\"\n"@) + (
        "$env:TOOLBOX_ACTIVE_ENV = \""@ + name + "\"\n"@) + export_lines(Shell::PowerShell, vals),
{
    reveal_strlit("$env:");
    reveal_strlit(" = \"");
    reveal_strlit("TOOLBOX_PREFIX");
    reveal_strlit("TOOLBOX_ACTIVE_ENV");
    reveal_strlit("$env:TOOLBOX_PREFIX = \"");
    reveal_strlit("$env:TOOLBOX_ACTIVE_ENV = \"");
    assert("$env:"@ + "TOOLBOX_PREFIX"@ + " = \""@ =~= "$env:TOOLBOX_PREFIX = \""@);
    assert("$env:"@ + "TOOLBOX_ACTIVE_ENV"@ + " = \""@ =~= "$env:TOOLBOX_ACTIVE_ENV = \""@);
}

/// One variable more is exported by one line more, with its value, after the
/// others; it is kept by one line more where it was not kept yet.
pub proof fn law_one_variable_more(
    vals: Seq<(Seq<char>, Seq<char>)>,
    names: Seq<Seq<char>>,
    k: Seq<char>,
    v: Seq<char>,
)
    ensures
        export_lines(Shell::Posix, Seq::empty()) == Seq::<char>::empty(),
        export_lines(Shell::Posix, vals.push((k, v))) == export_lines(Shell::Posix, vals) + (
        "export "@ + k + "=\""@ + v + "\"\n"@),
        export_lines(Shell::PowerShell, Seq::empty()) == Seq::<char>::empty(),
        export_lines(Shell::PowerShell, vals.push((k, v))) == export_lines(Shell::PowerShell, vals)
            + ("$env:"@ + k + " = \""@ + v + "\"\n"@),
        keep_lines(Shell::Posix, Seq::empty()) == Seq::<char>::empty(),
        keep_lines(Shell::Posix, names.push(k)) == keep_lines(Shell::Posix, names) + (
        "if [ -n \"${"@ + k + "+x}\" ]; then export _TOOLBOX_STASH_"@ + k + "=\"$"@ + k
            + "\"; else unset _TOOLBOX_STASH_"@ + k + "; fi\n"@),
        keep_lines(Shell::PowerShell, Seq::empty()) == Seq::<char>::empty(),
        keep_lines(Shell::PowerShell, names.push(k)) == keep_lines(Shell::PowerShell, names) + (
        "if (Test-Path Env:"@ + k + ") { $env:_TOOLBOX_STASH_"@ + k + " = $env:"@ + k
            + " } else { Remove-Item Env:_TOOLBOX_STASH_"@ + k
            + " -ErrorAction SilentlyContinue }\n"@),
        var_names(vals.push((k, v))) == (if exists|i: int|
            0 <= i < vals.len() && (#[trigger] vals[i]).0 == k {
            var_names(vals)
        } else {
            var_names(vals).push(k)
        }),
{
    assert(vals.push((k, v)).drop_last() =~= vals);
    assert(names.push(k).drop_last() =~= names);
    if exists|i: int| 0 <= i < vals.len() && (#[trigger] vals[i]).0 == k {
        let i = choose|i: int| 0 <= i < vals.len() && (#[trigger] vals[i]).0 == k;
        law_every_variable_is_kept(vals, i);
    } else {
        lemma_names_come_from(vals);
        if var_names(vals).contains(k) {
            let j = choose|j: int| 0 <= j < var_names(vals).len() && var_names(vals)[j] == k;
            let i = choose|i: int| 0 <= i < vals.len() && (#[trigger] vals[i]).0 == var_names(
                vals,
            )[j];
            assert(vals[i].0 == k);
        }
    }
}

/// Every variable of the block for the OS, and every one of the block for all, is
/// set; what the block for the OS says comes last and so overrides. Nothing else
/// is set.
pub proof fn law_every_variable_is_set(m: ManifestModel, os: Os, k: Seq<char>)
    requires
        m.activation.contains_key("all"@) ==> listable(m.activation["all"@].env),
        m.activation.contains_key(os_word(os)) ==> listable(m.activation[os_word(os)].env),
    ensures
        ({
            let ts = templates(m, os);
            let word = match os {
                Os::Windows => "windows"@,
                Os::Linux => "linux"@,
                Os::Macos => "macos"@,
            };
            let own = m.activation.contains_key(word) && m.activation[word].env.contains_key(k);
            let shared = m.activation.contains_key("all"@)
                && m.activation["all"@].env.contains_key(k);
            &&& own ==> exists|i: int|
                0 <= i < ts.len() && #[trigger] ts[i] == (k, m.activation[word].env[k]) && forall|
                    j: int,
                |
                    i < j < ts.len() ==> (#[trigger] ts[j]).0 != k
            &&& shared ==> exists|i: int|
                0 <= i < ts.len() && #[trigger] ts[i] == (k, m.activation["all"@].env[k])
            &&& shared && !own ==> exists|i: int|
                0 <= i < ts.len() && #[trigger] ts[i] == (k, m.activation["all"@].env[k])
                    && forall|j: int| i < j < ts.len() ==> (#[trigger] ts[j]).0 != k
            &&& (exists|i: int| 0 <= i < ts.len() && (#[trigger] ts[i]).0 == k) ==> own || shared
        }),
{
    let ts = templates(m, os);
    let word = os_word(os);
    let a = block_vars(m, "all"@);
    let b = block_vars(m, word);
    let own = m.activation.contains_key(word) && m.activation[word].env.contains_key(k);
    let shared = m.activation.contains_key("all"@) && m.activation["all"@].env.contains_key(k);
    if m.activation.contains_key(word) {
        law_listing_is_complete(m.activation[word].env, k);
    }
    if m.activation.contains_key("all"@) {
        law_listing_is_complete(m.activation["all"@].env, k);
    }
    if own {
        let i = choose|i: int| 0 <= i < b.len() && (#[trigger] b[i]).0 == k;
        let at = a.len() + i;
        assert(ts[at] == b[i]);
        assert(ts[at] == (k, m.activation[word].env[k]));
        assert forall|j: int| at < j < ts.len() implies (#[trigger] ts[j]).0 != k by {
            assert(ts[j] == b[j - a.len()]);
            assert(b[i].0 != b[j - a.len()].0);
        }
    }
    if shared {
        let i = choose|i: int| 0 <= i < a.len() && (#[trigger] a[i]).0 == k;
        assert(ts[i] == a[i]);
        assert(ts[i] == (k, m.activation["all"@].env[k]));
        if !own {
            assert forall|j: int| i < j < ts.len() implies (#[trigger] ts[j]).0 != k by {
                if j < a.len() {
                    assert(ts[j] == a[j]);
                    assert(a[i].0 != a[j].0);
                } else {
                    assert(ts[j] == b[j - a.len()]);
                }
            }
        }
    }
    if exists|i: int| 0 <= i < ts.len() && (#[trigger] ts[i]).0 == k {
        let i = choose|i: int| 0 <= i < ts.len() && (#[trigger] ts[i]).0 == k;
        if i < a.len() {
            assert(ts[i] == a[i]);
        } else {
            assert(ts[i] == b[i - a.len()]);
        }
    }
}

/// Each variable gets a value of its own template, in order; a template without a
/// dollar sign is its own value.
pub proof fn law_values_of_templates(
    ts: Seq<(Seq<char>, Seq<char>)>,
    root: Seq<char>,
    host: Map<Seq<char>, Seq<char>>,
    vals: Seq<(Seq<char>, Seq<char>)>,
    i: int,
)
    requires
        assigns(ts, root, host, Ok(vals)),
        0 <= i < ts.len(),
        !root.contains('$'),
    ensures
        vals.len() == ts.len(),
        vals[i].0 == ts[i].0,
        resolves_to(ts[i].1, root, host, Ok(vals[i].1)),
        !ts[i].1.contains('$') ==> vals[i].1 == ts[i].1,
{
    if !ts[i].1.contains('$') {
        law_plain_values_resolve(ts[i].1, Seq::empty(), root, host, Ok(vals[i].1));
    }
}

/// A program that is named by a path is at that path; any other is looked for in
/// every directory of the env and then of the host, in each by every name.
pub proof fn law_every_place_is_tried(
    m: ManifestModel,
    os: Os,
    n: nat,
    program: Seq<char>,
    exts: Seq<Seq<char>>,
    a: int,
    b: int,
)
    ensures
        program.contains('/') || program.contains('\\') ==> program_search(
            m,
            os,
            n,
            program,
            exts,
        ) == SearchModel::AsPath(program),
        !program.contains('/') && !program.contains('\\') ==> (program_search(
            m,
            os,
            n,
            program,
            exts,
        ) matches SearchModel::Probe(all) && {
            let dirs = contributed(m, os).len() as int;
            &&& all.len() == (dirs + n) * exts.len()
            &&& 0 <= a < dirs && 0 <= b < exts.len() ==> 0 <= a * exts.len() + b < all.len()
                && all[a * exts.len() + b] == (
                DirModel::InEnv(contributed(m, os)[a]),
                file_name(program, exts[b]),
            )
            &&& 0 <= a < n && 0 <= b < exts.len() ==> 0 <= (dirs + a) * exts.len() + b < all.len()
                && all[(dirs + a) * exts.len() + b] == (
                DirModel::Host(a),
                file_name(program, exts[b]),
            )
        }),
{
    let dirs = search_dirs(m, os, n);
    let names = file_names(program, exts);
    let c = contributed(m, os).len() as int;
    lemma_place_at(dirs, names, a, b);
    lemma_place_at(dirs, names, c + a, b);
    assert(dirs.len() == c + n);
}

proof fn lemma_place_at(dirs: Seq<DirModel>, names: Seq<Seq<char>>, a: int, b: int)
    ensures
        places(dirs, names).len() == dirs.len() * names.len(),
        0 <= a < dirs.len() && 0 <= b < names.len() ==> 0 <= a * names.len() + b < places(
            dirs,
            names,
        ).len() && places(dirs, names)[a * names.len() + b] == (dirs[a], names[b]),
    decreases dirs.len(),
{
    let w = names.len() as int;
    if dirs.len() == 0 {
        assert(0 * w == 0);
    } else {
        let d = dirs.len() as int;
        let early = places(dirs.drop_last(), names);
        lemma_place_at(dirs.drop_last(), names, a, b);
        assert(d * w == (d - 1) * w + w) by (nonlinear_arith);
        if 0 <= a < d && 0 <= b < w {
            if a < d - 1 {
                assert(places(dirs, names)[a * w + b] == early[a * w + b]);
                assert(dirs.drop_last()[a] == dirs[a]);
            } else {
                assert(a * w == (d - 1) * w) by (nonlinear_arith)
                    requires
                        a == d - 1,
                ;
                assert(a * w + b == early.len() + b);
                assert(early.len() >= 0);
            }
        }
    }
}

/// The name of a program's file is the program's, with the extension in lower case
/// behind it where there is one that the program does not end in.
pub proof fn law_file_names(program: Seq<char>, ext: Seq<char>)
    ensures
        ext.len() == 0 ==> file_name(program, ext) == program,
        ext.len() > 0 && lowercased(ext).is_suffix_of(lowercased(program)) ==> file_name(
            program,
            ext,
        ) == program,
        ext.len() > 0 && !lowercased(ext).is_suffix_of(lowercased(program)) ==> file_name(
            program,
            ext,
        ) == program + lowercased(ext),
{
    let (p, l) = (lowercased(program), lowercased(ext));
    if l.len() <= p.len() {
        let n = (p.len() - l.len()) as int;
        assert(p.skip(n) =~= p.subrange(n, p.len() as int));
    }
}

/// The extensions on Windows are those in `PATHEXT`, between its semicolons, and
/// the usual ones where it is not set; elsewhere there is only the empty one.
pub proof fn law_extensions(pathext: Option<Seq<char>>, os: Os)
    ensures
        os != Os::Windows ==> extensions(pathext, os) == seq![Seq::<char>::empty()],
        os == Os::Windows ==> joined(extensions(pathext, os), seq![';']) == (match pathext {
            Some(s) => s,
            None => ".COM;.EXE;.BAT;.CMD"@,
        }),
        forall|i: int|
            0 <= i < extensions(pathext, os).len() ==> !(#[trigger] extensions(
                pathext,
                os,
            )[i]).contains(';'),
{
    if os == Os::Windows {
        law_split_joins_again(
            match pathext {
                Some(s) => s,
                None => ".COM;.EXE;.BAT;.CMD"@,
            },
            ';',
        );
    }
}

/// What lists of pairs, of directories and of places say is what each item says,
/// in order.
pub proof fn law_search_lists_say_all(
    pairs: Seq<(String, String)>,
    dirs: Seq<SearchDir>,
    found: Seq<(SearchDir, String)>,
    i: int,
)
    ensures
        pair_texts(pairs).len() == pairs.len(),
        0 <= i < pairs.len() ==> pair_texts(pairs)[i] == (pairs[i].0@, pairs[i].1@),
        dir_models(dirs).len() == dirs.len(),
        0 <= i < dirs.len() ==> dir_models(dirs)[i] == dirs[i]@,
        place_models(found).len() == found.len(),
        0 <= i < found.len() ==> place_models(found)[i] == (found[i].0@, found[i].1@),
{
}

/// Resolving fails only by a value that has no value of its own: where no template
/// and no argument holds a dollar sign, all are resolved, however many there are.
pub proof fn law_plain_values_never_fail(
    ts: Seq<(Seq<char>, Seq<char>)>,
    values: Seq<Seq<char>>,
    root: Seq<char>,
    host: Map<Seq<char>, Seq<char>>,
    e: EvalErrorModel,
)
    requires
        !root.contains('$'),
    ensures
        (forall|i: int| 0 <= i < ts.len() ==> !(#[trigger] ts[i]).1.contains('$')) ==> !assigns(
            ts,
            root,
            host,
            Err(e),
        ) && assigns(ts, root, host, Ok(ts)),
        (forall|i: int| 0 <= i < values.len() ==> !(#[trigger] values[i]).contains('$'))
            ==> !resolves_all(values, root, host, Err(e)) && resolves_all(
            values,
            root,
            host,
            Ok(values),
        ),
        assigns(ts, root, host, Err(e)) ==> exists|i: int|
            0 <= i < ts.len() && resolves_to((#[trigger] ts[i]).1, root, host, Err(e)),
        resolves_all(values, root, host, Err(e)) ==> exists|i: int|
            0 <= i < values.len() && resolves_to(#[trigger] values[i], root, host, Err(e)),
{
    if assigns(ts, root, host, Err(e)) {
        let vals = choose|vals: Seq<(Seq<char>, Seq<char>)>|
            vals.len() < ts.len() && #[trigger] assigned(ts, root, host, vals) && resolves_to(
                ts[vals.len() as int].1,
                root,
                host,
                Err(e),
            );
        let i = vals.len() as int;
        assert(resolves_to(ts[i].1, root, host, Err(e)));
        law_plain_values_resolve_if(ts[i].1, root, host, Err(e));
    }
    if resolves_all(values, root, host, Err(e)) {
        let i = choose|n: int|
            0 <= n < values.len() && resolves_to(#[trigger] values[n], root, host, Err(e));
        law_plain_values_resolve_if(values[i], root, host, Err(e));
    }
    assert forall|i: int|
        0 <= i < ts.len() && !(#[trigger] ts[i]).1.contains('$') implies resolves_to(
        ts[i].1,
        root,
        host,
        Ok(ts[i].1),
    ) by {
        law_plain_values_resolve_if(ts[i].1, root, host, Ok(ts[i].1));
    }
    assert forall|i: int|
        0 <= i < values.len() && !(#[trigger] values[i]).contains('$') implies resolves_to(
        values[i],
        root,
        host,
        Ok(values[i]),
    ) by {
        law_plain_values_resolve_if(values[i], root, host, Ok(values[i]));
    }
}

/// A value without a dollar sign resolves to itself, and to nothing else.
pub proof fn law_plain_values_resolve_if(
    value: Seq<char>,
    root: Seq<char>,
    host: Map<Seq<char>, Seq<char>>,
    x: Result<Seq<char>, EvalErrorModel>,
)
    requires
        !root.contains('$'),
    ensures
        !value.contains('$') ==> (resolves_to(value, root, host, x) <==> x == Ok::<
            Seq<char>,
            EvalErrorModel,
        >(value)),
{
    if !value.contains('$') {
        law_plain_values_resolve(value, Seq::empty(), root, host, x);
    }
}

/// The function for a shell runs the program for every command, and evaluates what
/// it prints for the two that change the shell.
pub proof fn law_shell_function(bin: Seq<char>)
    ensures
        init_script(Shell::Posix, bin)
            == "toolbox() {\n  case \"$1\" in\n    activate|deactivate)\n      eval \"$('"@ + bin
            + "' \"$@\")\"\n      ;;\n    *)\n      '"@ + bin + "' \"$@\"\n      ;;\n  esac\n}\n"@,
        init_script(Shell::PowerShell, bin)
            == "function toolbox {\n  param([Parameter(ValueFromRemainingArguments=$true)] $args)\n  if ($args.Count -gt 0 -and ($args[0] -eq 'activate' -or $args[0] -eq 'deactivate')) {\n    $script = & '"@
            + bin + "' @args\n    Invoke-Expression ($script -join \"`n\")\n  } else {\n    & '"@
            + bin + "' @args\n  }\n}\n"@,
{
}

/// What was resolved says its pairs, and what failed its error.
pub proof fn law_resolved_pairs(v: Vec<(String, String)>, e: EvalError)
    ensures
        pairs_in(Ok(v)) == Ok::<_, EvalErrorModel>(pair_texts(v@)),
        pairs_in(Err(e)) == Err::<Seq<(Seq<char>, Seq<char>)>, _>(e@),
{
}

proof fn lemma_joined_holds(parts: Seq<Seq<char>>, sep: Seq<char>, i: int)
    requires
        0 <= i < parts.len(),
    ensures
        occurs_in(joined(parts, sep), parts[i]),
    decreases parts.len(),
{
    let all = joined(parts, sep);
    if parts.len() == 1 {
        assert(all.subrange(0, all.len() as int) =~= parts[0]);
        assert(occurs_at(all, parts[0], 0));
    } else if i < parts.len() - 1 {
        let head = joined(parts.drop_last(), sep);
        lemma_joined_holds(parts.drop_last(), sep, i);
        assert(parts.drop_last()[i] == parts[i]);
        let at = choose|at: int| #[trigger] occurs_at(head, parts[i], at);
        assert(all.subrange(at, at + parts[i].len()) =~= head.subrange(at, at + parts[i].len()));
        assert(occurs_at(all, parts[i], at));
    } else {
        let at = all.len() - parts[i].len();
        assert(all.subrange(at, all.len() as int) =~= parts[i]);
        assert(occurs_at(all, parts[i], at));
    }
}

/// In an activated env every path of the manifest, for the OS and for all, stands
/// below the env's root in what the snippet puts before PATH, and so do the
/// binaries of the OS.
pub proof fn law_activated_path_holds_every_path(
    m: ManifestModel,
    os: Os,
    root: Seq<char>,
    sep: Seq<char>,
    i: int,
)
    ensures
        ({
            let word = match os {
                Os::Windows => "windows"@,
                Os::Linux => "linux"@,
                Os::Macos => "macos"@,
            };
            let path = joined(rooted(root, contributed(m, os)), sep);
            &&& occurs_in(path, root.push('/') + (word + "/bin"@))
            &&& m.activation.contains_key(word) && 0 <= i < m.activation[word].path_prepend.len()
                ==> occurs_in(path, root.push('/') + m.activation[word].path_prepend[i])
            &&& m.activation.contains_key("all"@) && 0 <= i
                < m.activation["all"@].path_prepend.len() ==> occurs_in(
                path,
                root.push('/') + m.activation["all"@].path_prepend[i],
            )
        }),
{
    let word = os_word(os);
    let parts = contributed(m, os);
    let all = rooted(root, parts);
    law_every_path_is_added(m, os, i);
    law_paths_are_rooted(root, parts, 0);
    lemma_joined_holds(all, sep, 0);
    if m.activation.contains_key(word) && 0 <= i < m.activation[word].path_prepend.len() {
        law_paths_are_rooted(root, parts, 1 + i);
        lemma_joined_holds(all, sep, 1 + i);
    }
    if m.activation.contains_key("all"@) && 0 <= i < m.activation["all"@].path_prepend.len() {
        let own = prepended(m, word).len();
        law_paths_are_rooted(root, parts, 1 + own + i);
        lemma_joined_holds(all, sep, 1 + own + i);
    }
}

} // verus!
