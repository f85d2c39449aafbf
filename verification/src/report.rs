//! What the commands print of an env, a registry and its services.

use crate::manifest::{
    packages_model, ActivationBlock, BlockModel, Manifest, ManifestModel, PackageModel, PackageRef,
    Tool, ToolModel,
};
use crate::registry::Registry;
use crate::service::ServiceState;
use crate::strmap::{law_listing_is_complete, listable, listed, StrMap};
use crate::text::{decimal, digits, join, joined, occurs_at, occurs_in, texts};
use vstd::prelude::*;

verus! {

/// The parts one after the other.
pub open spec fn concat(parts: Seq<Seq<char>>) -> Seq<char>
    decreases parts.len(),
{
    if parts.len() == 0 {
        Seq::empty()
    } else {
        concat(parts.drop_last()) + parts.last()
    }
}

proof fn lemma_concat_next(head: Seq<char>, parts: Seq<Seq<char>>, i: int)
    requires
        0 <= i < parts.len(),
    ensures
        head + concat(parts.take(i)) + parts[i] == head + concat(parts.take(i + 1)),
{
    assert(parts.take(i + 1).drop_last() =~= parts.take(i));
    assert(head + (concat(parts.take(i)) + parts[i]) =~= head + concat(parts.take(i)) + parts[i]);
}

proof fn lemma_concat_ends(head: Seq<char>, parts: Seq<Seq<char>>)
    ensures
        head + concat(parts.take(0)) == head,
        parts.take(parts.len() as int) == parts,
{
    assert(head + concat(parts.take(0)) =~= head);
    assert(parts.take(parts.len() as int) =~= parts);
}

/// `s` and as many spaces as make it `n` characters long.
pub open spec fn padded(s: Seq<char>, n: nat) -> Seq<char> {
    if s.len() >= n {
        s
    } else {
        s + Seq::new((n - s.len()) as nat, |i: int| ' ')
    }
}

fn pad(s: &str, n: usize) -> (r: String)
    ensures
        r@ == padded(s@, n as nat),
{
    let v = crate::text::chars_of(s);
    let mut r = s.to_owned();
    let mut k: usize = v.len();
    assert(r@ =~= s@ + Seq::new(0, |i: int| ' '));
    while k < n
        invariant
            s@.len() <= k,
            k <= n || k == s@.len(),
            r@ == s@ + Seq::new((k - s@.len()) as nat, |i: int| ' '),
        decreases n - k,
    {
        r.push(' ');
        assert(r@ =~= s@ + Seq::new((k + 1 - s@.len()) as nat, |i: int| ' '));
        k = k + 1;
    }
    assert(s@.len() >= n ==> r@ =~= s@);
    r
}

/// A line for each pair.
pub open spec fn pair_lines(indent: Seq<char>, l: Seq<(Seq<char>, Seq<char>)>) -> Seq<char> {
    concat(Seq::new(l.len(), |i: int| indent + l[i].0 + " = "@ + l[i].1 + "\n"@))
}

fn write_pairs(indent: &str, m: &StrMap<String>) -> (r: String)
    ensures
        r@ == pair_lines(indent@, listed(m@)),
{
    let n = m.len();
    let ghost l = listed(m@);
    let ghost parts = Seq::new(l.len(), |i: int| indent@ + l[i].0 + " = "@ + l[i].1 + "\n"@);
    let mut r = String::new();
    let mut i: usize = 0;
    let ghost none = Seq::<char>::empty();
    proof {
        lemma_concat_ends(none, parts);
        assert(r@ =~= none);
        assert(none + concat(parts) =~= concat(parts));
    }
    while i < n
        invariant
            i <= n,
            n == l.len(),
            l == listed(m@),
            parts == Seq::new(l.len(), |i: int| indent@ + l[i].0 + " = "@ + l[i].1 + "\n"@),
            r@ == none + concat(parts.take(i as int)),
        decreases n - i,
    {
        let (k, v) = m.at(i);
        let mut line = indent.to_owned();
        line.push_str(k.as_str());
        line.push_str(" = ");
        line.push_str(v.as_str());
        line.push_str("\n");
        r.push_str(line.as_str());
        proof {
            assert(parts[i as int] == line@);
            lemma_concat_next(none, parts, i as int);
        }
        i = i + 1;
    }
    r
}

/// What an activation block adds, under its scope.
pub open spec fn block_text(os: Seq<char>, b: BlockModel) -> Seq<char> {
    "  ["@ + os + "]\n"@ + concat(
        Seq::new(
            b.path_prepend.len(),
            |i: int| "    PATH += "@ + b.path_prepend[i] + "\n"@,
        ),
    ) + pair_lines("    "@, listed(b.env))
}

fn write_block(os: &str, b: &ActivationBlock) -> (r: String)
    ensures
        r@ == block_text(os@, b@),
{
    let mut r = "  [".to_owned();
    r.push_str(os);
    r.push_str("]\n");
    let ghost head = r@;
    let ghost ps = b@.path_prepend;
    let ghost parts = Seq::new(ps.len(), |i: int| "    PATH += "@ + ps[i] + "\n"@);
    let mut i: usize = 0;
    proof {
        lemma_concat_ends(head, parts);
    }
    while i < b.path_prepend.len()
        invariant
            i <= b.path_prepend.len(),
            ps == texts(b.path_prepend@),
            parts == Seq::new(ps.len(), |i: int| "    PATH += "@ + ps[i] + "\n"@),
            r@ == head + concat(parts.take(i as int)),
        decreases b.path_prepend.len() - i,
    {
        let mut line = "    PATH += ".to_owned();
        line.push_str(b.path_prepend[i].as_str());
        line.push_str("\n");
        r.push_str(line.as_str());
        proof {
            assert(parts[i as int] == line@);
            lemma_concat_next(head, parts, i as int);
        }
        i = i + 1;
    }
    r.push_str(write_pairs("    ", &b.env).as_str());
    r
}

/// How a tool is run.
pub open spec fn tool_line(indent: Seq<char>, name: Seq<char>, t: ToolModel) -> Seq<char> {
    indent + name + ": "@ + t.run + (if t.args.len() == 0 {
        Seq::empty()
    } else {
        " "@ + joined(t.args, " "@)
    }) + "\n"@
}

fn write_tool(indent: &str, name: &str, t: &Tool) -> (r: String)
    ensures
        r@ == tool_line(indent@, name@, t@),
{
    let mut r = indent.to_owned();
    r.push_str(name);
    r.push_str(": ");
    r.push_str(t.run.as_str());
    let mut args = String::new();
    assert(args@ =~= Seq::<char>::empty());
    assert(texts(t.args@).len() == t.args@.len());
    if t.args.len() > 0 {
        args = " ".to_owned();
        args.push_str(join(&t.args, " ").as_str());
    }
    r.push_str(args.as_str());
    r.push_str("\n");
    r
}

/// The activation of an env, block by block.
pub open spec fn blocks_text(m: Map<Seq<char>, BlockModel>) -> Seq<char> {
    let l = listed(m);
    concat(Seq::new(l.len(), |i: int| block_text(l[i].0, l[i].1)))
}

fn write_blocks(m: &StrMap<ActivationBlock>) -> (r: String)
    ensures
        r@ == blocks_text(m@),
{
    let n = m.len();
    let ghost l = listed(m@);
    let ghost parts = Seq::new(l.len(), |i: int| block_text(l[i].0, l[i].1));
    let mut r = String::new();
    let mut i: usize = 0;
    let ghost none = Seq::<char>::empty();
    proof {
        lemma_concat_ends(none, parts);
        assert(r@ =~= none);
        assert(none + concat(parts) =~= concat(parts));
    }
    while i < n
        invariant
            i <= n,
            n == l.len(),
            l == listed(m@),
            parts == Seq::new(l.len(), |i: int| block_text(l[i].0, l[i].1)),
            r@ == none + concat(parts.take(i as int)),
        decreases n - i,
    {
        let (k, v) = m.at(i);
        r.push_str(write_block(k.as_str(), v).as_str());
        proof {
            lemma_concat_next(none, parts, i as int);
        }
        i = i + 1;
    }
    r
}

/// The tools of an env with their variables.
pub open spec fn tools_text(m: Map<Seq<char>, ToolModel>) -> Seq<char> {
    let l = listed(m);
    concat(
        Seq::new(
            l.len(),
            |i: int|
                tool_line("  "@, l[i].0, l[i].1) + pair_lines("    env: "@, listed(l[i].1.env)),
        ),
    )
}

fn write_tools(m: &StrMap<Tool>) -> (r: String)
    ensures
        r@ == tools_text(m@),
{
    let n = m.len();
    let ghost l = listed(m@);
    let ghost parts = Seq::new(
        l.len(),
        |i: int| tool_line("  "@, l[i].0, l[i].1) + pair_lines("    env: "@, listed(l[i].1.env)),
    );
    let mut r = String::new();
    let mut i: usize = 0;
    let ghost none = Seq::<char>::empty();
    proof {
        lemma_concat_ends(none, parts);
        assert(r@ =~= none);
        assert(none + concat(parts) =~= concat(parts));
    }
    while i < n
        invariant
            i <= n,
            n == l.len(),
            l == listed(m@),
            parts == Seq::new(
                l.len(),
                |i: int|
                    tool_line("  "@, l[i].0, l[i].1) + pair_lines("    env: "@, listed(l[i].1.env)),
            ),
            r@ == none + concat(parts.take(i as int)),
        decreases n - i,
    {
        let (k, v) = m.at(i);
        let mut line = write_tool("  ", k.as_str(), v);
        line.push_str(write_pairs("    env: ", &v.env).as_str());
        r.push_str(line.as_str());
        proof {
            assert(parts[i as int] == line@);
            lemma_concat_next(none, parts, i as int);
        }
        i = i + 1;
    }
    r
}

/// The configuration of an env called `name`.
pub open spec fn config_text(name: Seq<char>, m: ManifestModel) -> Seq<char> {
    let no_blocks = m.activation == Map::<Seq<char>, BlockModel>::empty();
    let no_tools = m.tools == Map::<Seq<char>, ToolModel>::empty();
    if no_blocks && no_tools {
        "No activation or tools configured for '"@ + name + "'.\n"@
    } else {
        (if no_blocks {
            Seq::empty()
        } else {
            "Activation for '"@ + name + "':\n"@ + blocks_text(m.activation)
        }) + (if no_tools {
            Seq::empty()
        } else {
            "Tools for '"@ + name + "':\n"@ + tools_text(m.tools)
        })
    }
}

/// The configuration of an env called `name`.
pub fn config_show(name: &str, m: &Manifest) -> (r: String)
    ensures
        r@ == config_text(name@, m@),
{
    let no_blocks = m.activation.is_empty();
    let no_tools = m.tools.is_empty();
    if no_blocks && no_tools {
        let mut r = "No activation or tools configured for '".to_owned();
        r.push_str(name);
        r.push_str("'.\n");
        return r;
    }
    let mut r = String::new();
    assert(r@ =~= Seq::<char>::empty());
    if !no_blocks {
        r = "Activation for '".to_owned();
        r.push_str(name);
        r.push_str("':\n");
        r.push_str(write_blocks(&m.activation).as_str());
    }
    let mut t = String::new();
    assert(t@ =~= Seq::<char>::empty());
    if !no_tools {
        t = "Tools for '".to_owned();
        t.push_str(name);
        t.push_str("':\n");
        t.push_str(write_tools(&m.tools).as_str());
    }
    r.push_str(t.as_str());
    r
}

/// Whether an env has moved since it was last used. `here` tells whether the
/// last prefix, if there is one, is the env's path.
pub open spec fn drift_text(last: Option<Seq<char>>, here: bool) -> Seq<char> {
    match last {
        Some(p) => if here {
            "up to date"@
        } else {
            "needs relocation (last mounted at "@ + p + ")"@
        },
        None => "never activated on this machine"@,
    }
}

fn write_drift(last: Option<&str>, here: bool) -> (r: String)
    ensures
        r@ == drift_text(crate::paths::opt_view(last), here),
{
    match last {
        Some(p) => if here {
            "up to date".to_owned()
        } else {
            let mut r = "needs relocation (last mounted at ".to_owned();
            r.push_str(p);
            r.push_str(")");
            r
        },
        None => "never activated on this machine".to_owned(),
    }
}

/// The line of one package.
pub open spec fn package_line(p: PackageModel) -> Seq<char> {
    "    "@ + p.name + " "@ + p.version + " \u{2014} "@ + p.source + "\n"@
}

/// The packages of an env.
pub open spec fn packages_text(s: Seq<PackageModel>) -> Seq<char> {
    if s.len() == 0 {
        "  packages: (none)\n"@
    } else {
        "  packages:\n"@ + concat(Seq::new(s.len(), |i: int| package_line(s[i])))
    }
}

fn write_packages(v: &Vec<PackageRef>) -> (r: String)
    ensures
        r@ == packages_text(packages_model(v@)),
{
    let ghost s = packages_model(v@);
    let ghost parts = Seq::new(s.len(), |i: int| package_line(s[i]));
    if v.len() == 0 {
        return "  packages: (none)\n".to_owned();
    }
    let mut r = "  packages:\n".to_owned();
    let ghost head = r@;
    let mut i: usize = 0;
    proof {
        lemma_concat_ends(head, parts);
    }
    while i < v.len()
        invariant
            i <= v.len(),
            s == packages_model(v@),
            parts == Seq::new(s.len(), |i: int| package_line(s[i])),
            r@ == head + concat(parts.take(i as int)),
        decreases v.len() - i,
    {
        let p = &v[i];
        let mut line = "    ".to_owned();
        line.push_str(p.name.as_str());
        line.push_str(" ");
        line.push_str(p.version.as_str());
        line.push_str(" \u{2014} ");
        line.push_str(p.source.as_str());
        line.push_str("\n");
        r.push_str(line.as_str());
        proof {
            assert(s[i as int] == p@);
            assert(parts[i as int] == line@);
            lemma_concat_next(head, parts, i as int);
        }
        i = i + 1;
    }
    r
}

/// The tools of an env, one line each.
pub open spec fn tool_lines(m: Map<Seq<char>, ToolModel>) -> Seq<char> {
    let l = listed(m);
    "  tools:\n"@ + concat(Seq::new(l.len(), |i: int| tool_line("    "@, l[i].0, l[i].1)))
}

fn write_tool_lines(m: &StrMap<Tool>) -> (r: String)
    ensures
        r@ == tool_lines(m@),
{
    let n = m.len();
    let ghost l = listed(m@);
    let ghost parts = Seq::new(l.len(), |i: int| tool_line("    "@, l[i].0, l[i].1));
    let mut r = "  tools:\n".to_owned();
    let ghost head = r@;
    let mut i: usize = 0;
    proof {
        lemma_concat_ends(head, parts);
    }
    while i < n
        invariant
            i <= n,
            n == l.len(),
            l == listed(m@),
            parts == Seq::new(l.len(), |i: int| tool_line("    "@, l[i].0, l[i].1)),
            r@ == head + concat(parts.take(i as int)),
        decreases n - i,
    {
        let (k, v) = m.at(i);
        r.push_str(write_tool("    ", k.as_str(), v).as_str());
        proof {
            lemma_concat_next(head, parts, i as int);
        }
        i = i + 1;
    }
    r
}

/// How much an activation block adds.
pub open spec fn count_line(os: Seq<char>, b: BlockModel) -> Seq<char> {
    "    ["@ + os + "] "@ + digits(b.path_prepend.len()) + " path add(s), "@ + digits(
        listed(b.env).len(),
    ) + " env var(s)\n"@
}

/// How much each activation block adds.
pub open spec fn count_lines(m: Map<Seq<char>, BlockModel>) -> Seq<char> {
    let l = listed(m);
    "  activation:\n"@ + concat(Seq::new(l.len(), |i: int| count_line(l[i].0, l[i].1)))
}

fn write_count_lines(m: &StrMap<ActivationBlock>) -> (r: String)
    ensures
        r@ == count_lines(m@),
{
    let n = m.len();
    let ghost l = listed(m@);
    let ghost parts = Seq::new(l.len(), |i: int| count_line(l[i].0, l[i].1));
    let mut r = "  activation:\n".to_owned();
    let ghost head = r@;
    let mut i: usize = 0;
    proof {
        lemma_concat_ends(head, parts);
    }
    while i < n
        invariant
            i <= n,
            n == l.len(),
            l == listed(m@),
            parts == Seq::new(l.len(), |i: int| count_line(l[i].0, l[i].1)),
            r@ == head + concat(parts.take(i as int)),
        decreases n - i,
    {
        let (k, b) = m.at(i);
        assert(texts(b.path_prepend@).len() == b.path_prepend@.len());
        let mut line = "    [".to_owned();
        line.push_str(k.as_str());
        line.push_str("] ");
        line.push_str(decimal(b.path_prepend.len() as u128).as_str());
        line.push_str(" path add(s), ");
        line.push_str(decimal(b.env.len() as u128).as_str());
        line.push_str(" env var(s)\n");
        r.push_str(line.as_str());
        proof {
            assert(parts[i as int] == line@);
            lemma_concat_next(head, parts, i as int);
        }
        i = i + 1;
    }
    r
}

/// The summary of an env: name and version, path, relocation status, packages,
/// tools and activation.
pub open spec fn info_text(
    m: ManifestModel,
    root: Seq<char>,
    last: Option<Seq<char>>,
    here: bool,
    indexed: nat,
) -> Seq<char> {
    m.name + " "@ + m.version + "\n"@ + (match m.description {
        Some(d) => "  "@ + d + "\n"@,
        None => Seq::empty(),
    }) + "  path: "@ + root + "\n  relocation: "@ + drift_text(last, here) + " ("@ + digits(indexed)
        + " indexed file(s))\n"@ + packages_text(m.packages) + (if m.tools == Map::<
        Seq<char>,
        ToolModel,
    >::empty() {
        Seq::empty()
    } else {
        tool_lines(m.tools)
    }) + (if m.activation == Map::<Seq<char>, BlockModel>::empty() {
        Seq::empty()
    } else {
        count_lines(m.activation)
    })
}

/// The summary of an env. `indexed` is how many files carry its prefix.
pub fn info(m: &Manifest, root: &str, last: Option<&str>, here: bool, indexed: usize) -> (r: String)
    ensures
        r@ == info_text(m@, root@, crate::paths::opt_view(last), here, indexed as nat),
{
    let mut r = m.name.clone();
    r.push_str(" ");
    r.push_str(m.version.as_str());
    r.push_str("\n");
    let mut d = String::new();
    assert(d@ =~= Seq::<char>::empty());
    if let Some(x) = &m.description {
        d = "  ".to_owned();
        d.push_str(x.as_str());
        d.push_str("\n");
    }
    r.push_str(d.as_str());
    r.push_str("  path: ");
    r.push_str(root);
    r.push_str("\n  relocation: ");
    r.push_str(write_drift(last, here).as_str());
    r.push_str(" (");
    r.push_str(decimal(indexed as u128).as_str());
    r.push_str(" indexed file(s))\n");
    r.push_str(write_packages(&m.packages).as_str());
    let mut t = String::new();
    assert(t@ =~= Seq::<char>::empty());
    if !m.tools.is_empty() {
        t = write_tool_lines(&m.tools);
    }
    r.push_str(t.as_str());
    let mut a = String::new();
    assert(a@ =~= Seq::<char>::empty());
    if !m.activation.is_empty() {
        a = write_count_lines(&m.activation);
    }
    r.push_str(a.as_str());
    r
}

/// What `verify` tells of an env.
pub open spec fn verify_text(
    m: ManifestModel,
    root: Seq<char>,
    last: Option<Seq<char>>,
    here: bool,
    indexed: nat,
) -> Seq<char> {
    "Env '"@ + m.name + "' v"@ + m.version + " at "@ + root + "\nRelocate entries: "@ + digits(
        indexed,
    ) + "\n"@ + (match last {
        Some(p) => if here {
            "Prefix unchanged since last activate.\n"@
        } else {
            "Prefix drift detected: last activated at "@ + p + " but currently mounted at "@ + root
                + ". Relocation needed.\n"@
        },
        None => "Env has never been activated on this machine.\n"@,
    })
}

/// What `verify` tells of an env.
pub fn verify(m: &Manifest, root: &str, last: Option<&str>, here: bool, indexed: usize) -> (r:
    String)
    ensures
        r@ == verify_text(m@, root@, crate::paths::opt_view(last), here, indexed as nat),
{
    let mut r = "Env '".to_owned();
    r.push_str(m.name.as_str());
    r.push_str("' v");
    r.push_str(m.version.as_str());
    r.push_str(" at ");
    r.push_str(root);
    r.push_str("\nRelocate entries: ");
    r.push_str(decimal(indexed as u128).as_str());
    r.push_str("\n");
    let tail = match last {
        Some(p) => if here {
            "Prefix unchanged since last activate.\n".to_owned()
        } else {
            let mut t = "Prefix drift detected: last activated at ".to_owned();
            t.push_str(p);
            t.push_str(" but currently mounted at ");
            t.push_str(root);
            t.push_str(". Relocation needed.\n");
            t
        },
        None => "Env has never been activated on this machine.\n".to_owned(),
    };
    r.push_str(tail.as_str());
    r
}

/// A row of the list of envs.
pub open spec fn env_row(name: Seq<char>, present: bool, path: Seq<char>) -> Seq<char> {
    padded(name, 24) + " "@ + padded(
        if present {
            "ok"@
        } else {
            "missing"@
        },
        8,
    ) + " "@ + path + "\n"@
}

/// The list of registered envs. `present` tells of each, in the order of their
/// names, whether it is there; one that it does not tell of is missing.
pub open spec fn list_text(m: Map<Seq<char>, Seq<char>>, present: Seq<bool>) -> Seq<char> {
    let l = listed(m);
    if l.len() == 0 {
        "No envs registered. Use `toolbox register <path>`.\n"@
    } else {
        padded("NAME"@, 24) + " "@ + padded("STATUS"@, 8) + " PATH\n"@ + concat(
            Seq::new(
                l.len(),
                |i: int| env_row(l[i].0, i < present.len() && present[i], l[i].1),
            ),
        )
    }
}

/// The list of registered envs.
pub fn list(reg: &Registry, present: &Vec<bool>) -> (r: String)
    ensures
        r@ == list_text(reg@, present@),
{
    let n = reg.envs.len();
    let ghost l = listed(reg@);
    if n == 0 {
        return "No envs registered. Use `toolbox register <path>`.\n".to_owned();
    }
    let mut r = pad("NAME", 24);
    r.push_str(" ");
    r.push_str(pad("STATUS", 8).as_str());
    r.push_str(" PATH\n");
    let ghost head = r@;
    let ghost parts = Seq::new(
        l.len(),
        |i: int| env_row(l[i].0, i < present@.len() && present@[i], l[i].1),
    );
    let mut i: usize = 0;
    proof {
        lemma_concat_ends(head, parts);
    }
    while i < n
        invariant
            i <= n,
            n == l.len(),
            l == listed(reg@),
            parts == Seq::new(
                l.len(),
                |i: int| env_row(l[i].0, i < present@.len() && present@[i], l[i].1),
            ),
            r@ == head + concat(parts.take(i as int)),
        decreases n - i,
    {
        let (k, e) = reg.envs.at(i);
        let there = i < present.len() && present[i];
        let mut line = pad(k.as_str(), 24);
        line.push_str(" ");
        line.push_str(
            pad(
                if there {
                    "ok"
                } else {
                    "missing"
                },
                8,
            ).as_str(),
        );
        line.push_str(" ");
        line.push_str(e.path.as_str());
        line.push_str("\n");
        r.push_str(line.as_str());
        proof {
            assert(parts[i as int] == line@);
            lemma_concat_next(head, parts, i as int);
        }
        i = i + 1;
    }
    r
}

/// A row of the list of services.
pub open spec fn service_row(s: ServiceState, alive: bool, now: u64) -> Seq<char> {
    let up = if now >= s.started_at {
        (now - s.started_at) as nat
    } else {
        0
    };
    padded(s.tool@, 20) + " "@ + padded(
        if alive {
            "running"@
        } else {
            "stopped"@
        },
        9,
    ) + " "@ + padded(
        if alive {
            digits(up) + "s"@
        } else {
            "-"@
        },
        8,
    ) + " "@ + digits(s.pid as nat) + "\n"@
}

/// The list of an env's services. `alive` tells of each whether it runs; one
/// that it does not tell of does not.
pub open spec fn status_text(
    env: Seq<char>,
    v: Seq<ServiceState>,
    alive: Seq<bool>,
    now: u64,
) -> Seq<char> {
    if v.len() == 0 {
        "No services in '"@ + env + "'.\n"@
    } else {
        padded("SERVICE"@, 20) + " "@ + padded("STATUS"@, 9) + " "@ + padded("UPTIME"@, 8)
            + " PID\n"@ + concat(
            Seq::new(
                v.len(),
                |i: int| service_row(v[i], i < alive.len() && alive[i], now),
            ),
        )
    }
}

/// The list of an env's services.
pub fn status(env: &str, v: &Vec<ServiceState>, alive: &Vec<bool>, now: u64) -> (r: String)
    ensures
        r@ == status_text(env@, v@, alive@, now),
{
    if v.len() == 0 {
        let mut r = "No services in '".to_owned();
        r.push_str(env);
        r.push_str("'.\n");
        return r;
    }
    let mut r = pad("SERVICE", 20);
    r.push_str(" ");
    r.push_str(pad("STATUS", 9).as_str());
    r.push_str(" ");
    r.push_str(pad("UPTIME", 8).as_str());
    r.push_str(" PID\n");
    let ghost head = r@;
    let ghost parts = Seq::new(
        v@.len(),
        |i: int| service_row(v@[i], i < alive@.len() && alive@[i], now),
    );
    let mut i: usize = 0;
    proof {
        lemma_concat_ends(head, parts);
    }
    while i < v.len()
        invariant
            i <= v.len(),
            parts == Seq::new(
                v@.len(),
                |i: int| service_row(v@[i], i < alive@.len() && alive@[i], now),
            ),
            r@ == head + concat(parts.take(i as int)),
        decreases v.len() - i,
    {
        let s = &v[i];
        let runs = i < alive.len() && alive[i];
        let mut up = "-".to_owned();
        if runs {
            up = decimal(s.uptime_secs(now) as u128);
            up.push_str("s");
        }
        let mut line = pad(s.tool.as_str(), 20);
        line.push_str(" ");
        line.push_str(
            pad(
                if runs {
                    "running"
                } else {
                    "stopped"
                },
                9,
            ).as_str(),
        );
        line.push_str(" ");
        line.push_str(pad(up.as_str(), 8).as_str());
        line.push_str(" ");
        line.push_str(decimal(s.pid as u128).as_str());
        line.push_str("\n");
        r.push_str(line.as_str());
        proof {
            assert(parts[i as int] == line@);
            lemma_concat_next(head, parts, i as int);
        }
        i = i + 1;
    }
    r
}

/// The names of the declared tools, or `(none)`.
pub open spec fn tools_listed(m: ManifestModel) -> Seq<char> {
    let l = listed(m.tools);
    if l.len() == 0 {
        "(none)"@
    } else {
        joined(Seq::new(l.len(), |i: int| l[i].0), ", "@)
    }
}

/// The names of the declared tools, or `(none)`.
pub fn declared_tools(m: &Manifest) -> (r: String)
    ensures
        r@ == tools_listed(m@),
{
    let n = m.tools.len();
    if n == 0 {
        return "(none)".to_owned();
    }
    let ghost l = listed(m@.tools);
    let ghost all = Seq::new(l.len(), |i: int| l[i].0);
    let mut names: Vec<String> = Vec::new();
    let mut i: usize = 0;
    while i < n
        invariant
            i <= n,
            n == l.len(),
            l == listed(m@.tools),
            all == Seq::new(l.len(), |i: int| l[i].0),
            texts(names@) == all.take(i as int),
        decreases n - i,
    {
        let (k, _) = m.tools.at(i);
        let ghost before = texts(names@);
        names.push(k.clone());
        assert(texts(names@) =~= before.push(k@));
        assert(all.take(i + 1) =~= all.take(i as int).push(all[i as int]));
        i = i + 1;
    }
    assert(all.take(all.len() as int) =~= all);
    join(&names, ", ")
}

// ---- laws ----

proof fn lemma_concat_push(parts: Seq<Seq<char>>, part: Seq<char>)
    ensures
        concat(parts.push(part)) == concat(parts) + part,
{
    assert(parts.push(part).drop_last() =~= parts);
}

proof fn lemma_concat_holds(parts: Seq<Seq<char>>, i: int)
    requires
        0 <= i < parts.len(),
    ensures
        occurs_in(concat(parts), parts[i]),
    decreases parts.len(),
{
    let head = concat(parts.drop_last());
    let last = parts.last();
    if i < parts.len() - 1 {
        lemma_concat_holds(parts.drop_last(), i);
        assert(parts.drop_last()[i] == parts[i]);
        lemma_holds_on(Seq::empty(), head, last, parts[i]);
        assert(Seq::<char>::empty() + head + last =~= head + last);
    } else {
        assert((head + last).subrange(head.len() as int, (head + last).len() as int) =~= last);
        assert(occurs_at(concat(parts), parts[i], head.len() as int));
    }
}

proof fn lemma_holds_on(a: Seq<char>, s: Seq<char>, b: Seq<char>, x: Seq<char>)
    requires
        occurs_in(s, x),
    ensures
        occurs_in(a + s + b, x),
{
    let i = choose|i: int| #[trigger] occurs_at(s, x, i);
    let n = a.len() + i;
    assert((a + s + b).subrange(n, n + x.len()) =~= s.subrange(i, i + x.len()));
    assert(occurs_at(a + s + b, x, n));
}

/// A padded text starts with the text, goes on with blanks, and is as long as was
/// asked or as the text.
pub proof fn law_padding(s: Seq<char>, n: nat, i: int)
    ensures
        s.is_prefix_of(padded(s, n)),
        padded(s, n).len() == (if s.len() >= n {
            s.len() as int
        } else {
            n as int
        }),
        s.len() <= i < padded(s, n).len() ==> padded(s, n)[i] == ' ',
{
    assert(s =~= padded(s, n).subrange(0, s.len() as int));
}

/// The packages are shown one to a line, each with its name, its version and its
/// source, in their order; where there are none, that is said.
pub proof fn law_every_package_is_shown(s: Seq<PackageModel>, p: PackageModel)
    ensures
        packages_text(Seq::empty()) == "  packages: (none)\n"@,
        packages_text(seq![p]) == "  packages:\n"@ + ("    "@ + p.name + " "@ + p.version
            + " \u{2014} "@ + p.source + "\n"@),
        s.len() > 0 ==> packages_text(s.push(p)) == packages_text(s) + ("    "@ + p.name + " "@
            + p.version + " \u{2014} "@ + p.source + "\n"@),
{
    let all = Seq::new(s.len(), |i: int| package_line(s[i]));
    let more = Seq::new(s.push(p).len(), |i: int| package_line(s.push(p)[i]));
    let one = Seq::new(seq![p].len(), |i: int| package_line(seq![p][i]));
    lemma_concat_push(all, package_line(p));
    assert(more =~= all.push(package_line(p)));
    lemma_concat_push(Seq::empty(), package_line(p));
    assert(one =~= Seq::<Seq<char>>::empty().push(package_line(p)));
    assert(Seq::<char>::empty() + package_line(p) =~= package_line(p));
    assert("  packages:\n"@ + (concat(all) + package_line(p)) =~= "  packages:\n"@ + concat(all)
        + package_line(p));
}

/// Every registered env is shown with its path, `ok` where it is there and
/// `missing` where it is not.
pub proof fn law_every_env_is_shown(
    m: Map<Seq<char>, Seq<char>>,
    present: Seq<bool>,
    name: Seq<char>,
)
    requires
        listable(m),
        m.contains_key(name),
    ensures
        exists|i: int|
            0 <= i < listed(m).len() && (#[trigger] listed(m)[i]).0 == name && occurs_in(
                list_text(m, present),
                padded(name, 24) + " "@ + padded(
                    if i < present.len() && present[i] {
                        "ok"@
                    } else {
                        "missing"@
                    },
                    8,
                ) + " "@ + m[name] + "\n"@,
            ),
{
    let l = listed(m);
    law_listing_is_complete(m, name);
    let i = choose|i: int| 0 <= i < l.len() && (#[trigger] l[i]).0 == name;
    let rows = Seq::new(
        l.len(),
        |i: int| env_row(l[i].0, i < present.len() && present[i], l[i].1),
    );
    lemma_concat_holds(rows, i);
    let head = padded("NAME"@, 24) + " "@ + padded("STATUS"@, 8) + " PATH\n"@;
    lemma_holds_on(head, concat(rows), Seq::empty(), rows[i]);
    assert(head + concat(rows) + Seq::<char>::empty() =~= list_text(m, present));
}

/// The services are shown one to a line, in their order: a running one with how
/// long it has run, a stopped one without, each with its process.
pub proof fn law_every_service_is_shown(
    env: Seq<char>,
    v: Seq<ServiceState>,
    s: ServiceState,
    alive: Seq<bool>,
    now: u64,
)
    ensures
        status_text(env, Seq::empty(), alive, now) == "No services in '"@ + env + "'.\n"@,
        v.len() > 0 ==> status_text(env, v.push(s), alive, now) == status_text(env, v, alive, now)
            + service_row(s, v.len() < alive.len() && alive[v.len() as int], now),
        now >= s.started_at ==> service_row(s, true, now) == padded(s.tool@, 20) + " "@ + padded(
            "running"@,
            9,
        ) + " "@ + padded(digits((now - s.started_at) as nat) + "s"@, 8) + " "@ + digits(
            s.pid as nat,
        ) + "\n"@,
        now < s.started_at ==> service_row(s, true, now) == padded(s.tool@, 20) + " "@ + padded(
            "running"@,
            9,
        ) + " "@ + padded(digits(0) + "s"@, 8) + " "@ + digits(s.pid as nat) + "\n"@,
        service_row(s, false, now) == padded(s.tool@, 20) + " "@ + padded("stopped"@, 9) + " "@
            + padded("-"@, 8) + " "@ + digits(s.pid as nat) + "\n"@,
{
    let head = padded("SERVICE"@, 20) + " "@ + padded("STATUS"@, 9) + " "@ + padded("UPTIME"@, 8)
        + " PID\n"@;
    let w = v.push(s);
    let all = Seq::new(v.len(), |i: int| service_row(v[i], i < alive.len() && alive[i], now));
    let more = Seq::new(w.len(), |i: int| service_row(w[i], i < alive.len() && alive[i], now));
    let row = service_row(s, v.len() < alive.len() && alive[v.len() as int], now);
    lemma_concat_push(all, row);
    assert(more =~= all.push(row));
    assert(head + (concat(all) + row) =~= head + concat(all) + row);
}

/// A tool is shown with its name, its program and all its arguments, between
/// blanks.
pub proof fn law_tool_lines(indent: Seq<char>, name: Seq<char>, t: ToolModel)
    ensures
        t.args.len() == 0 ==> tool_line(indent, name, t) == indent + name + ": "@ + t.run + "\n"@,
        t.args.len() > 0 ==> tool_line(indent, name, t) == indent + name + ": "@ + t.run + " "@
            + joined(t.args, " "@) + "\n"@,
{
    if t.args.len() == 0 {
        assert(tool_line(indent, name, t) =~= indent + name + ": "@ + t.run + "\n"@);
    } else {
        assert(tool_line(indent, name, t) =~= indent + name + ": "@ + t.run + " "@ + joined(
            t.args,
            " "@,
        ) + "\n"@);
    }
}

/// A block is shown with its scope, every path that it prepends in order, and
/// every variable that it sets.
pub proof fn law_block_lines(os: Seq<char>, b: BlockModel, i: int, k: Seq<char>)
    requires
        listable(b.env),
    ensures
        ("  ["@ + os + "]\n"@).is_prefix_of(block_text(os, b)),
        0 <= i < b.path_prepend.len() ==> occurs_in(
            block_text(os, b),
            "    PATH += "@ + b.path_prepend[i] + "\n"@,
        ),
        b.env.contains_key(k) ==> occurs_in(
            block_text(os, b),
            "    "@ + k + " = "@ + b.env[k] + "\n"@,
        ),
{
    let head = "  ["@ + os + "]\n"@;
    let ps = b.path_prepend;
    let parts = Seq::new(ps.len(), |i: int| "    PATH += "@ + ps[i] + "\n"@);
    let vars = pair_lines("    "@, listed(b.env));
    assert(block_text(os, b) == head + concat(parts) + vars);
    assert(head =~= block_text(os, b).subrange(0, head.len() as int));
    if 0 <= i < ps.len() {
        lemma_concat_holds(parts, i);
        lemma_holds_on(head, concat(parts), vars, parts[i]);
    }
    if b.env.contains_key(k) {
        let l = listed(b.env);
        law_listing_is_complete(b.env, k);
        let j = choose|j: int| 0 <= j < l.len() && (#[trigger] l[j]).0 == k;
        let lines = Seq::new(l.len(), |i: int| "    "@ + l[i].0 + " = "@ + l[i].1 + "\n"@);
        lemma_concat_holds(lines, j);
        lemma_holds_on(head + concat(parts), vars, Seq::empty(), lines[j]);
        assert(head + concat(parts) + vars + Seq::<char>::empty() =~= block_text(os, b));
    }
}

/// The configuration of an env shows every block and every tool, with its
/// variables; where there is neither, that is said.
pub proof fn law_configuration_is_shown(name: Seq<char>, m: ManifestModel, k: Seq<char>)
    requires
        listable(m.activation),
        listable(m.tools),
    ensures
        m.activation == Map::<Seq<char>, BlockModel>::empty() && m.tools == Map::<
            Seq<char>,
            ToolModel,
        >::empty() ==> config_text(name, m) == "No activation or tools configured for '"@ + name
            + "'.\n"@,
        m.activation.contains_key(k) ==> occurs_in(
            config_text(name, m),
            block_text(k, m.activation[k]),
        ),
        m.tools.contains_key(k) ==> occurs_in(
            config_text(name, m),
            tool_line("  "@, k, m.tools[k]) + pair_lines("    env: "@, listed(m.tools[k].env)),
        ),
{
    let none = Seq::<char>::empty();
    let a = if m.activation == Map::<Seq<char>, BlockModel>::empty() {
        none
    } else {
        "Activation for '"@ + name + "':\n"@ + blocks_text(m.activation)
    };
    let b = if m.tools == Map::<Seq<char>, ToolModel>::empty() {
        none
    } else {
        "Tools for '"@ + name + "':\n"@ + tools_text(m.tools)
    };
    if m.activation.contains_key(k) {
        let l = listed(m.activation);
        law_listing_is_complete(m.activation, k);
        let j = choose|j: int| 0 <= j < l.len() && (#[trigger] l[j]).0 == k;
        let parts = Seq::new(l.len(), |i: int| block_text(l[i].0, l[i].1));
        lemma_concat_holds(parts, j);
        lemma_holds_on("Activation for '"@ + name + "':\n"@, concat(parts), b, parts[j]);
        assert(config_text(name, m) == a + b);
    }
    if m.tools.contains_key(k) {
        let l = listed(m.tools);
        law_listing_is_complete(m.tools, k);
        let j = choose|j: int| 0 <= j < l.len() && (#[trigger] l[j]).0 == k;
        let parts = Seq::new(
            l.len(),
            |i: int|
                tool_line("  "@, l[i].0, l[i].1) + pair_lines("    env: "@, listed(l[i].1.env)),
        );
        lemma_concat_holds(parts, j);
        let title = "Tools for '"@ + name + "':\n"@;
        lemma_holds_on(a + title, concat(parts), none, parts[j]);
        assert(config_text(name, m) == a + b);
        assert(a + title + concat(parts) + none =~= a + (title + concat(parts)));
    }
}

/// The summary of an env tells its name, version, description, path and packages,
/// its tools and blocks where it has some, and whether it has to be relocated: it
/// is up to date exactly where it was last used here.
pub proof fn law_summary(
    m: ManifestModel,
    root: Seq<char>,
    last: Option<Seq<char>>,
    here: bool,
    indexed: nat,
)
    ensures
        ({
            let all = info_text(m, root, last, here, indexed);
            let about = if m.description is Some {
                "  "@ + m.description->0 + "\n"@
            } else {
                Seq::empty()
            };
            let tools = if m.tools == Map::<Seq<char>, ToolModel>::empty() {
                Seq::empty()
            } else {
                tool_lines(m.tools)
            };
            let blocks = if m.activation == Map::<Seq<char>, BlockModel>::empty() {
                Seq::empty()
            } else {
                count_lines(m.activation)
            };
            all == m.name + " "@ + m.version + "\n"@ + about + "  path: "@ + root
                + "\n  relocation: "@ + drift_text(last, here) + " ("@ + digits(indexed)
                + " indexed file(s))\n"@ + packages_text(m.packages) + tools + blocks
        }),
        last is None ==> drift_text(last, here) == "never activated on this machine"@,
        last is Some && here ==> drift_text(last, here) == "up to date"@,
        last is Some && !here ==> drift_text(last, here) == "needs relocation (last mounted at "@
            + last->0 + ")"@,
{
}

/// The summary names every tool of the env and counts what each block adds.
pub proof fn law_summary_names_tools(m: ManifestModel, k: Seq<char>)
    requires
        listable(m.tools),
        listable(m.activation),
    ensures
        m.tools.contains_key(k) ==> occurs_in(
            tool_lines(m.tools),
            tool_line("    "@, k, m.tools[k]),
        ),
        m.activation.contains_key(k) ==> occurs_in(
            count_lines(m.activation),
            "    ["@ + k + "] "@ + digits(m.activation[k].path_prepend.len()) + " path add(s), "@
                + digits(listed(m.activation[k].env).len()) + " env var(s)\n"@,
        ),
{
    let none = Seq::<char>::empty();
    if m.tools.contains_key(k) {
        let l = listed(m.tools);
        law_listing_is_complete(m.tools, k);
        let j = choose|j: int| 0 <= j < l.len() && (#[trigger] l[j]).0 == k;
        let parts = Seq::new(l.len(), |i: int| tool_line("    "@, l[i].0, l[i].1));
        lemma_concat_holds(parts, j);
        lemma_holds_on("  tools:\n"@, concat(parts), none, parts[j]);
        assert("  tools:\n"@ + concat(parts) + none =~= tool_lines(m.tools));
    }
    if m.activation.contains_key(k) {
        let l = listed(m.activation);
        law_listing_is_complete(m.activation, k);
        let j = choose|j: int| 0 <= j < l.len() && (#[trigger] l[j]).0 == k;
        let parts = Seq::new(l.len(), |i: int| count_line(l[i].0, l[i].1));
        lemma_concat_holds(parts, j);
        lemma_holds_on("  activation:\n"@, concat(parts), none, parts[j]);
        assert("  activation:\n"@ + concat(parts) + none =~= count_lines(m.activation));
    }
}

/// A check of an env tells a drift exactly where the env was last used elsewhere.
pub proof fn law_drift_is_told(
    m: ManifestModel,
    root: Seq<char>,
    last: Option<Seq<char>>,
    here: bool,
    indexed: nat,
)
    ensures
        ({
            let head = "Env '"@ + m.name + "' v"@ + m.version + " at "@ + root
                + "\nRelocate entries: "@ + digits(indexed) + "\n"@;
            &&& last is None ==> verify_text(m, root, last, here, indexed) == head
                + "Env has never been activated on this machine.\n"@
            &&& last is Some && here ==> verify_text(m, root, last, here, indexed) == head
                + "Prefix unchanged since last activate.\n"@
            &&& last is Some && !here ==> verify_text(m, root, last, here, indexed) == head + (
            "Prefix drift detected: last activated at "@ + last->0
                + " but currently mounted at "@ + root + ". Relocation needed.\n"@)
        }),
{
}

/// The declared tools are named, all of them, in order and between commas.
pub proof fn law_declared_tools(m: ManifestModel)
    requires
        listable(m.tools),
    ensures
        m.tools == Map::<Seq<char>, ToolModel>::empty() ==> tools_listed(m) == "(none)"@,
        m.tools != Map::<Seq<char>, ToolModel>::empty() ==> tools_listed(m) == joined(
            listed(m.tools).map_values(|e: (Seq<char>, ToolModel)| e.0),
            ", "@,
        ),
{
    let l = listed(m.tools);
    if l.len() > 0 {
        law_listing_is_complete(m.tools, l[0].0);
        assert(m.tools.contains_key(l[0].0));
    } else {
        assert forall|k: Seq<char>| !m.tools.contains_key(k) by {
            law_listing_is_complete(m.tools, k);
        }
        assert(m.tools =~= Map::<Seq<char>, ToolModel>::empty());
    }
    assert(Seq::new(l.len(), |i: int| l[i].0) =~= l.map_values(
        |e: (Seq<char>, ToolModel)| e.0,
    ));
}

} // verus!
