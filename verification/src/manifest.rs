//! The manifest at the root of an env, and of a package: its model, its TOML+
//! text, and the reading of that text.

use crate::scan::{calm, settled};
use crate::strmap::{
    lemma_map_of_at, lemma_map_of_keys, listable, listed, lists, map_of, rising, Dup, StrMap,
};
use crate::text::{decimal, digits, lemma_text_lt_transitive, opt_text, same, text_lt, texts};
use crate::tomlp::{
    ascii_tree, bare_key, bare_keys, dict_model, dump, dumped, entry, field, firm, flat, flat_table,
    head_rules, lemma_dict_model, lemma_list_model, lemma_unquoted_text, list_model, meta_pairs,
    mild, minlen, name_broken, name_rules, named_head, no_rules, notes, opt_str, optional_text,
    outcome, parse_strict, pattern, printable, printable_dict, printable_tree, readable, reads_as,
    reads_only_as, req_str, required, required_text, rules_met, shallow, typed, uncut, unmarked,
    version_broken, version_rules, well_named, Doc, DocModel, ErrorModel, Note, NoteModel,
    ReadError, Tree, TreeModel, Wanted, MAX_LEVELS,
};
use vstd::prelude::*;

verus! {

/// The manifest at the root of an env.
pub const MANIFEST_FILE: &'static str = "toolbox-env.tomlp";

/// The manifest that a package author may place at the root of a package tree
/// to declare metadata and activation contributions.
pub const PACKAGE_MANIFEST_FILE: &'static str = "toolbox-package.tomlp";

/// When the supervisor of a service starts it again.
#[derive(Debug, Clone, Copy, PartialEq, Eq, Structural)]
pub enum RestartPolicy {
    No,
    OnFailure,
    Always,
}

/// The word for a restart policy.
pub open spec fn policy_word(p: RestartPolicy) -> Seq<char> {
    match p {
        RestartPolicy::No => "no"@,
        RestartPolicy::OnFailure => "on-failure"@,
        RestartPolicy::Always => "always"@,
    }
}

/// The policy that a word stands for.
pub open spec fn policy_of(s: Seq<char>) -> Option<RestartPolicy> {
    if s == "no"@ {
        Some(RestartPolicy::No)
    } else if s == "on-failure"@ {
        Some(RestartPolicy::OnFailure)
    } else if s == "always"@ {
        Some(RestartPolicy::Always)
    } else {
        None
    }
}

impl RestartPolicy {
    /// The word for the policy.
    pub fn word(self) -> (r: String)
        ensures
            r@ == policy_word(self),
    {
        match self {
            RestartPolicy::No => "no".to_owned(),
            RestartPolicy::OnFailure => "on-failure".to_owned(),
            RestartPolicy::Always => "always".to_owned(),
        }
    }

    /// The policy that a word stands for.
    pub fn parse(s: &str) -> (r: Option<RestartPolicy>)
        ensures
            r == policy_of(s@),
    {
        if same(s, "no") {
            Some(RestartPolicy::No)
        } else if same(s, "on-failure") {
            Some(RestartPolicy::OnFailure)
        } else if same(s, "always") {
            Some(RestartPolicy::Always)
        } else {
            None
        }
    }
}

/// What an OS contributes on activation.
#[derive(Debug, PartialEq, Eq)]
pub struct ActivationBlock {
    /// Paths to prepend to PATH, relative to the env root.
    pub path_prepend: Vec<String>,
    /// Environment variables to set; the values are templates resolved on
    /// activation.
    pub env: StrMap<String>,
}

/// A declared, runnable tool. `run`, `args` and the values of `env` are
/// templates resolved when the tool is run.
#[derive(Debug, PartialEq, Eq)]
pub struct Tool {
    /// A command resolved through the env's PATH, or a path.
    pub run: String,
    /// Arguments passed before those of the caller.
    pub args: Vec<String>,
    /// Environment variables on top of those of activation.
    pub env: StrMap<String>,
    /// When the tool is started again as a service.
    pub restart: RestartPolicy,
}

/// A package that was installed into the env.
#[derive(Debug, PartialEq, Eq)]
pub struct PackageRef {
    pub name: String,
    pub version: String,
    /// An OCI reference, or `file://` and a path.
    pub source: String,
}

/// The manifest of an env.
#[derive(Debug, PartialEq, Eq)]
pub struct Manifest {
    pub name: String,
    pub version: String,
    pub description: Option<String>,
    pub packages: Vec<PackageRef>,
    /// Activation contributions by OS: "all", "windows", "linux", "macos".
    pub activation: StrMap<ActivationBlock>,
    /// Runnable tools by name.
    pub tools: StrMap<Tool>,
}

/// What an activation block says.
#[verifier::ext_equal]
pub struct BlockModel {
    pub path_prepend: Seq<Seq<char>>,
    pub env: Map<Seq<char>, Seq<char>>,
}

/// What a tool says.
#[verifier::ext_equal]
pub struct ToolModel {
    pub run: Seq<char>,
    pub args: Seq<Seq<char>>,
    pub env: Map<Seq<char>, Seq<char>>,
    pub restart: RestartPolicy,
}

/// What a package reference says.
#[verifier::ext_equal]
pub struct PackageModel {
    pub name: Seq<char>,
    pub version: Seq<char>,
    pub source: Seq<char>,
}

/// What a manifest says.
#[verifier::ext_equal]
pub struct ManifestModel {
    pub name: Seq<char>,
    pub version: Seq<char>,
    pub description: Option<Seq<char>>,
    pub packages: Seq<PackageModel>,
    pub activation: Map<Seq<char>, BlockModel>,
    pub tools: Map<Seq<char>, ToolModel>,
}

impl View for ActivationBlock {
    type V = BlockModel;

    open spec fn view(&self) -> BlockModel {
        BlockModel { path_prepend: texts(self.path_prepend@), env: self.env@ }
    }
}

impl View for Tool {
    type V = ToolModel;

    open spec fn view(&self) -> ToolModel {
        ToolModel {
            run: self.run@,
            args: texts(self.args@),
            env: self.env@,
            restart: self.restart,
        }
    }
}

impl View for PackageRef {
    type V = PackageModel;

    open spec fn view(&self) -> PackageModel {
        PackageModel { name: self.name@, version: self.version@, source: self.source@ }
    }
}

/// What a list of packages says.
pub open spec fn packages_model(v: Seq<PackageRef>) -> Seq<PackageModel> {
    Seq::new(v.len(), |i: int| v[i]@)
}

impl View for Manifest {
    type V = ManifestModel;

    open spec fn view(&self) -> ManifestModel {
        ManifestModel {
            name: self.name@,
            version: self.version@,
            description: opt_text(self.description),
            packages: packages_model(self.packages@),
            activation: self.activation@,
            tools: self.tools@,
        }
    }
}

/// A copy of a list of strings.
pub fn copy_texts(v: &Vec<String>) -> (r: Vec<String>)
    ensures
        texts(r@) == texts(v@),
{
    let mut r: Vec<String> = Vec::new();
    let mut i: usize = 0;
    while i < v.len()
        invariant
            i <= v.len(),
            texts(r@) == texts(v@).take(i as int),
        decreases v.len() - i,
    {
        let ghost before = r@;
        r.push(v[i].clone());
        assert(texts(r@) =~= texts(before).push(v@[i as int]@));
        assert(texts(v@).take(i + 1) =~= texts(v@).take(i as int).push(v@[i as int]@));
        i = i + 1;
    }
    assert(texts(v@).take(v@.len() as int) =~= texts(v@));
    r
}

impl Dup for ActivationBlock {
    fn dup(&self) -> (r: Self) {
        ActivationBlock { path_prepend: copy_texts(&self.path_prepend), env: self.env.dup() }
    }
}

impl Dup for Tool {
    fn dup(&self) -> (r: Self) {
        Tool {
            run: self.run.clone(),
            args: copy_texts(&self.args),
            env: self.env.dup(),
            restart: self.restart,
        }
    }
}

impl Dup for PackageRef {
    fn dup(&self) -> (r: Self) {
        PackageRef {
            name: self.name.clone(),
            version: self.version.clone(),
            source: self.source.clone(),
        }
    }
}

impl Default for ActivationBlock {
    fn default() -> (r: Self)
        ensures
            r@ == (BlockModel { path_prepend: Seq::empty(), env: Map::empty() }),
    {
        let r = ActivationBlock { path_prepend: Vec::new(), env: StrMap::new() };
        assert(r@.path_prepend =~= Seq::<Seq<char>>::empty());
        r
    }
}

impl Default for Tool {
    fn default() -> (r: Self)
        ensures
            r@ == (ToolModel {
                run: Seq::empty(),
                args: Seq::empty(),
                env: Map::empty(),
                restart: RestartPolicy::No,
            }),
    {
        let r = Tool {
            run: String::new(),
            args: Vec::new(),
            env: StrMap::new(),
            restart: RestartPolicy::No,
        };
        assert(r@.args =~= Seq::<Seq<char>>::empty());
        r
    }
}

// ---- writing ----

/// A list of texts.
pub open spec fn texts_tree(s: Seq<Seq<char>>) -> TreeModel {
    TreeModel::List(Seq::new(s.len(), |i: int| TreeModel::Text(s[i])))
}

/// A table of texts, in the order of its keys.
pub open spec fn env_tree(m: Map<Seq<char>, Seq<char>>) -> TreeModel {
    let l = listed(m);
    TreeModel::Dict(Seq::new(l.len(), |i: int| (l[i].0, TreeModel::Text(l[i].1))))
}

/// `d` with an entry more, where `present`.
pub open spec fn with_entry(
    d: Seq<(Seq<char>, TreeModel)>,
    present: bool,
    key: Seq<char>,
    t: TreeModel,
) -> Seq<(Seq<char>, TreeModel)> {
    if present {
        d.push((key, t))
    } else {
        d
    }
}

/// An activation block; what is empty is left out.
pub open spec fn block_tree(b: BlockModel) -> TreeModel {
    let d = with_entry(
        Seq::empty(),
        b.env != Map::<Seq<char>, Seq<char>>::empty(),
        "env"@,
        env_tree(b.env),
    );
    TreeModel::Dict(
        with_entry(d, b.path_prepend.len() > 0, "path_prepend"@, texts_tree(b.path_prepend)),
    )
}

/// A tool; what is empty or the default is left out.
pub open spec fn tool_tree(t: ToolModel) -> TreeModel {
    let d = with_entry(Seq::empty(), t.args.len() > 0, "args"@, texts_tree(t.args));
    let d = with_entry(
        d,
        t.env != Map::<Seq<char>, Seq<char>>::empty(),
        "env"@,
        env_tree(t.env),
    );
    let d = with_entry(
        d,
        t.restart != RestartPolicy::No,
        "restart"@,
        TreeModel::Text(policy_word(t.restart)),
    );
    TreeModel::Dict(d.push(("run"@, TreeModel::Text(t.run))))
}

/// The table of a package.
pub open spec fn package_tree(p: PackageModel) -> TreeModel {
    TreeModel::Dict(
        seq![
            ("name"@, TreeModel::Text(p.name)),
            ("source"@, TreeModel::Text(p.source)),
            ("version"@, TreeModel::Text(p.version)),
        ],
    )
}

/// The list of the packages.
pub open spec fn packages_tree(s: Seq<PackageModel>) -> TreeModel {
    TreeModel::List(Seq::new(s.len(), |i: int| package_tree(s[i])))
}

/// The table of the activation blocks.
pub open spec fn blocks_tree(m: Map<Seq<char>, BlockModel>) -> TreeModel {
    let l = listed(m);
    TreeModel::Dict(Seq::new(l.len(), |i: int| (l[i].0, block_tree(l[i].1))))
}

/// The table of the tools.
pub open spec fn tools_tree(m: Map<Seq<char>, ToolModel>) -> TreeModel {
    let l = listed(m);
    TreeModel::Dict(Seq::new(l.len(), |i: int| (l[i].0, tool_tree(l[i].1))))
}

/// The values of a manifest's document; what is empty is left out.
pub open spec fn manifest_tree(m: ManifestModel) -> TreeModel {
    let d = with_entry(
        Seq::empty(),
        m.activation != Map::<Seq<char>, BlockModel>::empty(),
        "activation"@,
        blocks_tree(m.activation),
    );
    let d = with_entry(
        d,
        m.description is Some,
        "description"@,
        TreeModel::Text(m.description->0),
    );
    let d = d.push(("name"@, TreeModel::Text(m.name)));
    let d = with_entry(d, m.packages.len() > 0, "packages"@, packages_tree(m.packages));
    let d = with_entry(
        d,
        m.tools != Map::<Seq<char>, ToolModel>::empty(),
        "tools"@,
        tools_tree(m.tools),
    );
    TreeModel::Dict(d.push(("version"@, TreeModel::Text(m.version))))
}

/// A manifest's document. The name becomes a registry key and a directory
/// name, so that its annotations hold it to harmless characters.
pub open spec fn manifest_doc(m: ManifestModel) -> DocModel {
    DocModel { config: manifest_tree(m), meta: head_rules() }
}

/// The maps of a manifest can be listed, as those of every `Manifest` can.
pub open spec fn well_listed(m: ManifestModel) -> bool {
    &&& listable(m.activation)
    &&& listable(m.tools)
    &&& forall|k: Seq<char>| #[trigger]
        m.activation.contains_key(k) ==> listable(m.activation[k].env)
    &&& forall|k: Seq<char>| #[trigger] m.tools.contains_key(k) ==> listable(m.tools[k].env)
}

/// Put an entry at the end of a table.
pub fn put(d: &mut Vec<(String, Tree)>, key: &str, t: Tree)
    ensures
        dict_model(final(d)@) == dict_model(old(d)@).push((key@, t@)),
{
    let ghost before = d@;
    d.push((key.to_owned(), t));
    assert(d@.drop_last() =~= before);
}

/// Put a value at the end of a list.
pub fn add_item(v: &mut Vec<Tree>, t: Tree)
    ensures
        list_model(final(v)@) == list_model(old(v)@).push(t@),
{
    let ghost before = v@;
    v.push(t);
    assert(v@.drop_last() =~= before);
}

/// A list of texts.
fn write_texts(v: &Vec<String>) -> (r: Tree)
    ensures
        r@ == texts_tree(texts(v@)),
{
    let mut out: Vec<Tree> = Vec::new();
    let mut i: usize = 0;
    let ghost all = Seq::new(v@.len(), |i: int| TreeModel::Text(texts(v@)[i]));
    while i < v.len()
        invariant
            i <= v.len(),
            all == Seq::new(v@.len(), |i: int| TreeModel::Text(texts(v@)[i])),
            list_model(out@) == all.take(i as int),
        decreases v.len() - i,
    {
        add_item(&mut out, Tree::Text(v[i].clone()));
        assert(all.take(i + 1) =~= all.take(i as int).push(all[i as int]));
        i = i + 1;
    }
    assert(all.take(all.len() as int) =~= all);
    Tree::List(out)
}

/// A table of texts.
fn write_env(m: &StrMap<String>) -> (r: Tree)
    ensures
        r@ == env_tree(m@),
        listable(m@),
{
    let mut out: Vec<(String, Tree)> = Vec::new();
    let mut i: usize = 0;
    let n = m.len();
    let ghost l = listed(m@);
    let ghost all = Seq::new(l.len(), |i: int| (l[i].0, TreeModel::Text(l[i].1)));
    while i < n
        invariant
            i <= n,
            n == l.len(),
            l == listed(m@),
            all == Seq::new(l.len(), |i: int| (l[i].0, TreeModel::Text(l[i].1))),
            dict_model(out@) == all.take(i as int),
        decreases n - i,
    {
        let (k, v) = m.at(i);
        put(&mut out, k.as_str(), Tree::Text(v.clone()));
        assert(all.take(i + 1) =~= all.take(i as int).push(all[i as int]));
        i = i + 1;
    }
    assert(all.take(all.len() as int) =~= all);
    Tree::Dict(out)
}

fn write_block(b: &ActivationBlock) -> (r: Tree)
    ensures
        r@ == block_tree(b@),
        listable(b@.env),
{
    let mut d: Vec<(String, Tree)> = Vec::new();
    assert(dict_model(d@) =~= Seq::<(Seq<char>, TreeModel)>::empty());
    let env = write_env(&b.env);
    if !b.env.is_empty() {
        put(&mut d, "env", env);
    }
    if b.path_prepend.len() > 0 {
        put(&mut d, "path_prepend", write_texts(&b.path_prepend));
    }
    Tree::Dict(d)
}

fn write_tool(t: &Tool) -> (r: Tree)
    ensures
        r@ == tool_tree(t@),
        listable(t@.env),
{
    let mut d: Vec<(String, Tree)> = Vec::new();
    assert(dict_model(d@) =~= Seq::<(Seq<char>, TreeModel)>::empty());
    if t.args.len() > 0 {
        put(&mut d, "args", write_texts(&t.args));
    }
    let env = write_env(&t.env);
    if !t.env.is_empty() {
        put(&mut d, "env", env);
    }
    if t.restart != RestartPolicy::No {
        put(&mut d, "restart", Tree::Text(t.restart.word()));
    }
    put(&mut d, "run", Tree::Text(t.run.clone()));
    Tree::Dict(d)
}

fn write_packages(v: &Vec<PackageRef>) -> (r: Tree)
    ensures
        r@ == packages_tree(packages_model(v@)),
{
    let mut out: Vec<Tree> = Vec::new();
    let mut i: usize = 0;
    let ghost m = packages_model(v@);
    let ghost all = Seq::new(m.len(), |i: int| package_tree(m[i]));
    while i < v.len()
        invariant
            i <= v.len(),
            m == packages_model(v@),
            all == Seq::new(m.len(), |i: int| package_tree(m[i])),
            list_model(out@) == all.take(i as int),
        decreases v.len() - i,
    {
        let p = &v[i];
        let mut d: Vec<(String, Tree)> = Vec::new();
        put(&mut d, "name", Tree::Text(p.name.clone()));
        put(&mut d, "source", Tree::Text(p.source.clone()));
        put(&mut d, "version", Tree::Text(p.version.clone()));
        let ghost dm = dict_model(d@);
        add_item(&mut out, Tree::Dict(d));
        proof {
            assert(dm =~= seq![
                ("name"@, TreeModel::Text(p@.name)),
                ("source"@, TreeModel::Text(p@.source)),
                ("version"@, TreeModel::Text(p@.version)),
            ]);
            assert(all.take(i + 1) =~= all.take(i as int).push(all[i as int]));
        }
        i = i + 1;
    }
    assert(all.take(all.len() as int) =~= all);
    Tree::List(out)
}

/// What the values at the first `n` keys have holds of every value.
proof fn lemma_listed_values<X>(m: Map<Seq<char>, X>, k: Seq<char>)
    requires
        listable(m),
        m.contains_key(k),
    ensures
        exists|i: int| 0 <= i < listed(m).len() && #[trigger] listed(m)[i] == (k, m[k]),
{
    lemma_map_of_keys(listed(m), k);
    let i = choose|i: int| 0 <= i < listed(m).len() && (#[trigger] listed(m)[i]).0 == k;
    lemma_map_of_at(listed(m), i);
    assert(listed(m)[i] == (k, m[k]));
}

fn write_blocks(m: &StrMap<ActivationBlock>) -> (r: Tree)
    ensures
        r@ == blocks_tree(m@),
        listable(m@),
        forall|k: Seq<char>| #[trigger] m@.contains_key(k) ==> listable(m@[k].env),
{
    let mut out: Vec<(String, Tree)> = Vec::new();
    let mut i: usize = 0;
    let n = m.len();
    let ghost l = listed(m@);
    let ghost all = Seq::new(l.len(), |i: int| (l[i].0, block_tree(l[i].1)));
    while i < n
        invariant
            i <= n,
            n == l.len(),
            l == listed(m@),
            all == Seq::new(l.len(), |i: int| (l[i].0, block_tree(l[i].1))),
            dict_model(out@) == all.take(i as int),
            forall|j: int| 0 <= j < i ==> listable((#[trigger] l[j]).1.env),
        decreases n - i,
    {
        let (k, v) = m.at(i);
        put(&mut out, k.as_str(), write_block(v));
        assert(all.take(i + 1) =~= all.take(i as int).push(all[i as int]));
        i = i + 1;
    }
    proof {
        assert(all.take(all.len() as int) =~= all);
        assert forall|k: Seq<char>| #[trigger] m@.contains_key(k) implies listable(m@[k].env) by {
            lemma_listed_values(m@, k);
        }
    }
    Tree::Dict(out)
}

fn write_tools(m: &StrMap<Tool>) -> (r: Tree)
    ensures
        r@ == tools_tree(m@),
        listable(m@),
        forall|k: Seq<char>| #[trigger] m@.contains_key(k) ==> listable(m@[k].env),
{
    let mut out: Vec<(String, Tree)> = Vec::new();
    let mut i: usize = 0;
    let n = m.len();
    let ghost l = listed(m@);
    let ghost all = Seq::new(l.len(), |i: int| (l[i].0, tool_tree(l[i].1)));
    while i < n
        invariant
            i <= n,
            n == l.len(),
            l == listed(m@),
            all == Seq::new(l.len(), |i: int| (l[i].0, tool_tree(l[i].1))),
            dict_model(out@) == all.take(i as int),
            forall|j: int| 0 <= j < i ==> listable((#[trigger] l[j]).1.env),
        decreases n - i,
    {
        let (k, v) = m.at(i);
        put(&mut out, k.as_str(), write_tool(v));
        assert(all.take(i + 1) =~= all.take(i as int).push(all[i as int]));
        i = i + 1;
    }
    proof {
        assert(all.take(all.len() as int) =~= all);
        assert forall|k: Seq<char>| #[trigger] m@.contains_key(k) implies listable(m@[k].env) by {
            lemma_listed_values(m@, k);
        }
    }
    Tree::Dict(out)
}

/// The annotations of a manifest's document.
fn head_notes() -> (r: Vec<(String, Vec<Note>)>)
    ensures
        map_of(meta_pairs(r@)) == head_rules(),
{
    let mut name: Vec<Note> = Vec::new();
    name.push(required());
    name.push(typed("string"));
    name.push(minlen(1));
    name.push(pattern("[A-Za-z0-9._-]+"));
    assert(notes(name@) =~= name_rules());
    let mut version: Vec<Note> = Vec::new();
    version.push(required());
    version.push(typed("string"));
    assert(notes(version@) =~= version_rules());
    let mut r: Vec<(String, Vec<Note>)> = Vec::new();
    r.push(("name".to_owned(), name));
    r.push(("version".to_owned(), version));
    proof {
        let m = meta_pairs(r@);
        assert(m =~= seq![("name"@, name_rules()), ("version"@, version_rules())]);
        assert(m.drop_last() =~= seq![("name"@, name_rules())]);
        assert(m.drop_last().drop_last() =~= Seq::<(Seq<char>, Seq<NoteModel>)>::empty());
        reveal_with_fuel(map_of, 3);
    }
    r
}

impl Manifest {
    /// The manifest's document.
    pub fn to_doc(&self) -> (r: Doc)
        ensures
            r@ == manifest_doc(self@),
            well_listed(self@),
    {
        let mut d: Vec<(String, Tree)> = Vec::new();
        assert(dict_model(d@) =~= Seq::<(Seq<char>, TreeModel)>::empty());
        let blocks = write_blocks(&self.activation);
        if !self.activation.is_empty() {
            put(&mut d, "activation", blocks);
        }
        if let Some(s) = &self.description {
            put(&mut d, "description", Tree::Text(s.clone()));
        }
        put(&mut d, "name", Tree::Text(self.name.clone()));
        if self.packages.len() > 0 {
            put(&mut d, "packages", write_packages(&self.packages));
        }
        let tools = write_tools(&self.tools);
        if !self.tools.is_empty() {
            put(&mut d, "tools", tools);
        }
        put(&mut d, "version", Tree::Text(self.version.clone()));
        Doc { config: Tree::Dict(d), meta: head_notes() }
    }

    /// The manifest as annotated TOML+ text.
    pub fn to_tomlp(&self) -> (r: String)
        ensures
            r@ == dumped(manifest_doc(self@)),
            unmarked(r@) == r@,
            mild(manifest_doc(self@)) ==> calm(r@) && settled(r@),
            well_listed(self@),
    {
        let doc = self.to_doc();
        proof {
            lemma_named_head(self@);
            lemma_shallow_manifest(self@, MAX_LEVELS as nat);
        }
        dump(&doc)
    }
}

// ---- reading ----

/// The texts of a list, unless it is none or holds something else.
pub open spec fn read_texts(t: TreeModel, what: Seq<char>) -> Result<Seq<Seq<char>>, ErrorModel> {
    match t {
        TreeModel::List(s) => if forall|i: int| 0 <= i < s.len() ==> #[trigger] s[i] is Text {
            Ok(Seq::new(s.len(), |i: int| s[i]->Text_0))
        } else {
            Err(ErrorModel::Misfit { what, wanted: Wanted::Texts })
        },
        _ => Err(ErrorModel::Misfit { what, wanted: Wanted::Array }),
    }
}

/// The texts of a table's entries; the first that holds something else is the
/// error.
pub open spec fn read_env_entries(d: Seq<(Seq<char>, TreeModel)>, what: Seq<char>) -> Result<
    Map<Seq<char>, Seq<char>>,
    ErrorModel,
>
    decreases d.len(),
{
    if d.len() == 0 {
        Ok(Map::empty())
    } else {
        match read_env_entries(d.drop_last(), what) {
            Err(e) => Err(e),
            Ok(m) => match d.last().1 {
                TreeModel::Text(s) => Ok(m.insert(d.last().0, s)),
                _ => Err(
                    ErrorModel::Misfit { what: what + "."@ + d.last().0, wanted: Wanted::Text },
                ),
            },
        }
    }
}

/// The variables that the `env` of a table spells, none where it has none.
pub open spec fn read_env(t: TreeModel, what: Seq<char>) -> Result<
    Map<Seq<char>, Seq<char>>,
    ErrorModel,
> {
    match t {
        TreeModel::Dict(d) => read_env_entries(d, what),
        _ => Err(ErrorModel::Misfit { what, wanted: Wanted::Table }),
    }
}

/// The texts at `key`, none where there is no such key.
pub open spec fn texts_at(t: TreeModel, key: Seq<char>, what: Seq<char>) -> Result<
    Seq<Seq<char>>,
    ErrorModel,
> {
    match field(t, key) {
        Some(x) => read_texts(x, what + "."@ + key),
        None => Ok(Seq::empty()),
    }
}

/// The table of texts at `key`, an empty one where there is no such key.
pub open spec fn env_at(t: TreeModel, key: Seq<char>, what: Seq<char>) -> Result<
    Map<Seq<char>, Seq<char>>,
    ErrorModel,
> {
    match field(t, key) {
        Some(x) => read_env(x, what + "."@ + key),
        None => Ok(Map::empty()),
    }
}

/// The text at `key`.
pub open spec fn text_at(t: TreeModel, key: Seq<char>, what: Seq<char>) -> Result<
    Seq<char>,
    ErrorModel,
> {
    match field(t, key) {
        Some(TreeModel::Text(s)) => Ok(s),
        _ => Err(ErrorModel::Misfit { what: what + "."@ + key, wanted: Wanted::Text }),
    }
}

/// The activation block that a table spells.
pub open spec fn read_block(t: TreeModel, what: Seq<char>) -> Result<BlockModel, ErrorModel> {
    if !(t is Dict) {
        Err(ErrorModel::Misfit { what, wanted: Wanted::Table })
    } else {
        match texts_at(t, "path_prepend"@, what) {
            Err(e) => Err(e),
            Ok(path_prepend) => match env_at(t, "env"@, what) {
                Err(e) => Err(e),
                Ok(env) => Ok(BlockModel { path_prepend, env }),
            },
        }
    }
}

/// The restart policy of a tool, `no` where none is given.
pub open spec fn policy_at(t: TreeModel, what: Seq<char>) -> Result<RestartPolicy, ErrorModel> {
    match field(t, "restart"@) {
        None => Ok(RestartPolicy::No),
        Some(TreeModel::Text(s)) => match policy_of(s) {
            Some(p) => Ok(p),
            None => Err(ErrorModel::NotAllowed { what: what + ".restart"@, found: s }),
        },
        Some(_) => Err(ErrorModel::Misfit { what: what + ".restart"@, wanted: Wanted::Text }),
    }
}

/// The tool that a table spells.
pub open spec fn read_tool(t: TreeModel, what: Seq<char>) -> Result<ToolModel, ErrorModel> {
    if !(t is Dict) {
        Err(ErrorModel::Misfit { what, wanted: Wanted::Table })
    } else {
        match text_at(t, "run"@, what) {
            Err(e) => Err(e),
            Ok(run) => match texts_at(t, "args"@, what) {
                Err(e) => Err(e),
                Ok(args) => match env_at(t, "env"@, what) {
                    Err(e) => Err(e),
                    Ok(env) => match policy_at(t, what) {
                        Err(e) => Err(e),
                        Ok(restart) => Ok(ToolModel { run, args, env, restart }),
                    },
                },
            },
        }
    }
}

/// The activation blocks that the entries of a table spell, or the first error.
pub open spec fn read_blocks(d: Seq<(Seq<char>, TreeModel)>) -> Result<
    Map<Seq<char>, BlockModel>,
    ErrorModel,
>
    decreases d.len(),
{
    if d.len() == 0 {
        Ok(Map::empty())
    } else {
        match read_blocks(d.drop_last()) {
            Err(e) => Err(e),
            Ok(m) => match read_block(d.last().1, "activation."@ + d.last().0) {
                Err(e) => Err(e),
                Ok(b) => Ok(m.insert(d.last().0, b)),
            },
        }
    }
}

/// The tools that the entries of a table spell, or the first error.
pub open spec fn read_tools(d: Seq<(Seq<char>, TreeModel)>) -> Result<
    Map<Seq<char>, ToolModel>,
    ErrorModel,
>
    decreases d.len(),
{
    if d.len() == 0 {
        Ok(Map::empty())
    } else {
        match read_tools(d.drop_last()) {
            Err(e) => Err(e),
            Ok(m) => match read_tool(d.last().1, "tools."@ + d.last().0) {
                Err(e) => Err(e),
                Ok(t) => Ok(m.insert(d.last().0, t)),
            },
        }
    }
}

/// How an error calls the package at position `i`.
pub open spec fn package_label(i: nat) -> Seq<char> {
    "packages["@ + digits(i) + "]"@
}

/// The package that the entry at position `i` spells.
pub open spec fn read_package(t: TreeModel, i: nat) -> Result<PackageModel, ErrorModel> {
    let what = package_label(i);
    if !(t is Dict) {
        Err(ErrorModel::Misfit { what, wanted: Wanted::Table })
    } else {
        match text_at(t, "name"@, what) {
            Err(e) => Err(e),
            Ok(name) => match text_at(t, "version"@, what) {
                Err(e) => Err(e),
                Ok(version) => match text_at(t, "source"@, what) {
                    Err(e) => Err(e),
                    Ok(source) => Ok(PackageModel { name, version, source }),
                },
            },
        }
    }
}

/// The packages that the entries of a list spell, or the first error.
pub open spec fn read_packages(s: Seq<TreeModel>) -> Result<Seq<PackageModel>, ErrorModel>
    decreases s.len(),
{
    if s.len() == 0 {
        Ok(Seq::empty())
    } else {
        match read_packages(s.drop_last()) {
            Err(e) => Err(e),
            Ok(v) => match read_package(s.last(), (s.len() - 1) as nat) {
                Err(e) => Err(e),
                Ok(p) => Ok(v.push(p)),
            },
        }
    }
}

/// The packages of a document.
pub open spec fn packages_at(t: TreeModel) -> Result<Seq<PackageModel>, ErrorModel> {
    match field(t, "packages"@) {
        None => Ok(Seq::empty()),
        Some(TreeModel::List(s)) => read_packages(s),
        Some(_) => Err(ErrorModel::Misfit { what: "`packages`"@, wanted: Wanted::Array }),
    }
}

/// The activation blocks of a document.
pub open spec fn blocks_at(t: TreeModel) -> Result<Map<Seq<char>, BlockModel>, ErrorModel> {
    match field(t, "activation"@) {
        None => Ok(Map::empty()),
        Some(TreeModel::Dict(d)) => read_blocks(d),
        Some(_) => Err(ErrorModel::Misfit { what: "`activation`"@, wanted: Wanted::Table }),
    }
}

/// The tools of a document.
pub open spec fn tools_at(t: TreeModel) -> Result<Map<Seq<char>, ToolModel>, ErrorModel> {
    match field(t, "tools"@) {
        None => Ok(Map::empty()),
        Some(TreeModel::Dict(d)) => read_tools(d),
        Some(_) => Err(ErrorModel::Misfit { what: "`tools`"@, wanted: Wanted::Table }),
    }
}

/// The manifest that a document's values spell, or the first thing wrong with
/// them.
pub open spec fn read_manifest(t: TreeModel) -> Result<ManifestModel, ErrorModel> {
    match required_text(t, "name"@) {
        Err(e) => Err(e),
        Ok(name) => match required_text(t, "version"@) {
            Err(e) => Err(e),
            Ok(version) => match optional_text(t, "description"@) {
                Err(e) => Err(e),
                Ok(description) => match packages_at(t) {
                    Err(e) => Err(e),
                    Ok(packages) => match blocks_at(t) {
                        Err(e) => Err(e),
                        Ok(activation) => match tools_at(t) {
                            Err(e) => Err(e),
                            Ok(tools) => Ok(
                                ManifestModel {
                                    name,
                                    version,
                                    description,
                                    packages,
                                    activation,
                                    tools,
                                },
                            ),
                        },
                    },
                },
            },
        },
    }
}

/// `what`, a dot and `key`.
fn dotted(what: &str, key: &str) -> (r: String)
    ensures
        r@ == what@ + "."@ + key@,
{
    let mut r = what.to_owned();
    r.push_str(".");
    r.push_str(key);
    r
}

fn misfit(what: String, wanted: Wanted) -> (r: ReadError)
    ensures
        r@ == (ErrorModel::Misfit { what: what@, wanted }),
{
    ReadError::Misfit { what, wanted }
}

/// `r` is `x` with lists of strings taken by their texts.
pub open spec fn texts_outcome(
    r: Result<Vec<String>, ReadError>,
    x: Result<Seq<Seq<char>>, ErrorModel>,
) -> bool {
    match r {
        Ok(v) => x == Ok::<Seq<Seq<char>>, ErrorModel>(texts(v@)),
        Err(e) => x == Err::<Seq<Seq<char>>, ErrorModel>(e@),
    }
}

fn get_texts(t: &Tree, key: &str, what: &str) -> (r: Result<Vec<String>, ReadError>)
    ensures
        texts_outcome(r, texts_at(t@, key@, what@)),
{
    let mut out: Vec<String> = Vec::new();
    assert(texts(out@) =~= Seq::<Seq<char>>::empty());
    match t.get(key) {
        None => Ok(out),
        Some(Tree::List(v)) => {
            let ghost s = list_model(v@);
            proof {
                lemma_list_model(v@);
            }
            let mut i: usize = 0;
            while i < v.len()
                invariant
                    i <= v.len(),
                    s == list_model(v@),
                    s.len() == v@.len(),
                    forall|j: int| 0 <= j < v@.len() ==> #[trigger] s[j] == v@[j]@,
                    texts_at(t@, key@, what@) == read_texts(
                        TreeModel::List(s),
                        what@ + "."@ + key@,
                    ),
                    texts(out@).len() == i,
                    forall|j: int| 0 <= j < i ==> #[trigger] s[j] is Text,
                    forall|j: int| 0 <= j < i ==> #[trigger] texts(out@)[j] == s[j]->Text_0,
                decreases v.len() - i,
            {
                assert(s[i as int] == v@[i as int]@);
                match &v[i] {
                    Tree::Text(x) => {
                        let ghost before = texts(out@);
                        out.push(x.clone());
                        assert(texts(out@) =~= before.push(x@));
                    },
                    _ => {
                        assert(!(s[i as int] is Text));
                        return Err(misfit(dotted(what, key), Wanted::Texts));
                    },
                }
                i = i + 1;
            }
            assert(texts(out@) =~= Seq::new(s.len(), |i: int| s[i]->Text_0));
            Ok(out)
        },
        Some(_) => Err(misfit(dotted(what, key), Wanted::Array)),
    }
}

fn get_env(t: &Tree, key: &str, what: &str) -> (r: Result<StrMap<String>, ReadError>)
    ensures
        outcome(r) == env_at(t@, key@, what@),
{
    let mut out: StrMap<String> = StrMap::new();
    match t.get(key) {
        None => Ok(out),
        Some(Tree::Dict(v)) => {
            let label = dotted(what, key);
            let ghost d = dict_model(v@);
            proof {
                lemma_dict_model(v@);
                lemma_env_prefix(d, label@);
            }
            let mut i: usize = 0;
            while i < v.len()
                invariant
                    i <= v.len(),
                    d == dict_model(v@),
                    d.len() == v@.len(),
                    forall|j: int| 0 <= j < v@.len() ==> #[trigger] d[j] == (v@[j].0@, v@[j].1@),
                    env_at(t@, key@, what@) == read_env_entries(d, label@),
                    forall|n: int|
                        0 <= n <= d.len() && read_env_entries(#[trigger] d.take(n), label@) is Err
                            ==> read_env_entries(d, label@) == read_env_entries(d.take(n), label@),
                    read_env_entries(d.take(i as int), label@) == Ok::<_, ErrorModel>(out@),
                decreases v.len() - i,
            {
                let e = &v[i];
                assert(d[i as int] == (e.0@, e.1@));
                assert(d.take(i + 1).drop_last() =~= d.take(i as int));
                match &e.1 {
                    Tree::Text(x) => {
                        out.insert(e.0.clone(), x.clone());
                    },
                    _ => {
                        assert(read_env_entries(d.take(i + 1), label@) is Err);
                        return Err(misfit(dotted(label.as_str(), e.0.as_str()), Wanted::Text));
                    },
                }
                i = i + 1;
            }
            assert(d.take(d.len() as int) =~= d);
            Ok(out)
        },
        Some(_) => Err(misfit(dotted(what, key), Wanted::Table)),
    }
}

/// An error among the first entries is the error of them all.
proof fn lemma_env_prefix(d: Seq<(Seq<char>, TreeModel)>, what: Seq<char>)
    ensures
        forall|n: int|
            0 <= n <= d.len() && read_env_entries(#[trigger] d.take(n), what) is Err
                ==> read_env_entries(d, what) == read_env_entries(d.take(n), what),
    decreases d.len(),
{
    if d.len() > 0 {
        lemma_env_prefix(d.drop_last(), what);
        assert forall|n: int|
            0 <= n <= d.len() && read_env_entries(#[trigger] d.take(n), what) is Err implies
            read_env_entries(d, what) == read_env_entries(d.take(n), what) by {
            if n < d.len() {
                assert(d.drop_last().take(n) =~= d.take(n));
            } else {
                assert(d.take(n) =~= d);
            }
        }
    }
}

fn get_text(t: &Tree, key: &str, what: &str) -> (r: Result<String, ReadError>)
    ensures
        outcome(r) == text_at(t@, key@, what@),
{
    match t.get(key) {
        Some(Tree::Text(s)) => Ok(s.clone()),
        _ => Err(misfit(dotted(what, key), Wanted::Text)),
    }
}

fn get_block(t: &Tree, what: &str) -> (r: Result<ActivationBlock, ReadError>)
    ensures
        outcome(r) == read_block(t@, what@),
{
    match t {
        Tree::Dict(_) => {},
        _ => {
            return Err(misfit(what.to_owned(), Wanted::Table));
        },
    }
    let path_prepend = match get_texts(t, "path_prepend", what) {
        Err(e) => {
            return Err(e);
        },
        Ok(x) => x,
    };
    match get_env(t, "env", what) {
        Err(e) => Err(e),
        Ok(env) => Ok(ActivationBlock { path_prepend, env }),
    }
}

fn get_policy(t: &Tree, what: &str) -> (r: Result<RestartPolicy, ReadError>)
    ensures
        match r {
            Ok(p) => policy_at(t@, what@) == Ok::<RestartPolicy, ErrorModel>(p),
            Err(e) => policy_at(t@, what@) == Err::<RestartPolicy, ErrorModel>(e@),
        },
{
    match t.get("restart") {
        None => Ok(RestartPolicy::No),
        Some(x) => {
            let mut label = what.to_owned();
            label.push_str(".restart");
            match x {
                Tree::Text(s) => match RestartPolicy::parse(s.as_str()) {
                    Some(p) => Ok(p),
                    None => Err(ReadError::NotAllowed { what: label, found: s.clone() }),
                },
                _ => Err(misfit(label, Wanted::Text)),
            }
        },
    }
}

fn get_tool(t: &Tree, what: &str) -> (r: Result<Tool, ReadError>)
    ensures
        outcome(r) == read_tool(t@, what@),
{
    match t {
        Tree::Dict(_) => {},
        _ => {
            return Err(misfit(what.to_owned(), Wanted::Table));
        },
    }
    let run = match get_text(t, "run", what) {
        Err(e) => {
            return Err(e);
        },
        Ok(x) => x,
    };
    let args = match get_texts(t, "args", what) {
        Err(e) => {
            return Err(e);
        },
        Ok(x) => x,
    };
    let env = match get_env(t, "env", what) {
        Err(e) => {
            return Err(e);
        },
        Ok(x) => x,
    };
    match get_policy(t, what) {
        Err(e) => Err(e),
        Ok(restart) => Ok(Tool { run, args, env, restart }),
    }
}

fn get_package(t: &Tree, i: usize) -> (r: Result<PackageRef, ReadError>)
    ensures
        outcome(r) == read_package(t@, i as nat),
{
    let mut label = "packages[".to_owned();
    label.push_str(decimal(i as u128).as_str());
    label.push_str("]");
    match t {
        Tree::Dict(_) => {},
        _ => {
            return Err(misfit(label, Wanted::Table));
        },
    }
    let name = match get_text(t, "name", label.as_str()) {
        Err(e) => {
            return Err(e);
        },
        Ok(x) => x,
    };
    let version = match get_text(t, "version", label.as_str()) {
        Err(e) => {
            return Err(e);
        },
        Ok(x) => x,
    };
    match get_text(t, "source", label.as_str()) {
        Err(e) => Err(e),
        Ok(source) => Ok(PackageRef { name, version, source }),
    }
}

/// `r` is `x` with lists of packages taken by their models.
pub open spec fn packages_outcome(
    r: Result<Vec<PackageRef>, ReadError>,
    x: Result<Seq<PackageModel>, ErrorModel>,
) -> bool {
    match r {
        Ok(v) => x == Ok::<Seq<PackageModel>, ErrorModel>(packages_model(v@)),
        Err(e) => x == Err::<Seq<PackageModel>, ErrorModel>(e@),
    }
}

fn get_packages(t: &Tree) -> (r: Result<Vec<PackageRef>, ReadError>)
    ensures
        packages_outcome(r, packages_at(t@)),
{
    let mut out: Vec<PackageRef> = Vec::new();
    assert(packages_model(out@) =~= Seq::<PackageModel>::empty());
    match t.get("packages") {
        None => Ok(out),
        Some(Tree::List(v)) => {
            let ghost s = list_model(v@);
            proof {
                lemma_list_model(v@);
                lemma_packages_prefix(s);
            }
            let mut i: usize = 0;
            while i < v.len()
                invariant
                    i <= v.len(),
                    s == list_model(v@),
                    s.len() == v@.len(),
                    forall|j: int| 0 <= j < v@.len() ==> #[trigger] s[j] == v@[j]@,
                    packages_at(t@) == read_packages(s),
                    forall|n: int|
                        0 <= n <= s.len() && read_packages(#[trigger] s.take(n)) is Err
                            ==> read_packages(s) == read_packages(s.take(n)),
                    read_packages(s.take(i as int)) == Ok::<_, ErrorModel>(packages_model(out@)),
                decreases v.len() - i,
            {
                assert(s[i as int] == v@[i as int]@);
                assert(s.take(i + 1).drop_last() =~= s.take(i as int));
                match get_package(&v[i], i) {
                    Err(e) => {
                        assert(read_packages(s.take(i + 1)) is Err);
                        return Err(e);
                    },
                    Ok(p) => {
                        let ghost before = out@;
                        out.push(p);
                        assert(packages_model(out@) =~= packages_model(before).push(p@));
                    },
                }
                i = i + 1;
            }
            assert(s.take(s.len() as int) =~= s);
            Ok(out)
        },
        Some(_) => Err(misfit("`packages`".to_owned(), Wanted::Array)),
    }
}

proof fn lemma_packages_prefix(s: Seq<TreeModel>)
    ensures
        forall|n: int|
            0 <= n <= s.len() && read_packages(#[trigger] s.take(n)) is Err ==> read_packages(s)
                == read_packages(s.take(n)),
    decreases s.len(),
{
    if s.len() > 0 {
        lemma_packages_prefix(s.drop_last());
        assert forall|n: int|
            0 <= n <= s.len() && read_packages(#[trigger] s.take(n)) is Err implies read_packages(s)
            == read_packages(s.take(n)) by {
            if n < s.len() {
                assert(s.drop_last().take(n) =~= s.take(n));
            } else {
                assert(s.take(n) =~= s);
            }
        }
    }
}

fn get_blocks(t: &Tree) -> (r: Result<StrMap<ActivationBlock>, ReadError>)
    ensures
        outcome(r) == blocks_at(t@),
{
    let mut out: StrMap<ActivationBlock> = StrMap::new();
    match t.get("activation") {
        None => Ok(out),
        Some(Tree::Dict(v)) => {
            let ghost d = dict_model(v@);
            proof {
                lemma_dict_model(v@);
                lemma_blocks_prefix(d);
            }
            let mut i: usize = 0;
            while i < v.len()
                invariant
                    i <= v.len(),
                    d == dict_model(v@),
                    d.len() == v@.len(),
                    forall|j: int| 0 <= j < v@.len() ==> #[trigger] d[j] == (v@[j].0@, v@[j].1@),
                    blocks_at(t@) == read_blocks(d),
                    forall|n: int|
                        0 <= n <= d.len() && read_blocks(#[trigger] d.take(n)) is Err
                            ==> read_blocks(d) == read_blocks(d.take(n)),
                    read_blocks(d.take(i as int)) == Ok::<_, ErrorModel>(out@),
                decreases v.len() - i,
            {
                let e = &v[i];
                assert(d[i as int] == (e.0@, e.1@));
                assert(d.take(i + 1).drop_last() =~= d.take(i as int));
                let mut label = "activation.".to_owned();
                label.push_str(e.0.as_str());
                match get_block(&e.1, label.as_str()) {
                    Err(x) => {
                        assert(read_blocks(d.take(i + 1)) is Err);
                        return Err(x);
                    },
                    Ok(b) => {
                        out.insert(e.0.clone(), b);
                    },
                }
                i = i + 1;
            }
            assert(d.take(d.len() as int) =~= d);
            Ok(out)
        },
        Some(_) => Err(misfit("`activation`".to_owned(), Wanted::Table)),
    }
}

proof fn lemma_blocks_prefix(d: Seq<(Seq<char>, TreeModel)>)
    ensures
        forall|n: int|
            0 <= n <= d.len() && read_blocks(#[trigger] d.take(n)) is Err ==> read_blocks(d)
                == read_blocks(d.take(n)),
    decreases d.len(),
{
    if d.len() > 0 {
        lemma_blocks_prefix(d.drop_last());
        assert forall|n: int|
            0 <= n <= d.len() && read_blocks(#[trigger] d.take(n)) is Err implies read_blocks(d)
            == read_blocks(d.take(n)) by {
            if n < d.len() {
                assert(d.drop_last().take(n) =~= d.take(n));
            } else {
                assert(d.take(n) =~= d);
            }
        }
    }
}

fn get_tools(t: &Tree) -> (r: Result<StrMap<Tool>, ReadError>)
    ensures
        outcome(r) == tools_at(t@),
{
    let mut out: StrMap<Tool> = StrMap::new();
    match t.get("tools") {
        None => Ok(out),
        Some(Tree::Dict(v)) => {
            let ghost d = dict_model(v@);
            proof {
                lemma_dict_model(v@);
                lemma_tools_prefix(d);
            }
            let mut i: usize = 0;
            while i < v.len()
                invariant
                    i <= v.len(),
                    d == dict_model(v@),
                    d.len() == v@.len(),
                    forall|j: int| 0 <= j < v@.len() ==> #[trigger] d[j] == (v@[j].0@, v@[j].1@),
                    tools_at(t@) == read_tools(d),
                    forall|n: int|
                        0 <= n <= d.len() && read_tools(#[trigger] d.take(n)) is Err ==> read_tools(
                            d,
                        ) == read_tools(d.take(n)),
                    read_tools(d.take(i as int)) == Ok::<_, ErrorModel>(out@),
                decreases v.len() - i,
            {
                let e = &v[i];
                assert(d[i as int] == (e.0@, e.1@));
                assert(d.take(i + 1).drop_last() =~= d.take(i as int));
                let mut label = "tools.".to_owned();
                label.push_str(e.0.as_str());
                match get_tool(&e.1, label.as_str()) {
                    Err(x) => {
                        assert(read_tools(d.take(i + 1)) is Err);
                        return Err(x);
                    },
                    Ok(x) => {
                        out.insert(e.0.clone(), x);
                    },
                }
                i = i + 1;
            }
            assert(d.take(d.len() as int) =~= d);
            Ok(out)
        },
        Some(_) => Err(misfit("`tools`".to_owned(), Wanted::Table)),
    }
}

proof fn lemma_tools_prefix(d: Seq<(Seq<char>, TreeModel)>)
    ensures
        forall|n: int|
            0 <= n <= d.len() && read_tools(#[trigger] d.take(n)) is Err ==> read_tools(d)
                == read_tools(d.take(n)),
    decreases d.len(),
{
    if d.len() > 0 {
        lemma_tools_prefix(d.drop_last());
        assert forall|n: int|
            0 <= n <= d.len() && read_tools(#[trigger] d.take(n)) is Err implies read_tools(d)
            == read_tools(d.take(n)) by {
            if n < d.len() {
                assert(d.drop_last().take(n) =~= d.take(n));
            } else {
                assert(d.take(n) =~= d);
            }
        }
    }
}

impl Manifest {
    /// The manifest that a document spells.
    pub fn read(config: &Tree) -> (r: Result<Manifest, ReadError>)
        ensures
            outcome(r) == read_manifest(config@),
    {
        let name = match req_str(config, "name") {
            Err(e) => {
                return Err(e);
            },
            Ok(x) => x,
        };
        let version = match req_str(config, "version") {
            Err(e) => {
                return Err(e);
            },
            Ok(x) => x,
        };
        let description = match opt_str(config, "description") {
            Err(e) => {
                return Err(e);
            },
            Ok(x) => x,
        };
        let packages = match get_packages(config) {
            Err(e) => {
                return Err(e);
            },
            Ok(x) => x,
        };
        let activation = match get_blocks(config) {
            Err(e) => {
                return Err(e);
            },
            Ok(x) => x,
        };
        match get_tools(config) {
            Err(e) => Err(e),
            Ok(tools) => Ok(
                Manifest { name, version, description, packages, activation, tools },
            ),
        }
    }
}

// ---- what is written reads back ----

/// The keys of the tables are what they are and not each other.
proof fn lemma_key_literals()
    ensures
        bare_key("activation"@),
        bare_key("description"@),
        bare_key("name"@),
        bare_key("packages"@),
        bare_key("tools"@),
        bare_key("version"@),
        bare_key("env"@),
        bare_key("path_prepend"@),
        bare_key("args"@),
        bare_key("restart"@),
        bare_key("run"@),
        bare_key("source"@),
        "activation"@.len() == 10,
        "description"@.len() == 11,
        "name"@.len() == 4,
        "packages"@.len() == 8,
        "tools"@.len() == 5,
        "version"@.len() == 7,
        "env"@.len() == 3,
        "path_prepend"@.len() == 12,
        "args"@.len() == 4,
        "restart"@.len() == 7,
        "run"@.len() == 3,
        "source"@.len() == 6,
        "vars"@ != "args"@,
        "vars"@ != "name"@,
        "vars"@.len() == 4,
        "env"@ != "run"@,
        text_lt("activation"@, "description"@),
        text_lt("description"@, "name"@),
        text_lt("name"@, "packages"@),
        text_lt("packages"@, "tools"@),
        text_lt("tools"@, "version"@),
        text_lt("env"@, "path_prepend"@),
        text_lt("args"@, "env"@),
        text_lt("env"@, "restart"@),
        text_lt("restart"@, "run"@),
        text_lt("name"@, "source"@),
        text_lt("source"@, "version"@),
{
    reveal_strlit("activation");
    reveal_strlit("description");
    reveal_strlit("name");
    reveal_strlit("packages");
    reveal_strlit("tools");
    reveal_strlit("version");
    reveal_strlit("env");
    reveal_strlit("path_prepend");
    reveal_strlit("args");
    reveal_strlit("restart");
    reveal_strlit("run");
    reveal_strlit("source");
    reveal_strlit("vars");
    assert("env"@[0] != "run"@[0]);
    assert("vars"@[0] == 'v');
    assert("args"@[0] == 'a');
    assert("name"@[0] == 'n');
    assert("restart"@.drop_first()[0] == 'e');
    assert("run"@.drop_first()[0] == 'u');
    reveal_with_fuel(text_lt, 2);
}

proof fn lemma_entry_push(
    d: Seq<(Seq<char>, TreeModel)>,
    present: bool,
    k: Seq<char>,
    t: TreeModel,
    key: Seq<char>,
)
    ensures
        entry(with_entry(d, present, k, t), key) == (if present && k == key {
            Some(t)
        } else {
            entry(d, key)
        }),
        with_entry(d, true, k, t) == d.push((k, t)),
{
    assert(d.push((k, t)).drop_last() =~= d);
}

proof fn lemma_read_texts(s: Seq<Seq<char>>, what: Seq<char>)
    ensures
        read_texts(texts_tree(s), what) == Ok::<Seq<Seq<char>>, ErrorModel>(s),
{
    let l = Seq::new(s.len(), |i: int| TreeModel::Text(s[i]));
    assert(Seq::new(l.len(), |i: int| l[i]->Text_0) =~= s);
}

proof fn lemma_read_env(l: Seq<(Seq<char>, Seq<char>)>, what: Seq<char>)
    ensures
        read_env_entries(Seq::new(l.len(), |i: int| (l[i].0, TreeModel::Text(l[i].1))), what)
            == Ok::<_, ErrorModel>(map_of(l)),
    decreases l.len(),
{
    let d = Seq::new(l.len(), |i: int| (l[i].0, TreeModel::Text(l[i].1)));
    if l.len() > 0 {
        let m = l.drop_last();
        lemma_read_env(m, what);
        assert(d.drop_last() =~= Seq::new(m.len(), |i: int| (m[i].0, TreeModel::Text(m[i].1))));
    }
}

proof fn lemma_read_block(b: BlockModel, what: Seq<char>)
    requires
        listable(b.env),
    ensures
        read_block(block_tree(b), what) == Ok::<_, ErrorModel>(b),
{
    lemma_key_literals();
    let has_env = b.env != Map::<Seq<char>, Seq<char>>::empty();
    let e = Seq::<(Seq<char>, TreeModel)>::empty();
    let d1 = with_entry(e, has_env, "env"@, env_tree(b.env));
    let has_path = b.path_prepend.len() > 0;
    let path = texts_tree(b.path_prepend);
    lemma_entry_push(e, has_env, "env"@, env_tree(b.env), "env"@);
    lemma_entry_push(e, has_env, "env"@, env_tree(b.env), "path_prepend"@);
    lemma_entry_push(d1, has_path, "path_prepend"@, path, "env"@);
    lemma_entry_push(d1, has_path, "path_prepend"@, path, "path_prepend"@);
    lemma_read_texts(b.path_prepend, what + "."@ + "path_prepend"@);
    lemma_read_env(listed(b.env), what + "."@ + "env"@);
    assert(lists(listed(b.env), b.env));
    if !has_path {
        assert(b.path_prepend =~= Seq::<Seq<char>>::empty());
    }
}

proof fn lemma_policy_words()
    ensures
        forall|p: RestartPolicy| policy_of(#[trigger] policy_word(p)) == Some(p),
        forall|p: RestartPolicy| readable(TreeModel::Text(#[trigger] policy_word(p))),
{
    reveal_strlit("no");
    reveal_strlit("on-failure");
    reveal_strlit("always");
    assert("no"@.len() == 2 && "on-failure"@.len() == 10 && "always"@.len() == 6);
    assert forall|p: RestartPolicy| readable(TreeModel::Text(#[trigger] policy_word(p))) by {
        lemma_unquoted_text(uncut(), policy_word(p));
    }
}

proof fn lemma_read_tool(t: ToolModel, what: Seq<char>)
    requires
        listable(t.env),
    ensures
        read_tool(tool_tree(t), what) == Ok::<_, ErrorModel>(t),
{
    lemma_key_literals();
    lemma_policy_words();
    let e = Seq::<(Seq<char>, TreeModel)>::empty();
    let (b1, b2, b3) = (
        t.args.len() > 0,
        t.env != Map::<Seq<char>, Seq<char>>::empty(),
        t.restart != RestartPolicy::No,
    );
    let (t1, t2, t3, t4) = (
        texts_tree(t.args),
        env_tree(t.env),
        TreeModel::Text(policy_word(t.restart)),
        TreeModel::Text(t.run),
    );
    let d1 = with_entry(e, b1, "args"@, t1);
    let d2 = with_entry(d1, b2, "env"@, t2);
    let d3 = with_entry(d2, b3, "restart"@, t3);
    let d4 = with_entry(d3, true, "run"@, t4);
    assert forall|key: Seq<char>| #[trigger]
        field(tool_tree(t), key) == (if key == "run"@ {
            Some(t4)
        } else if b3 && key == "restart"@ {
            Some(t3)
        } else if b2 && key == "env"@ {
            Some(t2)
        } else if b1 && key == "args"@ {
            Some(t1)
        } else {
            None
        }) by {
        lemma_entry_push(e, b1, "args"@, t1, key);
        lemma_entry_push(d1, b2, "env"@, t2, key);
        lemma_entry_push(d2, b3, "restart"@, t3, key);
        lemma_entry_push(d3, true, "run"@, t4, key);
    }
    lemma_read_texts(t.args, what + "."@ + "args"@);
    lemma_read_env(listed(t.env), what + "."@ + "env"@);
    assert(lists(listed(t.env), t.env));
    if !b1 {
        assert(t.args =~= Seq::<Seq<char>>::empty());
    }
}

proof fn lemma_read_package(p: PackageModel, i: nat)
    ensures
        read_package(package_tree(p), i) == Ok::<_, ErrorModel>(p),
{
    lemma_key_literals();
    let e = Seq::<(Seq<char>, TreeModel)>::empty();
    let d1 = with_entry(e, true, "name"@, TreeModel::Text(p.name));
    let d2 = with_entry(d1, true, "source"@, TreeModel::Text(p.source));
    let d3 = with_entry(d2, true, "version"@, TreeModel::Text(p.version));
    assert(package_tree(p) == TreeModel::Dict(d3)) by {
        assert(d3 =~= seq![
            ("name"@, TreeModel::Text(p.name)),
            ("source"@, TreeModel::Text(p.source)),
            ("version"@, TreeModel::Text(p.version)),
        ]);
    }
    assert forall|key: Seq<char>| #[trigger]
        field(TreeModel::Dict(d3), key) == (if key == "version"@ {
            Some(TreeModel::Text(p.version))
        } else if key == "source"@ {
            Some(TreeModel::Text(p.source))
        } else if key == "name"@ {
            Some(TreeModel::Text(p.name))
        } else {
            None
        }) by {
        lemma_entry_push(e, true, "name"@, TreeModel::Text(p.name), key);
        lemma_entry_push(d1, true, "source"@, TreeModel::Text(p.source), key);
        lemma_entry_push(d2, true, "version"@, TreeModel::Text(p.version), key);
    }
}

proof fn lemma_read_packages(s: Seq<PackageModel>)
    ensures
        read_packages(Seq::new(s.len(), |i: int| package_tree(s[i]))) == Ok::<_, ErrorModel>(s),
    decreases s.len(),
{
    let l = Seq::new(s.len(), |i: int| package_tree(s[i]));
    if s.len() > 0 {
        let m = s.drop_last();
        lemma_read_packages(m);
        assert(l.drop_last() =~= Seq::new(m.len(), |i: int| package_tree(m[i])));
        lemma_read_package(s.last(), (s.len() - 1) as nat);
        assert(m.push(s.last()) =~= s);
    } else {
        assert(s =~= Seq::<PackageModel>::empty());
    }
}

proof fn lemma_read_blocks(l: Seq<(Seq<char>, BlockModel)>)
    requires
        forall|i: int| 0 <= i < l.len() ==> listable((#[trigger] l[i]).1.env),
    ensures
        read_blocks(Seq::new(l.len(), |i: int| (l[i].0, block_tree(l[i].1)))) == Ok::<
            _,
            ErrorModel,
        >(map_of(l)),
    decreases l.len(),
{
    let d = Seq::new(l.len(), |i: int| (l[i].0, block_tree(l[i].1)));
    if l.len() > 0 {
        let m = l.drop_last();
        assert forall|i: int| 0 <= i < m.len() implies listable((#[trigger] m[i]).1.env) by {
            assert(m[i] == l[i]);
        }
        lemma_read_blocks(m);
        assert(d.drop_last() =~= Seq::new(m.len(), |i: int| (m[i].0, block_tree(m[i].1))));
        lemma_read_block(l.last().1, "activation."@ + l.last().0);
    }
}

proof fn lemma_read_tools(l: Seq<(Seq<char>, ToolModel)>)
    requires
        forall|i: int| 0 <= i < l.len() ==> listable((#[trigger] l[i]).1.env),
    ensures
        read_tools(Seq::new(l.len(), |i: int| (l[i].0, tool_tree(l[i].1)))) == Ok::<
            _,
            ErrorModel,
        >(map_of(l)),
    decreases l.len(),
{
    let d = Seq::new(l.len(), |i: int| (l[i].0, tool_tree(l[i].1)));
    if l.len() > 0 {
        let m = l.drop_last();
        assert forall|i: int| 0 <= i < m.len() implies listable((#[trigger] m[i]).1.env) by {
            assert(m[i] == l[i]);
        }
        lemma_read_tools(m);
        assert(d.drop_last() =~= Seq::new(m.len(), |i: int| (m[i].0, tool_tree(m[i].1))));
        lemma_read_tool(l.last().1, "tools."@ + l.last().0);
    }
}

/// The entries of a manifest's table.
proof fn lemma_manifest_fields(m: ManifestModel)
    ensures
        forall|key: Seq<char>| #[trigger]
            field(manifest_tree(m), key) == (if key == "version"@ {
                Some(TreeModel::Text(m.version))
            } else if key == "tools"@ && m.tools != Map::<Seq<char>, ToolModel>::empty() {
                Some(tools_tree(m.tools))
            } else if key == "packages"@ && m.packages.len() > 0 {
                Some(packages_tree(m.packages))
            } else if key == "name"@ {
                Some(TreeModel::Text(m.name))
            } else if key == "description"@ && m.description is Some {
                Some(TreeModel::Text(m.description->0))
            } else if key == "activation"@ && m.activation != Map::<
                Seq<char>,
                BlockModel,
            >::empty() {
                Some(blocks_tree(m.activation))
            } else {
                None
            }),
{
    lemma_key_literals();
    let e = Seq::<(Seq<char>, TreeModel)>::empty();
    let b1 = m.activation != Map::<Seq<char>, BlockModel>::empty();
    let b2 = m.description is Some;
    let b4 = m.packages.len() > 0;
    let b5 = m.tools != Map::<Seq<char>, ToolModel>::empty();
    let t2 = TreeModel::Text(m.description->0);
    let t3 = TreeModel::Text(m.name);
    let t6 = TreeModel::Text(m.version);
    let d1 = with_entry(e, b1, "activation"@, blocks_tree(m.activation));
    let d2 = with_entry(d1, b2, "description"@, t2);
    let d3 = with_entry(d2, true, "name"@, t3);
    let d4 = with_entry(d3, b4, "packages"@, packages_tree(m.packages));
    let d5 = with_entry(d4, b5, "tools"@, tools_tree(m.tools));
    let d6 = with_entry(d5, true, "version"@, t6);
    assert(manifest_tree(m) == TreeModel::Dict(d6));
    assert forall|key: Seq<char>| true implies #[trigger] field(manifest_tree(m), key) == (if key
        == "version"@ {
        Some(t6)
    } else if key == "tools"@ && b5 {
        Some(tools_tree(m.tools))
    } else if key == "packages"@ && b4 {
        Some(packages_tree(m.packages))
    } else if key == "name"@ {
        Some(t3)
    } else if key == "description"@ && b2 {
        Some(t2)
    } else if key == "activation"@ && b1 {
        Some(blocks_tree(m.activation))
    } else {
        None
    }) by {
        lemma_entry_push(e, b1, "activation"@, blocks_tree(m.activation), key);
        lemma_entry_push(d1, b2, "description"@, t2, key);
        lemma_entry_push(d2, true, "name"@, t3, key);
        lemma_entry_push(d3, b4, "packages"@, packages_tree(m.packages), key);
        lemma_entry_push(d4, b5, "tools"@, tools_tree(m.tools), key);
        lemma_entry_push(d5, true, "version"@, t6, key);
    }
}

/// A manifest's document spells that manifest.
pub proof fn law_manifest_reads_back(m: ManifestModel)
    requires
        well_listed(m),
    ensures
        read_manifest(manifest_doc(m).config) == Ok::<ManifestModel, ErrorModel>(m),
{
    lemma_key_literals();
    lemma_manifest_fields(m);
    lemma_read_packages(m.packages);
    let la = listed(m.activation);
    let lt = listed(m.tools);
    assert(lists(la, m.activation));
    assert(lists(lt, m.tools));
    assert forall|i: int| 0 <= i < la.len() implies listable((#[trigger] la[i]).1.env) by {
        lemma_map_of_at(la, i);
        assert(m.activation.contains_key(la[i].0));
    }
    assert forall|i: int| 0 <= i < lt.len() implies listable((#[trigger] lt[i]).1.env) by {
        lemma_map_of_at(lt, i);
        assert(m.tools.contains_key(lt[i].0));
    }
    lemma_read_blocks(la);
    lemma_read_tools(lt);
    if m.packages.len() == 0 {
        assert(m.packages =~= Seq::<PackageModel>::empty());
    }
}

/// Every key of `d` stands before `k`.
spec fn below(d: Seq<(Seq<char>, TreeModel)>, k: Seq<char>) -> bool {
    forall|i: int| 0 <= i < d.len() ==> text_lt((#[trigger] d[i]).0, k)
}

/// Every entry of `d` may stand at the top of a document with a named head.
spec fn head_entries(d: Seq<(Seq<char>, TreeModel)>) -> bool {
    forall|i: int|
        0 <= i < d.len() ==> bare_key((#[trigger] d[i]).0) && (d[i].1 is Dict || flat(d[i].1))
}

/// An entry more, whose key comes after those there are.
proof fn lemma_grow(
    d: Seq<(Seq<char>, TreeModel)>,
    present: bool,
    k: Seq<char>,
    t: TreeModel,
    next: Seq<char>,
    lines: nat,
)
    requires
        rising(d),
        below(d, k),
        text_lt(k, next),
        bare_key(k),
    ensures
        rising(with_entry(d, present, k, t)),
        below(with_entry(d, present, k, t), next),
        head_entries(d) && (present ==> t is Dict || flat(t)) ==> head_entries(
            with_entry(d, present, k, t),
        ),
        printable_dict(d, lines) && (present ==> printable_tree(t, lines)) ==> printable_dict(
            with_entry(d, present, k, t),
            lines,
        ),
{
    let e = with_entry(d, present, k, t);
    assert forall|i: int| 0 <= i < e.len() implies text_lt((#[trigger] e[i]).0, next) by {
        if i < d.len() {
            assert(e[i] == d[i]);
            lemma_text_lt_transitive(d[i].0, k, next);
        }
    }
    assert forall|i: int, j: int| 0 <= i < j < e.len() implies text_lt(
        #[trigger] e[i].0,
        #[trigger] e[j].0,
    ) by {
        assert(e[i] == d[i]);
        if j < d.len() {
            assert(e[j] == d[j]);
        }
    }
    assert(d.push((k, t)).drop_last() =~= d);
    if head_entries(d) && (present ==> t is Dict || flat(t)) {
        assert forall|i: int| 0 <= i < e.len() implies bare_key((#[trigger] e[i]).0) && (e[i].1
            is Dict || flat(e[i].1)) by {
            if i < d.len() {
                assert(e[i] == d[i]);
            }
        }
    }
}

/// A text that comes after every key used here.
spec fn last_key() -> Seq<char> {
    seq!['z']
}

proof fn lemma_last_key()
    ensures
        text_lt("version"@, last_key()),
        text_lt("run"@, last_key()),
        text_lt("path_prepend"@, last_key()),
{
    reveal_strlit("version");
    reveal_strlit("run");
    reveal_strlit("path_prepend");
}

/// Every value of `d` has at most `levels` levels.
spec fn shallow_entries(d: Seq<(Seq<char>, TreeModel)>, levels: nat) -> bool {
    forall|i: int| 0 <= i < d.len() ==> shallow((#[trigger] d[i]).1, levels)
}

proof fn lemma_shallow_grow(
    d: Seq<(Seq<char>, TreeModel)>,
    present: bool,
    k: Seq<char>,
    t: TreeModel,
    levels: nat,
)
    requires
        shallow_entries(d, levels),
        present ==> shallow(t, levels),
    ensures
        shallow_entries(with_entry(d, present, k, t), levels),
{
    let e = with_entry(d, present, k, t);
    assert forall|i: int| 0 <= i < e.len() implies shallow((#[trigger] e[i]).1, levels) by {
        if i < d.len() {
            assert(e[i] == d[i]);
        }
    }
}

proof fn lemma_shallow_parts(b: BlockModel, t: ToolModel, p: PackageModel, levels: nat)
    requires
        levels >= 2,
    ensures
        shallow(block_tree(b), levels),
        shallow(tool_tree(t), levels),
        shallow(package_tree(p), levels),
{
    let n = (levels - 1) as nat;
    let e = Seq::<(Seq<char>, TreeModel)>::empty();
    assert forall|s: Seq<Seq<char>>| shallow(#[trigger] texts_tree(s), n) by {
        let l = Seq::new(s.len(), |i: int| TreeModel::Text(s[i]));
        assert forall|i: int| 0 <= i < l.len() implies shallow(
            #[trigger] l[i],
            (n - 1) as nat,
        ) by {
            assert(l[i] == TreeModel::Text(s[i]));
        }
    }
    assert forall|m: Map<Seq<char>, Seq<char>>| shallow(#[trigger] env_tree(m), n) by {
        let l = listed(m);
        let d = Seq::new(l.len(), |i: int| (l[i].0, TreeModel::Text(l[i].1)));
        assert forall|i: int| 0 <= i < d.len() implies shallow(
            (#[trigger] d[i]).1,
            (n - 1) as nat,
        ) by {
            assert(d[i].1 == TreeModel::Text(l[i].1));
        }
    }
    let has_env = b.env != Map::<Seq<char>, Seq<char>>::empty();
    let c1 = with_entry(e, has_env, "env"@, env_tree(b.env));
    lemma_shallow_grow(e, has_env, "env"@, env_tree(b.env), n);
    lemma_shallow_grow(
        c1,
        b.path_prepend.len() > 0,
        "path_prepend"@,
        texts_tree(b.path_prepend),
        n,
    );
    let b2 = t.env != Map::<Seq<char>, Seq<char>>::empty();
    let b3 = t.restart != RestartPolicy::No;
    let t3 = TreeModel::Text(policy_word(t.restart));
    let d1 = with_entry(e, t.args.len() > 0, "args"@, texts_tree(t.args));
    let d2 = with_entry(d1, b2, "env"@, env_tree(t.env));
    let d3 = with_entry(d2, b3, "restart"@, t3);
    lemma_shallow_grow(e, t.args.len() > 0, "args"@, texts_tree(t.args), n);
    lemma_shallow_grow(d1, b2, "env"@, env_tree(t.env), n);
    lemma_shallow_grow(d2, b3, "restart"@, t3, n);
    lemma_shallow_grow(d3, true, "run"@, TreeModel::Text(t.run), n);
    assert(tool_tree(t) == TreeModel::Dict(
        with_entry(d3, true, "run"@, TreeModel::Text(t.run)),
    ));
    let f = package_tree(p)->Dict_0;
    assert(shallow_entries(f, n));
}

/// A manifest's document has few levels.
proof fn lemma_shallow_manifest(m: ManifestModel, levels: nat)
    requires
        levels >= 4,
    ensures
        shallow(manifest_tree(m), levels),
{
    let n = (levels - 1) as nat;
    let o = (levels - 2) as nat;
    let e = Seq::<(Seq<char>, TreeModel)>::empty();
    assert(shallow(blocks_tree(m.activation), n)) by {
        let l = listed(m.activation);
        let d = Seq::new(l.len(), |i: int| (l[i].0, block_tree(l[i].1)));
        assert forall|i: int| 0 <= i < d.len() implies shallow((#[trigger] d[i]).1, o) by {
            lemma_shallow_parts(l[i].1, arbitrary(), arbitrary(), o);
        }
    }
    assert(shallow(tools_tree(m.tools), n)) by {
        let l = listed(m.tools);
        let d = Seq::new(l.len(), |i: int| (l[i].0, tool_tree(l[i].1)));
        assert forall|i: int| 0 <= i < d.len() implies shallow((#[trigger] d[i]).1, o) by {
            lemma_shallow_parts(arbitrary(), l[i].1, arbitrary(), o);
        }
    }
    assert(shallow(packages_tree(m.packages), n)) by {
        let l = Seq::new(m.packages.len(), |i: int| package_tree(m.packages[i]));
        assert forall|i: int| 0 <= i < l.len() implies shallow(#[trigger] l[i], o) by {
            lemma_shallow_parts(arbitrary(), arbitrary(), m.packages[i], o);
        }
    }
    let b1 = m.activation != Map::<Seq<char>, BlockModel>::empty();
    let b2 = m.description is Some;
    let b4 = m.packages.len() > 0;
    let b5 = m.tools != Map::<Seq<char>, ToolModel>::empty();
    let t2 = TreeModel::Text(m.description->0);
    let t3 = TreeModel::Text(m.name);
    let t6 = TreeModel::Text(m.version);
    let d1 = with_entry(e, b1, "activation"@, blocks_tree(m.activation));
    let d2 = with_entry(d1, b2, "description"@, t2);
    let d3 = with_entry(d2, true, "name"@, t3);
    let d4 = with_entry(d3, b4, "packages"@, packages_tree(m.packages));
    let d5 = with_entry(d4, b5, "tools"@, tools_tree(m.tools));
    let d6 = with_entry(d5, true, "version"@, t6);
    lemma_shallow_grow(e, b1, "activation"@, blocks_tree(m.activation), n);
    lemma_shallow_grow(d1, b2, "description"@, t2, n);
    lemma_shallow_grow(d2, true, "name"@, t3, n);
    lemma_shallow_grow(d3, b4, "packages"@, packages_tree(m.packages), n);
    lemma_shallow_grow(d4, b5, "tools"@, tools_tree(m.tools), n);
    lemma_shallow_grow(d5, true, "version"@, t6, n);
    assert(manifest_tree(m) == TreeModel::Dict(d6));
}

/// A manifest's document has a named head, whatever the manifest holds.
proof fn lemma_named_head(m: ManifestModel)
    ensures
        named_head(manifest_doc(m)),
        bare_keys(manifest_tree(m)),
{
    lemma_key_literals();
    lemma_last_key();
    lemma_manifest_fields(m);
    let e = Seq::<(Seq<char>, TreeModel)>::empty();
    let b1 = m.activation != Map::<Seq<char>, BlockModel>::empty();
    let b2 = m.description is Some;
    let b4 = m.packages.len() > 0;
    let b5 = m.tools != Map::<Seq<char>, ToolModel>::empty();
    let t2 = TreeModel::Text(m.description->0);
    let t3 = TreeModel::Text(m.name);
    let t6 = TreeModel::Text(m.version);
    let d1 = with_entry(e, b1, "activation"@, blocks_tree(m.activation));
    let d2 = with_entry(d1, b2, "description"@, t2);
    let d3 = with_entry(d2, true, "name"@, t3);
    let d4 = with_entry(d3, b4, "packages"@, packages_tree(m.packages));
    let d5 = with_entry(d4, b5, "tools"@, tools_tree(m.tools));
    let d6 = with_entry(d5, true, "version"@, t6);
    assert(manifest_tree(m) == TreeModel::Dict(d6));
    assert(flat(packages_tree(m.packages))) by {
        let l = Seq::new(m.packages.len(), |i: int| package_tree(m.packages[i]));
        assert forall|i: int| 0 <= i < l.len() implies flat_table(#[trigger] l[i]) by {
            let d = l[i]->Dict_0;
            assert(d.len() == 3);
            assert(d[0].0 == "name"@ && d[1].0 == "source"@ && d[2].0 == "version"@);
        }
    }
    lemma_grow(e, b1, "activation"@, blocks_tree(m.activation), "description"@, 2);
    lemma_grow(d1, b2, "description"@, t2, "name"@, 2);
    lemma_grow(d2, true, "name"@, t3, "packages"@, 2);
    lemma_grow(d3, b4, "packages"@, packages_tree(m.packages), "tools"@, 2);
    lemma_grow(d4, b5, "tools"@, tools_tree(m.tools), "version"@, 2);
    lemma_grow(d5, true, "version"@, t6, last_key(), 2);
    assert(head_entries(d6));
}

/// A manifest of whose text the parser takes each value for one piece: each text
/// on a line of its own, each list and each table of variables. The names of
/// activation blocks and tools are bare keys.
pub open spec fn firm_manifest(m: ManifestModel) -> bool {
    &&& readable(TreeModel::Text(m.name))
    &&& readable(TreeModel::Text(m.version))
    &&& m.description is Some ==> readable(TreeModel::Text(m.description->0))
    &&& readable(packages_tree(m.packages))
    &&& forall|k: Seq<char>| #[trigger]
        m.activation.contains_key(k) ==> bare_key(k) && readable(
            texts_tree(m.activation[k].path_prepend),
        ) && readable(env_tree(m.activation[k].env))
    &&& forall|k: Seq<char>| #[trigger]
        m.tools.contains_key(k) ==> bare_key(k) && readable(TreeModel::Text(m.tools[k].run))
            && readable(texts_tree(m.tools[k].args)) && readable(env_tree(m.tools[k].env))
}

/// A manifest whose text reads back as it is: it is firm, and all of it is
/// ASCII.
pub open spec fn plain_manifest(m: ManifestModel) -> bool {
    firm_manifest(m) && ascii_tree(manifest_tree(m))
}

proof fn lemma_printable_dict(d: Seq<(Seq<char>, TreeModel)>, lines: nat)
    requires
        forall|i: int|
            0 <= i < d.len() ==> bare_key((#[trigger] d[i]).0) && printable_tree(d[i].1, lines),
    ensures
        printable_dict(d, lines),
    decreases d.len(),
{
    if d.len() > 0 {
        let l = d[d.len() - 1];
        assert(bare_key(l.0) && printable_tree(l.1, lines));
        assert forall|i: int| 0 <= i < d.drop_last().len() implies bare_key(
            (#[trigger] d.drop_last()[i]).0,
        ) && printable_tree(d.drop_last()[i].1, lines) by {
            assert(d.drop_last()[i] == d[i]);
        }
        lemma_printable_dict(d.drop_last(), lines);
    }
}

proof fn lemma_printable_block(b: BlockModel)
    requires
        readable(env_tree(b.env)),
        readable(texts_tree(b.path_prepend)),
    ensures
        printable_tree(block_tree(b), 1),
{
    lemma_key_literals();
    lemma_last_key();
    let e = Seq::<(Seq<char>, TreeModel)>::empty();
    let has_env = b.env != Map::<Seq<char>, Seq<char>>::empty();
    let d1 = with_entry(e, has_env, "env"@, env_tree(b.env));
    lemma_grow(e, has_env, "env"@, env_tree(b.env), "path_prepend"@, 0);
    lemma_grow(
        d1,
        b.path_prepend.len() > 0,
        "path_prepend"@,
        texts_tree(b.path_prepend),
        last_key(),
        0,
    );
}

proof fn lemma_printable_tool(t: ToolModel)
    requires
        readable(env_tree(t.env)),
        readable(texts_tree(t.args)),
        readable(TreeModel::Text(t.run)),
    ensures
        printable_tree(tool_tree(t), 1),
{
    lemma_key_literals();
    lemma_last_key();
    lemma_policy_words();
    let e = Seq::<(Seq<char>, TreeModel)>::empty();
    let b2 = t.env != Map::<Seq<char>, Seq<char>>::empty();
    let b3 = t.restart != RestartPolicy::No;
    let t3 = TreeModel::Text(policy_word(t.restart));
    let d1 = with_entry(e, t.args.len() > 0, "args"@, texts_tree(t.args));
    let d2 = with_entry(d1, b2, "env"@, env_tree(t.env));
    let d3 = with_entry(d2, b3, "restart"@, t3);
    let d4 = with_entry(d3, true, "run"@, TreeModel::Text(t.run));
    lemma_grow(e, t.args.len() > 0, "args"@, texts_tree(t.args), "env"@, 0);
    lemma_grow(d1, b2, "env"@, env_tree(t.env), "restart"@, 0);
    lemma_grow(d2, b3, "restart"@, t3, "run"@, 0);
    lemma_grow(d3, true, "run"@, TreeModel::Text(t.run), last_key(), 0);
    assert(tool_tree(t) == TreeModel::Dict(d4));
}

/// The document of a firm manifest is firm.
proof fn lemma_firm_manifest(m: ManifestModel)
    requires
        well_listed(m),
        firm_manifest(m),
    ensures
        firm(manifest_doc(m)),
{
    lemma_key_literals();
    lemma_last_key();
    let e = Seq::<(Seq<char>, TreeModel)>::empty();
    let b1 = m.activation != Map::<Seq<char>, BlockModel>::empty();
    let b2 = m.description is Some;
    let b4 = m.packages.len() > 0;
    let b5 = m.tools != Map::<Seq<char>, ToolModel>::empty();
    let t2 = TreeModel::Text(m.description->0);
    let t3 = TreeModel::Text(m.name);
    let t6 = TreeModel::Text(m.version);
    let d1 = with_entry(e, b1, "activation"@, blocks_tree(m.activation));
    let d2 = with_entry(d1, b2, "description"@, t2);
    let d3 = with_entry(d2, true, "name"@, t3);
    let d4 = with_entry(d3, b4, "packages"@, packages_tree(m.packages));
    let d5 = with_entry(d4, b5, "tools"@, tools_tree(m.tools));
    let d6 = with_entry(d5, true, "version"@, t6);
    assert(manifest_tree(m) == TreeModel::Dict(d6));
    assert(printable_tree(blocks_tree(m.activation), 2)) by {
        let l = listed(m.activation);
        let d = Seq::new(l.len(), |i: int| (l[i].0, block_tree(l[i].1)));
        assert(lists(l, m.activation));
        assert forall|i: int| 0 <= i < d.len() implies bare_key((#[trigger] d[i]).0)
            && printable_tree(d[i].1, 1) by {
            lemma_map_of_at(l, i);
            assert(m.activation.contains_key(l[i].0));
            lemma_printable_block(l[i].1);
        }
        assert forall|i: int, j: int| 0 <= i < j < d.len() implies text_lt(
            #[trigger] d[i].0,
            #[trigger] d[j].0,
        ) by {
            assert(text_lt(l[i].0, l[j].0));
        }
        lemma_printable_dict(d, 1);
    }
    assert(printable_tree(tools_tree(m.tools), 2)) by {
        let l = listed(m.tools);
        let d = Seq::new(l.len(), |i: int| (l[i].0, tool_tree(l[i].1)));
        assert(lists(l, m.tools));
        assert forall|i: int| 0 <= i < d.len() implies bare_key((#[trigger] d[i]).0)
            && printable_tree(d[i].1, 1) by {
            lemma_map_of_at(l, i);
            assert(m.tools.contains_key(l[i].0));
            lemma_printable_tool(l[i].1);
        }
        assert forall|i: int, j: int| 0 <= i < j < d.len() implies text_lt(
            #[trigger] d[i].0,
            #[trigger] d[j].0,
        ) by {
            assert(text_lt(l[i].0, l[j].0));
        }
        lemma_printable_dict(d, 1);
    }
    lemma_grow(e, b1, "activation"@, blocks_tree(m.activation), "description"@, 2);
    lemma_grow(d1, b2, "description"@, t2, "name"@, 2);
    lemma_grow(d2, true, "name"@, t3, "packages"@, 2);
    lemma_grow(d3, b4, "packages"@, packages_tree(m.packages), "tools"@, 2);
    lemma_grow(d4, b5, "tools"@, tools_tree(m.tools), "version"@, 2);
    lemma_grow(d5, true, "version"@, t6, last_key(), 2);
}

/// The document of a plain manifest is printable.
proof fn lemma_printable_manifest(m: ManifestModel)
    requires
        well_listed(m),
        plain_manifest(m),
    ensures
        printable(manifest_doc(m)),
{
    lemma_key_literals();
    lemma_manifest_fields(m);
    lemma_firm_manifest(m);
}

/// Which rules the document of a manifest breaks.
proof fn lemma_manifest_rules(m: ManifestModel)
    ensures
        name_broken(manifest_doc(m)) <==> !well_named(m.name),
        version_broken(manifest_doc(m)) <==> m.version.len() == 0,
        rules_met(manifest_doc(m)) <==> well_named(m.name) && m.version.len() > 0,
{
    lemma_key_literals();
    lemma_manifest_fields(m);
    let h = head_rules();
    assert(h.contains_key("name"@) && h["name"@] == name_rules());
    assert(h.contains_key("version"@) && h["version"@] == version_rules());
    assert(h != no_rules()) by {
        assert(!no_rules().contains_key("name"@));
    }
}

/// `x` is what reading a manifest can make of `source`.
pub open spec fn reads_manifest(source: Seq<char>, x: Result<ManifestModel, ErrorModel>) -> bool {
    exists|d: Result<DocModel, ErrorModel>| #[trigger]
        reads_as(source, d) && x == (match d {
            Err(e) => Err(e),
            Ok(doc) => read_manifest(doc.config),
        })
}

/// `source` is the text of the plain manifest `m`, and the parser can hold it.
pub open spec fn spells(source: Seq<char>, m: ManifestModel) -> bool {
    &&& dumped(manifest_doc(m)) == unmarked(source)
    &&& calm(unmarked(source))
    &&& well_listed(m)
    &&& plain_manifest(m)
    &&& well_named(m.name)
    &&& m.version.len() > 0
}

/// `x` is what reading a manifest makes of `source`, whatever the parser makes
/// of it: the same manifest, or no manifest.
pub open spec fn reads_only_manifest(
    source: Seq<char>,
    x: Result<ManifestModel, ErrorModel>,
) -> bool {
    forall|y: Result<ManifestModel, ErrorModel>| #[trigger]
        reads_manifest(source, y) ==> (y is Ok <==> x is Ok) && (x is Ok ==> y == x)
}

/// A manifest that would not read back, and why.
#[derive(Debug, PartialEq, Eq)]
pub struct Refused {
    pub cause: ReadError,
}

impl Refused {
    /// The text of the refusal for the file at `path`.
    pub fn message(&self, path: &str) -> (r: String)
        ensures
            r@ == "refusing to write invalid manifest to "@ + path@,
    {
        let mut r = "refusing to write invalid manifest to ".to_owned();
        r.push_str(path);
        r
    }
}

impl Manifest {
    /// Read a manifest from TOML+ text.
    ///
    /// The text of a plain manifest whose name is well-formed and whose version
    /// is not empty reads back as the manifest. No text of a manifest whose name
    /// is not well-formed reads back, nor that of a plain manifest whose version
    /// is empty. A text that refers to nothing outside of it, and that of a firm
    /// manifest, always reads the same.
    pub fn from_tomlp(source: &str) -> (r: Result<Manifest, ReadError>)
        ensures
            reads_manifest(source@, outcome(r)),
            settled(unmarked(source@)) ==> reads_only_manifest(source@, outcome(r)),
            forall|m: ManifestModel|
                #![trigger manifest_doc(m)]
                dumped(manifest_doc(m)) == unmarked(source@) && well_listed(m) && firm_manifest(m)
                    ==> reads_only_manifest(source@, outcome(r)),
            r is Ok ==> calm(unmarked(source@)),
            forall|m: ManifestModel| #[trigger]
                spells(source@, m) ==> outcome(r) == Ok::<ManifestModel, ErrorModel>(m),
            forall|m: ManifestModel|
                #![trigger manifest_doc(m)]
                dumped(manifest_doc(m)) == unmarked(source@) && well_listed(m) && plain_manifest(m)
                    && m.version.len() == 0 ==> r is Err,
            forall|m: ManifestModel|
                #![trigger manifest_doc(m)]
                dumped(manifest_doc(m)) == unmarked(source@) && !well_named(m.name) ==> r is Err,
    {
        let d = parse_strict(source);
        let ghost x = outcome(d);
        let r = match d {
            Err(e) => Err(e),
            Ok(doc) => Manifest::read(&doc.config),
        };
        proof {
            assert(reads_as(source@, x));
            if reads_only_as(source@, x) {
                assert forall|y: Result<ManifestModel, ErrorModel>| #[trigger]
                    reads_manifest(source@, y) implies (y is Ok <==> r is Ok) && (r is Ok ==> y
                    == outcome(r)) by {
                    let e = choose|e: Result<DocModel, ErrorModel>| #[trigger]
                        reads_as(source@, e) && y == (match e {
                            Err(e) => Err(e),
                            Ok(doc) => read_manifest(doc.config),
                        });
                    assert((e is Ok <==> x is Ok) && (x is Ok ==> e == x));
                }
            }
            assert forall|m: ManifestModel|
                #![trigger manifest_doc(m)]
                dumped(manifest_doc(m)) == unmarked(source@) && well_listed(m) && firm_manifest(
                    m,
                ) implies reads_only_manifest(source@, outcome(r)) by {
                lemma_firm_manifest(m);
                assert(reads_only_as(source@, x));
            }
            assert forall|m: ManifestModel| #[trigger] spells(source@, m) implies outcome(r)
                == Ok::<ManifestModel, ErrorModel>(m) by {
                lemma_printable_manifest(m);
                lemma_manifest_rules(m);
                law_manifest_reads_back(m);
            }
            assert forall|m: ManifestModel|
                #![trigger manifest_doc(m)]
                dumped(manifest_doc(m)) == unmarked(source@) && well_listed(m) && plain_manifest(m)
                    && m.version.len() == 0 implies r is Err by {
                lemma_printable_manifest(m);
                lemma_manifest_rules(m);
            }
            assert forall|m: ManifestModel|
                #![trigger manifest_doc(m)]
                dumped(manifest_doc(m)) == unmarked(source@) && !well_named(
                    m.name,
                ) implies r is Err by {
                lemma_named_head(m);
                lemma_manifest_rules(m);
            }
        }
        r
    }

    /// The manifest's text, provided that it reads back and meets its own
    /// annotations.
    ///
    /// The text of a firm manifest, and one that refers to nothing outside of it,
    /// is given exactly where it reads back. A name that is not well-formed is
    /// always refused. A plain manifest is refused exactly where its name is not
    /// well-formed or its version empty.
    pub fn rendered_and_checked(&self) -> (r: Result<String, Refused>)
        ensures
            r matches Ok(text) ==> text@ == dumped(manifest_doc(self@)) && unmarked(text@) == text@
                && calm(text@) && (exists|back: ManifestModel|
                reads_manifest(text@, Ok(back))),
            r matches Err(e) ==> reads_manifest(
                dumped(manifest_doc(self@)),
                Err::<ManifestModel, ErrorModel>(e.cause@),
            ),
            settled(dumped(manifest_doc(self@))) || firm_manifest(self@) ==> (r is Ok <==> exists|
                back: ManifestModel,
            |
                reads_manifest(dumped(manifest_doc(self@)), Ok(back))),
            !well_named(self@.name) ==> r is Err,
            plain_manifest(self@) && (calm(dumped(manifest_doc(self@))) || mild(
                manifest_doc(self@),
            )) ==> (r is Ok <==> well_named(self@.name) && self@.version.len() > 0),
            well_listed(self@),
    {
        let text = self.to_tomlp();
        assert(dumped(manifest_doc(self@)) == unmarked(text@));
        proof {
            if plain_manifest(self@) && calm(text@) && well_named(self@.name) && self@.version.len()
                > 0 {
                assert(spells(text@, self@));
            }
        }
        match Manifest::from_tomlp(text.as_str()) {
            Err(cause) => {
                assert(reads_manifest(text@, Err::<ManifestModel, ErrorModel>(cause@)));
                Err(Refused { cause })
            },
            Ok(back) => {
                assert(reads_manifest(text@, Ok(back@)));
                Ok(text)
            },
        }
    }
}

/// A text that was accepted reads back each time, and each time as the same
/// manifest: `back` is what checking it read, `x` what reading it gives later.
pub proof fn law_accepted_text_reads_back(
    text: Seq<char>,
    back: ManifestModel,
    x: Result<ManifestModel, ErrorModel>,
)
    requires
        reads_manifest(text, Ok(back)),
        reads_only_manifest(text, x),
    ensures
        x == Ok::<ManifestModel, ErrorModel>(back),
{
}

// ---- laws of reading ----

/// The words of the policies stand for them, and no other word does.
pub proof fn law_policy_words(s: Seq<char>, p: RestartPolicy)
    ensures
        policy_of(s) == Some(p) <==> s == policy_word(p),
        policy_word(RestartPolicy::No) == "no"@,
        policy_word(RestartPolicy::OnFailure) == "on-failure"@,
        policy_word(RestartPolicy::Always) == "always"@,
{
    reveal_strlit("no");
    reveal_strlit("on-failure");
    reveal_strlit("always");
    assert("no"@.len() == 2 && "on-failure"@.len() == 10 && "always"@.len() == 6);
}

/// A list of texts is read where all of its items are texts, each as it is; a list
/// that holds anything else, and what is no list, is refused.
pub proof fn law_read_texts(t: TreeModel, what: Seq<char>)
    ensures
        match read_texts(t, what) {
            Ok(v) => t matches TreeModel::List(s) && v.len() == s.len() && forall|i: int|
                0 <= i < s.len() ==> #[trigger] s[i] == TreeModel::Text(v[i]),
            Err(_) => t matches TreeModel::List(s) ==> exists|i: int|
                0 <= i < s.len() && !(#[trigger] s[i] is Text),
        },
{
}

/// A table of texts is read where every entry is a text: each key with its text,
/// and no other key. An entry that is anything else is refused.
pub proof fn law_read_env_entries(d: Seq<(Seq<char>, TreeModel)>, what: Seq<char>)
    ensures
        match read_env_entries(d, what) {
            Ok(m) => {
                &&& forall|i: int|
                    0 <= i < d.len() ==> m.contains_key((#[trigger] d[i]).0)
                &&& forall|i: int|
                    0 <= i < d.len() && (forall|j: int| i < j < d.len() ==> d[j].0 != d[i].0)
                        ==> (#[trigger] d[i]).1 == TreeModel::Text(m[d[i].0])
                &&& forall|k: Seq<char>| #[trigger]
                    m.contains_key(k) ==> exists|i: int|
                        0 <= i < d.len() && (#[trigger] d[i]).0 == k
            },
            Err(_) => exists|i: int|
                0 <= i < d.len() && !((#[trigger] d[i]).1 is Text),
        },
    decreases d.len(),
{
    if d.len() > 0 {
        let t = d.drop_last();
        let last = d.len() - 1;
        law_read_env_entries(t, what);
        match read_env_entries(t, what) {
            Err(_) => {
                let i = choose|i: int|
                    0 <= i < t.len() && !((#[trigger] t[i]).1 is Text);
                assert(t[i] == d[i]);
            },
            Ok(before) => {
                match read_env_entries(d, what) {
                    Err(_) => {
                        assert(!(d[last].1 is Text));
                    },
                    Ok(m) => {
                        assert forall|i: int| 0 <= i < d.len() implies m.contains_key(
                            (#[trigger] d[i]).0,
                        ) by {
                            if i < last {
                                assert(t[i] == d[i]);
                            }
                        }
                        assert forall|i: int|
                            0 <= i < d.len() && (forall|j: int|
                                i < j < d.len() ==> d[j].0 != d[i].0) implies
                            (#[trigger] d[i]).1 == TreeModel::Text(m[d[i].0]) by {
                            if i < last {
                                assert(t[i] == d[i]);
                                assert(d[last].0 != d[i].0);
                                assert forall|j: int| i < j < t.len() implies t[j].0 != t[i].0 by {
                                    assert(d[j].0 != d[i].0);
                                }
                            }
                        }
                        assert forall|k: Seq<char>| #[trigger] m.contains_key(k) implies exists|
                            i: int,
                        |
                            0 <= i < d.len() && (#[trigger] d[i]).0 == k by {
                            if k == d[last].0 {
                                assert(d[last].0 == k);
                            } else {
                                assert(before.contains_key(k));
                                let i = choose|i: int|
                    0 <= i < t.len() && (#[trigger] t[i]).0 == k;
                                assert(d[i].0 == k);
                            }
                        }
                    },
                }
            },
        }
    }
}

/// An activation block is read with all the paths of its list and all the
/// variables of its table; what it does not have is empty.
pub proof fn law_read_block(t: TreeModel, what: Seq<char>)
    ensures
        match read_block(t, what) {
            Ok(b) => {
                &&& t is Dict
                &&& match field(t, "path_prepend"@) {
                    Some(x) => read_texts(x, what + "."@ + "path_prepend"@) == Ok::<_, ErrorModel>(
                        b.path_prepend,
                    ),
                    None => b.path_prepend.len() == 0,
                }
                &&& match field(t, "env"@) {
                    Some(TreeModel::Dict(d)) => read_env_entries(d, what + "."@ + "env"@) == Ok::<
                        _,
                        ErrorModel,
                    >(b.env),
                    Some(_) => false,
                    None => b.env == Map::<Seq<char>, Seq<char>>::empty(),
                }
            },
            Err(_) => !(t is Dict) || (field(t, "path_prepend"@) matches Some(x) && read_texts(
                x,
                what + "."@ + "path_prepend"@,
            ) is Err) || (field(t, "env"@) matches Some(x) && !(x matches TreeModel::Dict(d)
                && read_env_entries(d, what + "."@ + "env"@) is Ok)),
        },
{
}

/// A tool is read with its program, which it has to have, all its arguments and
/// variables, and its policy, which is `no` where it has none.
pub proof fn law_read_tool(t: TreeModel, what: Seq<char>)
    ensures
        match read_tool(t, what) {
            Ok(x) => {
                &&& t is Dict
                &&& field(t, "run"@) == Some(TreeModel::Text(x.run))
                &&& match field(t, "args"@) {
                    Some(y) => read_texts(y, what + "."@ + "args"@) == Ok::<_, ErrorModel>(x.args),
                    None => x.args.len() == 0,
                }
                &&& match field(t, "env"@) {
                    Some(TreeModel::Dict(d)) => read_env_entries(d, what + "."@ + "env"@) == Ok::<
                        _,
                        ErrorModel,
                    >(x.env),
                    Some(_) => false,
                    None => x.env == Map::<Seq<char>, Seq<char>>::empty(),
                }
                &&& match field(t, "restart"@) {
                    Some(TreeModel::Text(s)) => s == policy_word(x.restart),
                    Some(_) => false,
                    None => x.restart == RestartPolicy::No,
                }
            },
            Err(_) => !(t is Dict) || !(field(t, "run"@) matches Some(TreeModel::Text(_))) || (
            field(t, "args"@) matches Some(y) && read_texts(y, what + "."@ + "args"@) is Err) || (
            field(t, "env"@) matches Some(y) && !(y matches TreeModel::Dict(d) && read_env_entries(
                d,
                what + "."@ + "env"@,
            ) is Ok)) || (field(t, "restart"@) matches Some(y) && !(y == TreeModel::Text("no"@) || y
                == TreeModel::Text("on-failure"@) || y == TreeModel::Text("always"@))),
        },
{
}

/// The table of the activation blocks is read where every block is: each under its
/// key, and no other.
pub proof fn law_read_blocks(d: Seq<(Seq<char>, TreeModel)>)
    ensures
        match read_blocks(d) {
            Ok(m) => {
                &&& forall|i: int|
                    0 <= i < d.len() ==> m.contains_key((#[trigger] d[i]).0)
                &&& forall|i: int|
                    0 <= i < d.len() && (forall|j: int| i < j < d.len() ==> d[j].0 != d[i].0)
                        ==> read_block((#[trigger] d[i]).1, "activation."@ + d[i].0)
                        == Ok::<_, ErrorModel>(m[d[i].0])
                &&& forall|k: Seq<char>| #[trigger]
                    m.contains_key(k) ==> exists|i: int|
                        0 <= i < d.len() && (#[trigger] d[i]).0 == k
            },
            Err(_) => exists|i: int|
                0 <= i < d.len() && read_block((#[trigger] d[i]).1, "activation."@ + d[i].0) is Err,
        },
    decreases d.len(),
{
    if d.len() > 0 {
        let t = d.drop_last();
        let last = d.len() - 1;
        law_read_blocks(t);
        match read_blocks(t) {
            Err(_) => {
                let i = choose|i: int|
                    0 <= i < t.len() && read_block((#[trigger] t[i]).1, "activation."@ + t[i].0) is Err;
                assert(t[i] == d[i]);
            },
            Ok(before) => {
                match read_blocks(d) {
                    Err(_) => {
                        assert(read_block(d[last].1, "activation."@ + d[last].0) is Err);
                    },
                    Ok(m) => {
                        assert forall|i: int| 0 <= i < d.len() implies m.contains_key(
                            (#[trigger] d[i]).0,
                        ) by {
                            if i < last {
                                assert(t[i] == d[i]);
                            }
                        }
                        assert forall|i: int|
                            0 <= i < d.len() && (forall|j: int|
                                i < j < d.len() ==> d[j].0 != d[i].0) implies
                            read_block((#[trigger] d[i]).1, "activation."@ + d[i].0)
                                == Ok::<_, ErrorModel>(m[d[i].0]) by {
                            if i < last {
                                assert(t[i] == d[i]);
                                assert(d[last].0 != d[i].0);
                                assert forall|j: int| i < j < t.len() implies t[j].0 != t[i].0 by {
                                    assert(d[j].0 != d[i].0);
                                }
                            }
                        }
                        assert forall|k: Seq<char>| #[trigger] m.contains_key(k) implies exists|
                            i: int,
                        |
                            0 <= i < d.len() && (#[trigger] d[i]).0 == k by {
                            if k == d[last].0 {
                                assert(d[last].0 == k);
                            } else {
                                assert(before.contains_key(k));
                                let i = choose|i: int|
                    0 <= i < t.len() && (#[trigger] t[i]).0 == k;
                                assert(d[i].0 == k);
                            }
                        }
                    },
                }
            },
        }
    }
}

/// The table of the tools is read where every tool is: each under its name, and no
/// other.
pub proof fn law_read_tools(d: Seq<(Seq<char>, TreeModel)>)
    ensures
        match read_tools(d) {
            Ok(m) => {
                &&& forall|i: int|
                    0 <= i < d.len() ==> m.contains_key((#[trigger] d[i]).0)
                &&& forall|i: int|
                    0 <= i < d.len() && (forall|j: int| i < j < d.len() ==> d[j].0 != d[i].0)
                        ==> read_tool((#[trigger] d[i]).1, "tools."@ + d[i].0)
                        == Ok::<_, ErrorModel>(m[d[i].0])
                &&& forall|k: Seq<char>| #[trigger]
                    m.contains_key(k) ==> exists|i: int|
                        0 <= i < d.len() && (#[trigger] d[i]).0 == k
            },
            Err(_) => exists|i: int|
                0 <= i < d.len() && read_tool((#[trigger] d[i]).1, "tools."@ + d[i].0) is Err,
        },
    decreases d.len(),
{
    if d.len() > 0 {
        let t = d.drop_last();
        let last = d.len() - 1;
        law_read_tools(t);
        match read_tools(t) {
            Err(_) => {
                let i = choose|i: int|
                    0 <= i < t.len() && read_tool((#[trigger] t[i]).1, "tools."@ + t[i].0) is Err;
                assert(t[i] == d[i]);
            },
            Ok(before) => {
                match read_tools(d) {
                    Err(_) => {
                        assert(read_tool(d[last].1, "tools."@ + d[last].0) is Err);
                    },
                    Ok(m) => {
                        assert forall|i: int| 0 <= i < d.len() implies m.contains_key(
                            (#[trigger] d[i]).0,
                        ) by {
                            if i < last {
                                assert(t[i] == d[i]);
                            }
                        }
                        assert forall|i: int|
                            0 <= i < d.len() && (forall|j: int|
                                i < j < d.len() ==> d[j].0 != d[i].0) implies
                            read_tool((#[trigger] d[i]).1, "tools."@ + d[i].0)
                                == Ok::<_, ErrorModel>(m[d[i].0]) by {
                            if i < last {
                                assert(t[i] == d[i]);
                                assert(d[last].0 != d[i].0);
                                assert forall|j: int| i < j < t.len() implies t[j].0 != t[i].0 by {
                                    assert(d[j].0 != d[i].0);
                                }
                            }
                        }
                        assert forall|k: Seq<char>| #[trigger] m.contains_key(k) implies exists|
                            i: int,
                        |
                            0 <= i < d.len() && (#[trigger] d[i]).0 == k by {
                            if k == d[last].0 {
                                assert(d[last].0 == k);
                            } else {
                                assert(before.contains_key(k));
                                let i = choose|i: int|
                    0 <= i < t.len() && (#[trigger] t[i]).0 == k;
                                assert(d[i].0 == k);
                            }
                        }
                    },
                }
            },
        }
    }
}

/// A list of packages is read where every item is a table with a name, a version
/// and a source, each package as it is and in its order.
pub proof fn law_read_packages(s: Seq<TreeModel>)
    ensures
        match read_packages(s) {
            Ok(v) => v.len() == s.len() && forall|i: int|
                0 <= i < s.len() ==> field(#[trigger] s[i], "name"@) == Some(
                    TreeModel::Text(v[i].name),
                ) && field(s[i], "version"@) == Some(TreeModel::Text(v[i].version)) && field(
                    s[i],
                    "source"@,
                ) == Some(TreeModel::Text(v[i].source)),
            Err(_) => exists|i: int|
                0 <= i < s.len() && !((field(#[trigger] s[i], "name"@) matches Some(
                    TreeModel::Text(_),
                )) && (field(s[i], "version"@) matches Some(TreeModel::Text(_))) && (field(
                    s[i],
                    "source"@,
                ) matches Some(TreeModel::Text(_)))),
        },
    decreases s.len(),
{
    if s.len() > 0 {
        let t = s.drop_last();
        let last = s.len() - 1;
        law_read_packages(t);
        match read_packages(t) {
            Err(_) => {
                let i = choose|i: int|
                    0 <= i < t.len() && !((field(#[trigger] t[i], "name"@) matches Some(
                        TreeModel::Text(_),
                    )) && (field(t[i], "version"@) matches Some(TreeModel::Text(_))) && (field(
                        t[i],
                        "source"@,
                    ) matches Some(TreeModel::Text(_))));
                assert(t[i] == s[i]);
            },
            Ok(before) => match read_packages(s) {
                Err(_) => {
                    assert(read_package(s[last], last as nat) is Err);
                },
                Ok(v) => {
                    assert forall|i: int| 0 <= i < s.len() implies field(#[trigger] s[i], "name"@)
                        == Some(TreeModel::Text(v[i].name)) && field(s[i], "version"@) == Some(
                        TreeModel::Text(v[i].version),
                    ) && field(s[i], "source"@) == Some(TreeModel::Text(v[i].source)) by {
                        if i < last {
                            assert(t[i] == s[i]);
                            assert(before[i] == v[i]);
                        }
                    }
                },
            },
        }
    }
}

/// A manifest is read from its document with its name and version, which have to
/// be there, its description, and all its packages, activation blocks and tools;
/// it is refused exactly where one of these is not as it has to be.
pub proof fn law_read_manifest(t: TreeModel)
    ensures
        match read_manifest(t) {
            Ok(m) => {
                &&& field(t, "name"@) == Some(TreeModel::Text(m.name))
                &&& field(t, "version"@) == Some(TreeModel::Text(m.version))
                &&& match field(t, "description"@) {
                    Some(TreeModel::Text(s)) => m.description == Some(s),
                    Some(TreeModel::Null) => m.description is None,
                    Some(_) => false,
                    None => m.description is None,
                }
                &&& match field(t, "packages"@) {
                    Some(TreeModel::List(s)) => read_packages(s) == Ok::<_, ErrorModel>(m.packages),
                    Some(_) => false,
                    None => m.packages.len() == 0,
                }
                &&& match field(t, "activation"@) {
                    Some(TreeModel::Dict(d)) => read_blocks(d) == Ok::<_, ErrorModel>(m.activation),
                    Some(_) => false,
                    None => m.activation == Map::<Seq<char>, BlockModel>::empty(),
                }
                &&& match field(t, "tools"@) {
                    Some(TreeModel::Dict(d)) => read_tools(d) == Ok::<_, ErrorModel>(m.tools),
                    Some(_) => false,
                    None => m.tools == Map::<Seq<char>, ToolModel>::empty(),
                }
            },
            Err(_) => {
                ||| !(field(t, "name"@) matches Some(TreeModel::Text(_)))
                ||| !(field(t, "version"@) matches Some(TreeModel::Text(_)))
                ||| (field(t, "description"@) matches Some(x) && !(x is Text) && !(x is Null))
                ||| (field(t, "packages"@) matches Some(x) && !(x matches TreeModel::List(s)
                    && read_packages(s) is Ok))
                ||| (field(t, "activation"@) matches Some(x) && !(x matches TreeModel::Dict(d)
                    && read_blocks(d) is Ok))
                ||| (field(t, "tools"@) matches Some(x) && !(x matches TreeModel::Dict(d)
                    && read_tools(d) is Ok))
            },
        },
{
}

/// What a manifest says is what each of its parts says, nothing more and nothing
/// less; of lists, every item in order.
pub proof fn law_manifest_says_all(m: Manifest, i: int)
    ensures
        m@.name == m.name@,
        m@.version == m.version@,
        m@.description == (match m.description {
            Some(d) => Some(d@),
            None => None,
        }),
        m@.packages.len() == m.packages@.len(),
        0 <= i < m.packages@.len() ==> m@.packages[i].name == m.packages@[i].name@
            && m@.packages[i].version == m.packages@[i].version@ && m@.packages[i].source
            == m.packages@[i].source@,
        m@.activation == m.activation@,
        m@.tools == m.tools@,
{
}

/// What a block says is what its lists say, every path in order; what a tool says
/// is what its parts say, every argument in order.
pub proof fn law_contributions_say_all(b: ActivationBlock, t: Tool, i: int)
    ensures
        b@.path_prepend.len() == b.path_prepend@.len(),
        0 <= i < b.path_prepend@.len() ==> b@.path_prepend[i] == b.path_prepend@[i]@,
        b@.env == b.env@,
        t@.run == t.run@,
        t@.args.len() == t.args@.len(),
        0 <= i < t.args@.len() ==> t@.args[i] == t.args@[i]@,
        t@.env == t.env@,
        t@.restart == t.restart,
{
}

} // verus!
