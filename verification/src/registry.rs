//! The per-machine registry: which env name stands for which directory.

use crate::manifest::put;
use crate::scan::{calm, settled};
use crate::strmap::{lemma_map_of_at, listable, listed, lists, map_of, rising, StrMap};
use crate::text::text_lt;
use crate::tomlp::{
    ascii, ascii_entries, ascii_tree, bare_key, bare_keys, dict_model, dump, dumped, entry, field,
    firm, is_key_char, kind_name, lemma_dict_model, mild, no_rules, outcome, parse_strict,
    printable, printable_dict, printable_tree, readable, reads_as, reads_only_as, rules_met,
    shallow, unmarked, Doc, DocModel, ErrorModel, ReadError, Tree, TreeModel, MAX_LEVELS,
};
use vstd::prelude::*;

verus! {

/// Where a registered env lives on this machine.
#[derive(Debug, PartialEq, Eq)]
pub struct EnvEntry {
    pub path: String,
}

impl View for EnvEntry {
    type V = Seq<char>;

    open spec fn view(&self) -> Seq<char> {
        self.path@
    }
}

/// Env names and the directories that they stand for.
#[derive(Debug, PartialEq, Eq)]
pub struct Registry {
    pub envs: StrMap<EnvEntry>,
}

impl View for Registry {
    type V = Map<Seq<char>, Seq<char>>;

    open spec fn view(&self) -> Map<Seq<char>, Seq<char>> {
        self.envs@
    }
}

/// Why the registry refuses a request.
#[derive(Debug, Clone, Copy, PartialEq, Eq, Structural)]
pub enum RegistryError {
    AlreadyRegistered,
    NotRegistered,
}

impl RegistryError {
    /// The text of the error for the env called `name`.
    pub fn message(self, name: &str) -> (r: String)
        ensures
            r@ == "env '"@ + name@ + (match self {
                RegistryError::AlreadyRegistered => "' already registered"@,
                RegistryError::NotRegistered => "' not registered"@,
            }),
    {
        let mut r = "env '".to_owned();
        r.push_str(name);
        match self {
            RegistryError::AlreadyRegistered => r.push_str("' already registered"),
            RegistryError::NotRegistered => r.push_str("' not registered"),
        }
        r
    }
}

/// The table of one env.
pub open spec fn env_entry_tree(path: Seq<char>) -> TreeModel {
    TreeModel::Dict(seq![("path"@, TreeModel::Text(path))])
}

/// The table of all envs, in the order of their names.
pub open spec fn envs_tree(m: Map<Seq<char>, Seq<char>>) -> TreeModel {
    let l = listed(m);
    TreeModel::Dict(Seq::new(l.len(), |i: int| (l[i].0, env_entry_tree(l[i].1))))
}

/// The values of the registry's document.
pub open spec fn registry_tree(m: Map<Seq<char>, Seq<char>>) -> TreeModel {
    if m == Map::<Seq<char>, Seq<char>>::empty() {
        TreeModel::Dict(Seq::empty())
    } else {
        TreeModel::Dict(seq![("envs"@, envs_tree(m))])
    }
}

/// The registry's document.
pub open spec fn registry_doc(m: Map<Seq<char>, Seq<char>>) -> DocModel {
    DocModel { config: registry_tree(m), meta: no_rules() }
}

/// The envs that the entries of a table name, or the first entry that is wrong.
pub open spec fn read_envs(d: Seq<(Seq<char>, TreeModel)>) -> Result<
    Map<Seq<char>, Seq<char>>,
    ErrorModel,
>
    decreases d.len(),
{
    if d.len() == 0 {
        Ok(Map::empty())
    } else {
        match read_envs(d.drop_last()) {
            Err(e) => Err(e),
            Ok(m) => {
                let (name, raw) = d.last();
                if !(raw is Dict) {
                    Err(ErrorModel::EntryKind { name, found: kind_name(raw) })
                } else {
                    match field(raw, "path"@) {
                        Some(TreeModel::Text(p)) => Ok(m.insert(name, p)),
                        _ => Err(ErrorModel::EntryPath { name }),
                    }
                }
            },
        }
    }
}

/// The registry that a document spells; one without a table of envs is empty.
pub open spec fn read_registry(t: TreeModel) -> Result<Map<Seq<char>, Seq<char>>, ErrorModel> {
    match field(t, "envs"@) {
        Some(TreeModel::Dict(d)) => read_envs(d),
        _ => Ok(Map::empty()),
    }
}

/// `x` is what reading a registry can make of `source`.
pub open spec fn reads_registry(
    source: Seq<char>,
    x: Result<Map<Seq<char>, Seq<char>>, ErrorModel>,
) -> bool {
    exists|d: Result<DocModel, ErrorModel>| #[trigger]
        reads_as(source, d) && x == (match d {
            Err(e) => Err(e),
            Ok(doc) => read_registry(doc.config),
        })
}

/// `x` is what reading a registry makes of `source`, whatever the parser makes
/// of it: the same registry, or none.
pub open spec fn reads_only_registry(
    source: Seq<char>,
    x: Result<Map<Seq<char>, Seq<char>>, ErrorModel>,
) -> bool {
    forall|y: Result<Map<Seq<char>, Seq<char>>, ErrorModel>| #[trigger]
        reads_registry(source, y) ==> (y is Ok <==> x is Ok) && (x is Ok ==> y == x)
}

/// A registry of whose text the parser takes each value for one piece: its names
/// are bare keys and its paths readable.
pub open spec fn firm_registry(m: Map<Seq<char>, Seq<char>>) -> bool {
    forall|k: Seq<char>| #[trigger]
        m.contains_key(k) ==> bare_key(k) && readable(TreeModel::Text(m[k]))
}

/// A registry whose text reads back as it is: it is firm, and its paths are
/// ASCII.
pub open spec fn plain_registry(m: Map<Seq<char>, Seq<char>>) -> bool {
    firm_registry(m) && forall|k: Seq<char>| #[trigger] m.contains_key(k) ==> ascii(m[k])
}

impl Registry {
    /// A registry without envs.
    pub fn new() -> (r: Registry)
        ensures
            r@ == Map::<Seq<char>, Seq<char>>::empty(),
    {
        Registry { envs: StrMap::new() }
    }

    /// Register `name` for `path`, unless the name is taken.
    pub fn insert(&mut self, name: &str, path: &str) -> (r: Result<(), RegistryError>)
        ensures
            if old(self)@.contains_key(name@) {
                r == Err::<(), _>(RegistryError::AlreadyRegistered) && final(self)@ == old(self)@
            } else {
                r is Ok && final(self)@ == old(self)@.insert(name@, path@)
            },
    {
        if self.envs.contains_key(name) {
            return Err(RegistryError::AlreadyRegistered);
        }
        self.envs.insert(name.to_owned(), EnvEntry { path: path.to_owned() });
        Ok(())
    }

    /// Take `name` out of the registry, if it is there.
    pub fn remove(&mut self, name: &str) -> (r: Result<(), RegistryError>)
        ensures
            final(self)@ == old(self)@.remove(name@),
            if old(self)@.contains_key(name@) {
                r is Ok
            } else {
                r == Err::<(), _>(RegistryError::NotRegistered)
            },
    {
        match self.envs.remove(name) {
            Some(_) => Ok(()),
            None => {
                assert(self@ =~= old(self)@.remove(name@));
                Err(RegistryError::NotRegistered)
            },
        }
    }

    /// The entry of `name`.
    pub fn get(&self, name: &str) -> (r: Result<&EnvEntry, RegistryError>)
        ensures
            match r {
                Ok(e) => self@.contains_key(name@) && e@ == self@[name@],
                Err(e) => !self@.contains_key(name@) && e == RegistryError::NotRegistered,
            },
    {
        match self.envs.get(name) {
            Some(e) => Ok(e),
            None => Err(RegistryError::NotRegistered),
        }
    }

    /// The registry's document.
    pub fn to_doc(&self) -> (r: Doc)
        ensures
            r@ == registry_doc(self@),
            listable(self@),
    {
        let n = self.envs.len();
        let ghost l = listed(self@);
        let ghost all = Seq::new(l.len(), |i: int| (l[i].0, env_entry_tree(l[i].1)));
        let mut envs: Vec<(String, Tree)> = Vec::new();
        let mut i: usize = 0;
        while i < n
            invariant
                i <= n,
                n == l.len(),
                l == listed(self@),
                all == Seq::new(l.len(), |i: int| (l[i].0, env_entry_tree(l[i].1))),
                dict_model(envs@) == all.take(i as int),
            decreases n - i,
        {
            let (k, e) = self.envs.at(i);
            let mut d: Vec<(String, Tree)> = Vec::new();
            put(&mut d, "path", Tree::Text(e.path.clone()));
            assert(dict_model(d@) =~= seq![("path"@, TreeModel::Text(e@))]);
            put(&mut envs, k.as_str(), Tree::Dict(d));
            assert(all.take(i + 1) =~= all.take(i as int).push(all[i as int]));
            i = i + 1;
        }
        assert(all.take(all.len() as int) =~= all);
        let mut config: Vec<(String, Tree)> = Vec::new();
        assert(dict_model(config@) =~= Seq::<(Seq<char>, TreeModel)>::empty());
        if !self.envs.is_empty() {
            put(&mut config, "envs", Tree::Dict(envs));
            assert(dict_model(config@) =~= seq![("envs"@, envs_tree(self@))]);
        }
        let r = Doc { config: Tree::Dict(config), meta: Vec::new() };
        assert(r@.meta =~= no_rules());
        r
    }

    /// The registry as TOML+ text.
    pub fn to_tomlp(&self) -> (r: String)
        ensures
            r@ == dumped(registry_doc(self@)),
            unmarked(r@) == r@,
            mild(registry_doc(self@)) ==> calm(r@) && settled(r@),
            listable(self@),
    {
        let doc = self.to_doc();
        proof {
            lemma_words();
            assert(bare_keys(registry_tree(self@)));
            lemma_shallow_registry(self@, MAX_LEVELS as nat);
        }
        dump(&doc)
    }

    /// The registry that a document spells.
    pub fn read(config: &Tree) -> (r: Result<Registry, ReadError>)
        ensures
            outcome(r) == read_registry(config@),
    {
        let mut envs: StrMap<EnvEntry> = StrMap::new();
        if let Some(Tree::Dict(v)) = config.get("envs") {
            let ghost d = dict_model(v@);
            proof {
                lemma_dict_model(v@);
                lemma_envs_prefix(d);
            }
            let mut i: usize = 0;
            while i < v.len()
                invariant
                    i <= v.len(),
                    d == dict_model(v@),
                    d.len() == v@.len(),
                    forall|j: int| 0 <= j < v@.len() ==> #[trigger] d[j] == (v@[j].0@, v@[j].1@),
                    read_registry(config@) == read_envs(d),
                    forall|n: int|
                        0 <= n <= d.len() && read_envs(#[trigger] d.take(n)) is Err ==> read_envs(d)
                            == read_envs(d.take(n)),
                    read_envs(d.take(i as int)) == Ok::<_, ErrorModel>(envs@),
                decreases v.len() - i,
            {
                let e = &v[i];
                assert(d[i as int] == (e.0@, e.1@));
                assert(d.take(i + 1).drop_last() =~= d.take(i as int));
                match &e.1 {
                    Tree::Dict(_) => {},
                    other => {
                        assert(read_envs(d.take(i + 1)) is Err);
                        return Err(
                            ReadError::EntryKind { name: e.0.clone(), found: other.kind() },
                        );
                    },
                }
                match e.1.get("path") {
                    Some(Tree::Text(p)) => {
                        envs.insert(e.0.clone(), EnvEntry { path: p.clone() });
                    },
                    _ => {
                        assert(read_envs(d.take(i + 1)) is Err);
                        return Err(ReadError::EntryPath { name: e.0.clone() });
                    },
                }
                i = i + 1;
            }
            assert(d.take(d.len() as int) =~= d);
        }
        Ok(Registry { envs })
    }

    /// Read a registry from TOML+ text. The text of a plain registry reads back
    /// as that registry, where the parser can hold it. A text that refers to
    /// nothing outside of it, and that of a firm registry, always reads the same.
    pub fn from_tomlp(source: &str) -> (r: Result<Registry, ReadError>)
        ensures
            reads_registry(source@, outcome(r)),
            settled(unmarked(source@)) ==> reads_only_registry(source@, outcome(r)),
            forall|m: Map<Seq<char>, Seq<char>>|
                #![trigger registry_doc(m)]
                dumped(registry_doc(m)) == unmarked(source@) && listable(m) && firm_registry(m)
                    ==> reads_only_registry(source@, outcome(r)),
            forall|m: Map<Seq<char>, Seq<char>>|
                #![trigger registry_doc(m)]
                dumped(registry_doc(m)) == unmarked(source@) && calm(unmarked(source@)) && listable(
                    m,
                ) && plain_registry(m) ==> outcome(r) == Ok::<_, ErrorModel>(m),
    {
        let d = parse_strict(source);
        let ghost x = outcome(d);
        let r = match d {
            Err(e) => Err(e),
            Ok(doc) => Registry::read(&doc.config),
        };
        proof {
            assert(reads_as(source@, x));
            if reads_only_as(source@, x) {
                assert forall|y: Result<Map<Seq<char>, Seq<char>>, ErrorModel>| #[trigger]
                    reads_registry(source@, y) implies (y is Ok <==> r is Ok) && (r is Ok ==> y
                    == outcome(r)) by {
                    let e = choose|e: Result<DocModel, ErrorModel>| #[trigger]
                        reads_as(source@, e) && y == (match e {
                            Err(e) => Err(e),
                            Ok(doc) => read_registry(doc.config),
                        });
                    assert((e is Ok <==> x is Ok) && (x is Ok ==> e == x));
                }
            }
            assert forall|m: Map<Seq<char>, Seq<char>>|
                #![trigger registry_doc(m)]
                dumped(registry_doc(m)) == unmarked(source@) && listable(m) && firm_registry(
                    m,
                ) implies reads_only_registry(source@, outcome(r)) by {
                lemma_printable_registry(m);
                assert(reads_only_as(source@, x));
            }
            assert forall|m: Map<Seq<char>, Seq<char>>|
                #![trigger registry_doc(m)]
                dumped(registry_doc(m)) == unmarked(source@) && calm(unmarked(source@)) && listable(
                    m,
                ) && plain_registry(m) implies outcome(r) == Ok::<_, ErrorModel>(m) by {
                lemma_printable_registry(m);
                law_registry_reads_back(m);
                assert(rules_met(registry_doc(m)));
            }
        }
        r
    }
}

proof fn lemma_envs_prefix(d: Seq<(Seq<char>, TreeModel)>)
    ensures
        forall|n: int|
            0 <= n <= d.len() && read_envs(#[trigger] d.take(n)) is Err ==> read_envs(d)
                == read_envs(d.take(n)),
    decreases d.len(),
{
    if d.len() > 0 {
        lemma_envs_prefix(d.drop_last());
        assert forall|n: int|
            0 <= n <= d.len() && read_envs(#[trigger] d.take(n)) is Err implies read_envs(d)
            == read_envs(d.take(n)) by {
            if n < d.len() {
                assert(d.drop_last().take(n) =~= d.take(n));
            } else {
                assert(d.take(n) =~= d);
            }
        }
    }
}

proof fn lemma_words()
    ensures
        bare_key("envs"@),
        bare_key("path"@),
        ascii("envs"@),
        ascii("path"@),
        "envs"@ != "vars"@,
{
    reveal_strlit("envs");
    reveal_strlit("path");
    reveal_strlit("vars");
    assert("envs"@[0] != "vars"@[0]);
}

proof fn lemma_read_entries(l: Seq<(Seq<char>, Seq<char>)>)
    ensures
        read_envs(Seq::new(l.len(), |i: int| (l[i].0, env_entry_tree(l[i].1)))) == Ok::<
            _,
            ErrorModel,
        >(map_of(l)),
    decreases l.len(),
{
    let d = Seq::new(l.len(), |i: int| (l[i].0, env_entry_tree(l[i].1)));
    if l.len() > 0 {
        let m = l.drop_last();
        lemma_read_entries(m);
        assert(d.drop_last() =~= Seq::new(m.len(), |i: int| (m[i].0, env_entry_tree(m[i].1))));
        let one = seq![("path"@, TreeModel::Text(l.last().1))];
        assert(one.last() == ("path"@, TreeModel::Text(l.last().1)));
    }
}

/// A registry's document spells that registry.
pub proof fn law_registry_reads_back(m: Map<Seq<char>, Seq<char>>)
    requires
        listable(m),
    ensures
        read_registry(registry_doc(m).config) == Ok::<_, ErrorModel>(m),
{
    let l = listed(m);
    assert(lists(l, m));
    lemma_read_entries(l);
    if m != Map::<Seq<char>, Seq<char>>::empty() {
        let one = seq![("envs"@, envs_tree(m))];
        assert(one.last() == ("envs"@, envs_tree(m)));
    }
}

/// A registry's document has few levels.
proof fn lemma_shallow_registry(m: Map<Seq<char>, Seq<char>>, levels: nat)
    requires
        levels >= 3,
    ensures
        shallow(registry_tree(m), levels),
{
    let l = listed(m);
    let d = Seq::new(l.len(), |i: int| (l[i].0, env_entry_tree(l[i].1)));
    assert forall|i: int| 0 <= i < d.len() implies shallow(
        (#[trigger] d[i]).1,
        (levels - 2) as nat,
    ) by {
        let one = seq![("path"@, TreeModel::Text(l[i].1))];
        assert forall|j: int| 0 <= j < one.len() implies shallow(
            (#[trigger] one[j]).1,
            (levels - 3) as nat,
        ) by {
            assert(one[j].1 == TreeModel::Text(l[i].1));
        }
        assert(shallow(TreeModel::Dict(one), (levels - 2) as nat));
    }
    assert(shallow(envs_tree(m), (levels - 1) as nat));
}

/// The document of a firm registry is firm, and that of a plain one printable.
proof fn lemma_printable_registry(m: Map<Seq<char>, Seq<char>>)
    requires
        listable(m),
        firm_registry(m),
    ensures
        firm(registry_doc(m)),
        plain_registry(m) ==> printable(registry_doc(m)),
{
    let plain = plain_registry(m);
    lemma_words();
    let l = listed(m);
    assert(lists(l, m));
    let d = Seq::new(l.len(), |i: int| (l[i].0, env_entry_tree(l[i].1)));
    assert forall|i: int| 0 <= i < d.len() implies bare_key((#[trigger] d[i]).0) && printable_tree(
        d[i].1,
        1,
    ) && (plain ==> ascii_tree(d[i].1)) by {
        lemma_map_of_at(l, i);
        assert(m.contains_key(l[i].0));
        let one = seq![("path"@, TreeModel::Text(l[i].1))];
        assert(one.drop_last() =~= Seq::<(Seq<char>, TreeModel)>::empty());
        assert(printable_dict(one.drop_last(), 0) && ascii_entries(one.drop_last()));
        assert(printable_tree(TreeModel::Text(l[i].1), 0));
        assert(plain ==> ascii_tree(TreeModel::Text(l[i].1)));
        assert(printable_dict(one, 0) && (plain ==> ascii_entries(one)));
        assert(rising(one));
    }
    assert forall|i: int, j: int| 0 <= i < j < d.len() implies text_lt(
        #[trigger] d[i].0,
        #[trigger] d[j].0,
    ) by {
        assert(text_lt(l[i].0, l[j].0));
    }
    lemma_printable_table(d, plain);
    assert(printable_tree(TreeModel::Dict(d), 2));
    let none = Seq::<(Seq<char>, TreeModel)>::empty();
    assert(printable_dict(none, 2) && ascii_entries(none));
    if m != Map::<Seq<char>, Seq<char>>::empty() {
        let one = seq![("envs"@, envs_tree(m))];
        assert(one.drop_last() =~= none);
        assert(envs_tree(m) == TreeModel::Dict(d));
        assert(plain ==> ascii_tree(TreeModel::Dict(d)));
        assert(one.last() == ("envs"@, TreeModel::Dict(d)));
        assert(printable_dict(one, 2) && (plain ==> ascii_entries(one)));
        assert(rising(one));
        assert(one.last().0 != "vars"@);
        assert(entry(one.drop_last(), "vars"@) is None);
        assert(entry(one, "vars"@) is None);
    }
}

proof fn lemma_printable_table(d: Seq<(Seq<char>, TreeModel)>, plain: bool)
    requires
        forall|i: int|
            0 <= i < d.len() ==> bare_key((#[trigger] d[i]).0) && printable_tree(d[i].1, 1) && (
            plain ==> ascii_tree(d[i].1)),
    ensures
        printable_dict(d, 1),
        plain ==> ascii_entries(d),
    decreases d.len(),
{
    if d.len() > 0 {
        let l = d[d.len() - 1];
        assert(bare_key(l.0) && printable_tree(l.1, 1));
        assert(ascii(l.0)) by {
            assert forall|i: int| 0 <= i < l.0.len() implies (#[trigger] l.0[i] as int) < 128 by {
                assert(is_key_char(l.0[i]));
            }
        }
        assert forall|i: int| 0 <= i < d.drop_last().len() implies bare_key(
            (#[trigger] d.drop_last()[i]).0,
        ) && printable_tree(d.drop_last()[i].1, 1) && (plain ==> ascii_tree(
            d.drop_last()[i].1,
        )) by {
            assert(d.drop_last()[i] == d[i]);
        }
        lemma_printable_table(d.drop_last(), plain);
    }
}

/// What was registered is found until it is removed, and nothing else changes.
pub proof fn law_registered_is_found(
    before: Map<Seq<char>, Seq<char>>,
    name: Seq<char>,
    path: Seq<char>,
    other: Seq<char>,
)
    requires
        !before.contains_key(name),
    ensures
        before.insert(name, path)[name] == path,
        before.insert(name, path).remove(name) == before,
        other != name ==> before.insert(name, path).contains_key(other) == before.contains_key(
            other,
        ) && (before.contains_key(other) ==> before.insert(name, path)[other] == before[other]),
{
    assert(before.insert(name, path).remove(name) =~= before);
}

/// The envs of a registry are read where every entry is a table with a path: each
/// name with its path, and no other. Any other entry is refused.
pub proof fn law_read_envs(d: Seq<(Seq<char>, TreeModel)>)
    ensures
        match read_envs(d) {
            Ok(m) => {
                &&& forall|i: int|
                    0 <= i < d.len() ==> m.contains_key((#[trigger] d[i]).0)
                &&& forall|i: int|
                    0 <= i < d.len() && (forall|j: int| i < j < d.len() ==> d[j].0 != d[i].0)
                        ==> field((#[trigger] d[i]).1, "path"@) == Some(TreeModel::Text(m[d[i].0]))
                &&& forall|k: Seq<char>| #[trigger]
                    m.contains_key(k) ==> exists|i: int|
                        0 <= i < d.len() && (#[trigger] d[i]).0 == k
            },
            Err(_) => exists|i: int|
                0 <= i < d.len() && !(field((#[trigger] d[i]).1, "path"@) matches Some(TreeModel::Text(_))),
        },
    decreases d.len(),
{
    if d.len() > 0 {
        let t = d.drop_last();
        let last = d.len() - 1;
        law_read_envs(t);
        match read_envs(t) {
            Err(_) => {
                let i = choose|i: int|
                    0 <= i < t.len() && !(field((#[trigger] t[i]).1, "path"@) matches Some(TreeModel::Text(_)));
                assert(t[i] == d[i]);
            },
            Ok(before) => {
                match read_envs(d) {
                    Err(_) => {
                        assert(!(field(d[last].1, "path"@) matches Some(TreeModel::Text(_))));
                    },
                    Ok(m) => {
                        assert forall|i: int| 0 <= i < d.len() implies m.contains_key(
                            (#[trigger] d[i]).0,
                        ) by {
                            if i < last {
                                assert(t[i] == d[i]);
                            }
                        }
                        assert forall|i: int|
                            0 <= i < d.len() && (forall|j: int|
                                i < j < d.len() ==> d[j].0 != d[i].0) implies
                            field((#[trigger] d[i]).1, "path"@) == Some(TreeModel::Text(m[d[i].0])) by {
                            if i < last {
                                assert(t[i] == d[i]);
                                assert(d[last].0 != d[i].0);
                                assert forall|j: int| i < j < t.len() implies t[j].0 != t[i].0 by {
                                    assert(d[j].0 != d[i].0);
                                }
                            }
                        }
                        assert forall|k: Seq<char>| #[trigger] m.contains_key(k) implies exists|
                            i: int,
                        |
                            0 <= i < d.len() && (#[trigger] d[i]).0 == k by {
                            if k == d[last].0 {
                                assert(d[last].0 == k);
                            } else {
                                assert(before.contains_key(k));
                                let i = choose|i: int|
                    0 <= i < t.len() && (#[trigger] t[i]).0 == k;
                                assert(d[i].0 == k);
                            }
                        }
                    },
                }
            },
        }
    }
}

/// A registry is read from its table of envs, and is empty where it has none.
pub proof fn law_read_registry(t: TreeModel)
    ensures
        match field(t, "envs"@) {
            Some(TreeModel::Dict(d)) => read_registry(t) == read_envs(d),
            _ => read_registry(t) == Ok::<_, ErrorModel>(Map::<Seq<char>, Seq<char>>::empty()),
        },
{
}

} // verus!
