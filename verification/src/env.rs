//! An env: a directory and its manifest.

use crate::manifest::{
    firm_manifest, manifest_doc, manifest_tree, packages_tree, plain_manifest, reads_manifest,
    reads_only_manifest, spells, well_listed, BlockModel, Manifest, ManifestModel, PackageModel,
    Refused, ToolModel,
};
use crate::scan::settled;
use crate::strmap::StrMap;
use crate::text::texts;
use crate::tomlp::{
    ascii, ascii_entries, ascii_tree, dict_size, dumped, is_name_char,
    law_unquoted_list_is_readable, lemma_unquoted_text, mild, mild_dict, mild_key, mild_tree,
    outcome, tree_size, uncut, unmarked, unquoted, well_named, ErrorModel, ReadError, TreeModel,
};
use vstd::prelude::*;

verus! {

/// A loaded env.
#[derive(Debug, PartialEq, Eq)]
pub struct Env {
    pub root: String,
    pub manifest: Manifest,
}

/// Why an env could not be loaded.
#[derive(Debug, PartialEq, Eq)]
pub enum LoadError {
    /// There is nothing at the path.
    NoSuchPath,
    /// The manifest could not be read.
    Manifest(ReadError),
}

/// Why an env could not be created.
#[derive(Debug, PartialEq, Eq)]
pub enum CreateError {
    /// The directory is there and not empty.
    NotEmpty,
    /// The manifest would not read back: the name is not well-formed.
    Refused(Refused),
}

/// The manifest of a new env.
pub open spec fn new_manifest(name: Seq<char>) -> ManifestModel {
    ManifestModel {
        name,
        version: "0.1.0"@,
        description: None,
        packages: Seq::empty(),
        activation: Map::empty(),
        tools: Map::empty(),
    }
}

/// The directories of a new env, below its root.
pub open spec fn skeleton() -> Seq<Seq<char>> {
    seq![
        "windows/bin"@,
        "windows/lib"@,
        "windows/share"@,
        "linux/bin"@,
        "linux/lib"@,
        "linux/share"@,
        "macos/bin"@,
        "macos/lib"@,
        "macos/share"@,
        "share"@,
        ".toolbox"@,
    ]
}

/// The directories of a new env, below its root.
pub fn skeleton_dirs() -> (r: Vec<String>)
    ensures
        texts(r@) == skeleton(),
{
    let mut r: Vec<String> = Vec::new();
    r.push("windows/bin".to_owned());
    r.push("windows/lib".to_owned());
    r.push("windows/share".to_owned());
    r.push("linux/bin".to_owned());
    r.push("linux/lib".to_owned());
    r.push("linux/share".to_owned());
    r.push("macos/bin".to_owned());
    r.push("macos/lib".to_owned());
    r.push("macos/share".to_owned());
    r.push("share".to_owned());
    r.push(".toolbox".to_owned());
    assert(texts(r@) =~= skeleton());
    r
}

/// `r` is what loading makes of `source`, whatever the parser makes of it: the
/// same manifest, or no manifest.
pub open spec fn loads_only_as(source: Seq<char>, r: Result<Env, LoadError>) -> bool {
    match r {
        Ok(e) => reads_only_manifest(source, Ok(e.manifest@)),
        Err(_) => !(exists|m: ManifestModel| reads_manifest(source, Ok(m))),
    }
}

/// A new env, and the text of its manifest.
#[derive(Debug, PartialEq, Eq)]
pub struct NewEnv {
    pub env: Env,
    pub text: String,
}

impl Env {
    /// The env at `root`. `source` is the text of the manifest there, `exists`
    /// tells whether there is anything at `root`. The text of a plain manifest
    /// loads as that manifest. A text that refers to nothing outside of it, and that
    /// of a firm manifest, always loads the same.
    pub fn load(root: &str, exists: bool, source: &str) -> (r: Result<Env, LoadError>)
        ensures
            match r {
                Ok(e) => exists && e.root@ == root@ && reads_manifest(
                    source@,
                    Ok::<_, ErrorModel>(e.manifest@),
                ),
                Err(LoadError::NoSuchPath) => !exists,
                Err(LoadError::Manifest(e)) => exists && reads_manifest(
                    source@,
                    Err::<ManifestModel, _>(e@),
                ),
            },
            exists && settled(unmarked(source@)) ==> loads_only_as(source@, r),
            forall|m: ManifestModel|
                #![trigger manifest_doc(m)]
                exists && dumped(manifest_doc(m)) == unmarked(source@) && well_listed(m)
                    && firm_manifest(m) ==> loads_only_as(source@, r),
            forall|m: ManifestModel| #[trigger]
                spells(source@, m) && exists ==> r is Ok && r->Ok_0.manifest@ == m,
            forall|m: ManifestModel|
                #![trigger manifest_doc(m)]
                exists && dumped(manifest_doc(m)) == unmarked(source@) && !well_named(m.name)
                    ==> r is Err,
    {
        if !exists {
            return Err(LoadError::NoSuchPath);
        }
        let m = Manifest::from_tomlp(source);
        let ghost x = outcome(m);
        match m {
            Ok(manifest) => Ok(Env { root: root.to_owned(), manifest }),
            Err(e) => Err(LoadError::Manifest(e)),
        }
    }

    /// A new env called `name` at `root`, unless there are already files there
    /// (`occupied`). The name is checked before anything is to be written: the
    /// env is refused exactly where the name is not well-formed. What is to be
    /// written loads as the manifest of the env.
    pub fn create(root: &str, name: &str, occupied: bool) -> (r: Result<NewEnv, CreateError>)
        ensures
            match r {
                Ok(n) => !occupied && well_named(name@) && n.env.root@ == root@ && n.env.manifest@
                    == new_manifest(name@) && n.text@ == dumped(manifest_doc(new_manifest(name@)))
                    && spells(n.text@, new_manifest(name@)),
                Err(CreateError::NotEmpty) => occupied,
                Err(CreateError::Refused(_)) => !occupied && !well_named(name@),
            },
    {
        if occupied {
            return Err(CreateError::NotEmpty);
        }
        let manifest = Manifest {
            name: name.to_owned(),
            version: "0.1.0".to_owned(),
            description: None,
            packages: Vec::new(),
            activation: StrMap::new(),
            tools: StrMap::new(),
        };
        proof {
            assert(manifest@.packages =~= Seq::<PackageModel>::empty());
            assert(manifest@ == new_manifest(name@));
            if well_named(name@) {
                lemma_new_is_plain(name@);
                lemma_new_is_mild(name@);
            }
            reveal_strlit("0.1.0");
        }
        match manifest.rendered_and_checked() {
            Ok(text) => Ok(NewEnv { env: Env { root: root.to_owned(), manifest }, text }),
            Err(e) => Err(CreateError::Refused(e)),
        }
    }
}

/// A well-formed name is ASCII and holds no quote.
proof fn lemma_well_named_plain(name: Seq<char>)
    requires
        well_named(name),
    ensures
        ascii(name),
        unquoted(name),
        !name.contains('"'),
{
    assert forall|i: int| 0 <= i < name.len() implies #[trigger] name[i] != '"' && (name[i] as int)
        < 128 by {
        assert(is_name_char(name[i]));
    }
}

proof fn lemma_new_is_plain(name: Seq<char>)
    requires
        well_named(name),
    ensures
        plain_manifest(new_manifest(name)),
{
    lemma_well_named_plain(name);
    reveal_strlit("0.1.0");
    reveal_strlit("name");
    reveal_strlit("version");
    lemma_unquoted_text(uncut(), name);
    lemma_unquoted_text(uncut(), "0.1.0"@);
    let none = Seq::<(Seq<char>, TreeModel)>::empty();
    let one = none.push(("name"@, TreeModel::Text(name)));
    let two = one.push(("version"@, TreeModel::Text("0.1.0"@)));
    assert(manifest_tree(new_manifest(name)) == TreeModel::Dict(two));
    assert(two.drop_last() =~= one);
    assert(one.drop_last() =~= none);
    assert(one.last() == ("name"@, TreeModel::Text(name)));
    assert(two.last() == ("version"@, TreeModel::Text("0.1.0"@)));
    assert(ascii_tree(TreeModel::Text(name)) && ascii_tree(TreeModel::Text("0.1.0"@)));
    assert(ascii_entries(none));
    assert(ascii_entries(one));
    assert(ascii_entries(two));
    let empty = Seq::<TreeModel>::empty();
    law_unquoted_list_is_readable(empty);
    assert(packages_tree(Seq::empty()) == TreeModel::List(empty)) by {
        assert(packages_tree(Seq::empty())->List_0 =~= empty);
    }
}

proof fn lemma_new_is_mild(name: Seq<char>)
    requires
        well_named(name),
    ensures
        mild(manifest_doc(new_manifest(name))),
{
    lemma_well_named_plain(name);
    reveal_strlit("0.1.0");
    reveal_strlit("name");
    reveal_strlit("version");
    assert(!"0.1.0"@.contains('"'));
    assert(mild_key("name"@) && mild_key("version"@));
    let none = Seq::<(Seq<char>, TreeModel)>::empty();
    let one = none.push(("name"@, TreeModel::Text(name)));
    let two = one.push(("version"@, TreeModel::Text("0.1.0"@)));
    assert(manifest_tree(new_manifest(name)) == TreeModel::Dict(two));
    assert(two.drop_last() =~= one);
    assert(one.drop_last() =~= none);
    assert(mild_dict(none, 7) && dict_size(none) == 0);
    assert(mild_tree(TreeModel::Text(name), 7) && mild_tree(TreeModel::Text("0.1.0"@), 7));
    assert(tree_size(TreeModel::Text(name)) == 1 && tree_size(TreeModel::Text("0.1.0"@)) == 1);
    assert(one.last() == ("name"@, TreeModel::Text(name)));
    assert(two.last() == ("version"@, TreeModel::Text("0.1.0"@)));
    assert(mild_dict(one, 7) && dict_size(one) == 1);
    assert(mild_dict(two, 7) && dict_size(two) == 2);
}

/// A new env is called as it was asked to be, starts at its first version, and has
/// no description, no package, no activation and no tool.
pub proof fn law_new_env_is_empty(name: Seq<char>)
    ensures
        new_manifest(name).name == name,
        new_manifest(name).version == "0.1.0"@,
        new_manifest(name).description is None,
        new_manifest(name).packages.len() == 0,
        new_manifest(name).activation == Map::<Seq<char>, BlockModel>::empty(),
        new_manifest(name).tools == Map::<Seq<char>, ToolModel>::empty(),
{
}

/// A new env has a directory for the binaries, the libraries and the data of each
/// system, one for what all share and one for its own records.
pub proof fn law_new_env_has_its_directories(d: Seq<char>)
    ensures
        skeleton().contains(d) <==> d == "windows/bin"@ || d == "windows/lib"@ || d
            == "windows/share"@ || d == "linux/bin"@ || d == "linux/lib"@ || d == "linux/share"@
            || d == "macos/bin"@ || d == "macos/lib"@ || d == "macos/share"@ || d == "share"@ || d
            == ".toolbox"@,
{
    let k = skeleton();
    assert(k.len() == 11);
    assert(k[0] == "windows/bin"@ && k[1] == "windows/lib"@ && k[2] == "windows/share"@);
    assert(k[3] == "linux/bin"@ && k[4] == "linux/lib"@ && k[5] == "linux/share"@);
    assert(k[6] == "macos/bin"@ && k[7] == "macos/lib"@ && k[8] == "macos/share"@);
    assert(k[9] == "share"@ && k[10] == ".toolbox"@);
}

} // verus!
