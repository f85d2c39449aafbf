//! Packages as OCI artifacts: what is packaged under which name, which parts
//! of an artifact are taken, and which credentials and digests are accepted.
//!
//! The config blob is a small descriptor of the package. Each layer is a
//! zstd-compressed tarball whose entries overlay onto the env root.

use crate::manifest::{
    copy_texts, ActivationBlock, BlockModel, Manifest, ManifestModel, Tool, ToolModel,
};
use crate::paths::{cache_dir, with_part};
use crate::relocate::{index_path, law_index_path};
use crate::strmap::{Dup, StrMap};
use crate::text::{
    among, cut, debug_form, join, joined, last_part, opt_text, pair_text, quoted, replace_char,
    same, split, split_once, texts, with_char,
};
use sha2::Digest;
use vstd::prelude::*;

verus! {

/// The media type of the config blob.
pub const CONFIG_MEDIA_TYPE: &'static str = "application/vnd.toolbox.package.config.v1+json";

/// The media type of a layer.
pub const LAYER_MEDIA_TYPE: &'static str = "application/vnd.toolbox.package.layer.v1.tar+zstd";

/// How hard a layer is compressed.
pub const LAYER_LEVEL: i32 = 19;

/// The descriptor of a package.
#[derive(Debug, PartialEq, Eq)]
pub struct PackageConfig {
    pub name: String,
    pub version: String,
    pub platforms: Vec<String>,
    pub description: Option<String>,
    /// What the package adds to the activation of an env.
    pub activation: StrMap<ActivationBlock>,
    /// The tools that the package ships.
    pub tools: StrMap<Tool>,
}

/// What a package descriptor says.
#[verifier::ext_equal]
pub struct PackageConfigModel {
    pub name: Seq<char>,
    pub version: Seq<char>,
    pub platforms: Seq<Seq<char>>,
    pub description: Option<Seq<char>>,
    pub activation: Map<Seq<char>, BlockModel>,
    pub tools: Map<Seq<char>, ToolModel>,
}

impl View for PackageConfig {
    type V = PackageConfigModel;

    open spec fn view(&self) -> PackageConfigModel {
        PackageConfigModel {
            name: self.name@,
            version: self.version@,
            platforms: texts(self.platforms@),
            description: opt_text(self.description),
            activation: self.activation@,
            tools: self.tools@,
        }
    }
}

/// What a pull produced.
#[derive(Debug, PartialEq, Eq)]
pub struct PullSummary {
    pub name: String,
    pub version: String,
    pub layer_count: usize,
    /// The files of all layers, relative to the env root, with forward slashes.
    pub files: Vec<String>,
    pub activation: StrMap<ActivationBlock>,
    pub tools: StrMap<Tool>,
}

/// How a package tree is packaged; what is given here takes precedence.
#[derive(Debug, PartialEq, Eq)]
pub struct PushOptions {
    pub name: Option<String>,
    pub version: Option<String>,
    pub platforms: Vec<String>,
    pub description: Option<String>,
}

/// What a push produced.
#[derive(Debug, PartialEq, Eq)]
pub struct PushSummary {
    pub name: String,
    pub version: String,
    pub manifest_url: String,
}

// ---- references ----

/// The parts of an OCI reference.
#[derive(Debug, PartialEq, Eq)]
pub struct RefParts {
    pub registry: String,
    pub repository: String,
    pub tag: Option<String>,
}

/// Registry, repository and tag of a reference.
pub open spec fn ref_text(r: RefParts) -> (Seq<char>, Seq<char>, Option<Seq<char>>) {
    (r.registry@, r.repository@, opt_text(r.tag))
}

/// The registry, the repository and the tag that `oci_client::Reference` reads
/// out of a text, or what it says is wrong with it.
pub uninterp spec fn reference_of(s: Seq<char>) -> Result<
    (Seq<char>, Seq<char>, Option<Seq<char>>),
    Seq<char>,
>;

/// The parts of a reference that was read, or what is wrong with it.
pub open spec fn parts_in(r: Result<RefParts, String>) -> Result<
    (Seq<char>, Seq<char>, Option<Seq<char>>),
    Seq<char>,
> {
    match r {
        Ok(p) => Ok(ref_text(p)),
        Err(e) => Err(e@),
    }
}

/// `s` is a reference with these parts.
pub open spec fn is_reference(
    s: Seq<char>,
    parts: (Seq<char>, Seq<char>, Option<Seq<char>>),
) -> bool {
    reference_of(s) matches Ok(p) && p == parts
}

/// `s` is no reference, for this cause.
pub open spec fn is_no_reference(s: Seq<char>, cause: Seq<char>) -> bool {
    reference_of(s) matches Err(e) && e == cause
}

/// The parsing of an `oci_client::Reference` from a text: its registry, its
/// repository and its tag, or what is wrong with it.
#[verifier::external_body]
fn parse_reference(s: &str) -> (r: Result<RefParts, String>)
    ensures
        parts_in(r) == reference_of(s@),
{
    let r: oci_client::Reference = match s.parse() {
        Ok(r) => r,
        Err(e) => return Err(oci_client::ParseError::to_string(&e)),
    };
    let (registry, repository) = (r.registry().to_string(), r.repository().to_string());
    Ok(RefParts { registry, repository, tag: r.tag().map(str::to_string) })
}

// ---- pushing ----

/// Which of the directories that a package may overlay are there.
#[derive(Debug, Clone, Copy, PartialEq, Eq, Structural)]
pub struct Present {
    pub windows: bool,
    pub linux: bool,
    pub macos: bool,
    pub share: bool,
}

/// Why a package cannot be pushed.
#[derive(Debug, PartialEq, Eq)]
pub enum PushError {
    /// The reference is not well-formed.
    BadReference(String),
    /// Neither the options nor the reference nor the package give a version.
    NoVersion,
    /// There is nothing to package.
    NoContents,
}

impl PushError {
    /// The text of the error for the tree at `src` and the reference.
    pub fn message(&self, src: &str, reference: &str) -> (r: String)
        ensures
            r@ == (match *self {
                PushError::BadReference(cause) => "parsing OCI reference "@ + debug_form(reference@)
                    + ": "@ + cause@,
                PushError::NoVersion =>
                    "no version: pass a tagged reference (e.g. name:1.2.3) or use a version override"@,
                PushError::NoContents => "no package contents under "@ + src@
                    + " (expected windows/, linux/, macos/, or share/)"@,
            }),
    {
        match self {
            PushError::BadReference(cause) => {
                let mut r = "parsing OCI reference ".to_owned();
                r.push_str(quoted(reference).as_str());
                r.push_str(": ");
                r.push_str(cause.as_str());
                r
            },
            PushError::NoVersion =>
                "no version: pass a tagged reference (e.g. name:1.2.3) or use a version override".to_owned(),
            PushError::NoContents => {
                let mut r = "no package contents under ".to_owned();
                r.push_str(src);
                r.push_str(" (expected windows/, linux/, macos/, or share/)");
                r
            },
        }
    }
}

/// `s` with `t` at its end, where `present`.
pub open spec fn with_name(s: Seq<Seq<char>>, present: bool, t: Seq<char>) -> Seq<Seq<char>> {
    if present {
        s.push(t)
    } else {
        s
    }
}

/// The platforms whose directories are there.
pub open spec fn platforms_in(p: Present) -> Seq<Seq<char>> {
    with_name(
        with_name(with_name(Seq::empty(), p.windows, "windows"@), p.linux, "linux"@),
        p.macos,
        "macos"@,
    )
}

/// The directories that a package overlays onto an env. An env's own metadata
/// is never among them.
pub open spec fn overlays_in(p: Present) -> Seq<Seq<char>> {
    with_name(platforms_in(p), p.share, "share"@)
}

fn add_name(v: &mut Vec<String>, present: bool, name: &str)
    ensures
        texts(final(v)@) == with_name(texts(old(v)@), present, name@),
{
    if present {
        let ghost before = texts(v@);
        v.push(name.to_owned());
        assert(texts(v@) =~= before.push(name@));
    }
}

/// The platforms whose directories are there.
pub fn detect_platforms(p: Present) -> (r: Vec<String>)
    ensures
        texts(r@) == platforms_in(p),
{
    let mut r: Vec<String> = Vec::new();
    assert(texts(r@) =~= Seq::<Seq<char>>::empty());
    add_name(&mut r, p.windows, "windows");
    add_name(&mut r, p.linux, "linux");
    add_name(&mut r, p.macos, "macos");
    r
}

/// The directories that a package overlays onto an env; an error where there
/// are none.
pub fn overlay_dirs(p: Present) -> (r: Result<Vec<String>, PushError>)
    ensures
        match r {
            Ok(v) => texts(v@) == overlays_in(p) && overlays_in(p).len() > 0,
            Err(e) => e == PushError::NoContents && overlays_in(p).len() == 0,
        },
{
    let mut r = detect_platforms(p);
    add_name(&mut r, p.share, "share");
    assert(texts(r@).len() == r@.len());
    if r.len() == 0 {
        Err(PushError::NoContents)
    } else {
        Ok(r)
    }
}

/// The first of two that is there.
pub open spec fn or_else<T>(a: Option<T>, b: Option<T>) -> Option<T> {
    match a {
        Some(x) => Some(x),
        None => b,
    }
}

/// The model of an optional manifest.
pub open spec fn manifest_in(m: Option<&Manifest>) -> Option<ManifestModel> {
    match m {
        Some(x) => Some(x@),
        None => None,
    }
}

/// The name of a package: from the options, else the last segment of the
/// repository.
pub open spec fn package_name(given: Option<Seq<char>>, repository: Seq<char>) -> Seq<char> {
    match given {
        Some(n) => n,
        None => split(repository, '/').last(),
    }
}

/// The version of a package: from the options, else the tag, else from its
/// manifest.
pub open spec fn package_version(
    given: Option<Seq<char>>,
    tag: Option<Seq<char>>,
    m: Option<ManifestModel>,
) -> Option<Seq<char>> {
    or_else(
        or_else(given, tag),
        match m {
            Some(x) => Some(x.version),
            None => None,
        },
    )
}

/// The descriptor of a package.
pub open spec fn package_config(
    name: Seq<char>,
    version: Seq<char>,
    platforms: Seq<Seq<char>>,
    description: Option<Seq<char>>,
    m: Option<ManifestModel>,
    p: Present,
) -> PackageConfigModel {
    PackageConfigModel {
        name,
        version,
        platforms: if platforms.len() == 0 {
            platforms_in(p)
        } else {
            platforms
        },
        description: or_else(
            description,
            match m {
                Some(x) => x.description,
                None => None,
            },
        ),
        activation: match m {
            Some(x) => x.activation,
            None => Map::empty(),
        },
        tools: match m {
            Some(x) => x.tools,
            None => Map::empty(),
        },
    }
}

fn copy_opt(s: &Option<String>) -> (r: Option<String>)
    ensures
        opt_text(r) == opt_text(*s),
{
    match s {
        Some(t) => Some(t.clone()),
        None => None,
    }
}

/// The descriptor of the package to push to a reference with these parts. The
/// options come first, then what the reference names, then the package's own
/// manifest; the platforms default to the directories that are there.
pub fn plan_push(
    parts: &RefParts,
    opts: &PushOptions,
    pkg: Option<&Manifest>,
    present: Present,
) -> (r: Result<PackageConfig, PushError>)
    ensures
        match r {
            Ok(c) => {
                let m = manifest_in(pkg);
                let v = package_version(opt_text(opts.version), opt_text(parts.tag), m);
                &&& v is Some
                &&& overlays_in(present).len() > 0
                &&& c@ == package_config(
                    package_name(opt_text(opts.name), parts.repository@),
                    v->0,
                    texts(opts.platforms@),
                    opt_text(opts.description),
                    m,
                    present,
                )
            },
            Err(PushError::NoVersion) => package_version(
                opt_text(opts.version),
                opt_text(parts.tag),
                manifest_in(pkg),
            ) is None,
            Err(PushError::NoContents) => overlays_in(present).len() == 0 && package_version(
                opt_text(opts.version),
                opt_text(parts.tag),
                manifest_in(pkg),
            ) is Some,
            Err(PushError::BadReference(_)) => false,
        },
        r matches Ok(c) ==> (pkg matches Some(m) ==> c.activation@ == m@.activation && c.tools@
            == m@.tools),
        r matches Ok(c) ==> (pkg is None ==> c.activation@ == Map::<
            Seq<char>,
            BlockModel,
        >::empty() && c.tools@ == Map::<Seq<char>, ToolModel>::empty()),
        r matches Ok(c) ==> (opts.version matches Some(v) ==> c.version@ == v@),
        r matches Ok(c) ==> (opts.name matches Some(n) ==> c.name@ == n@),
        r matches Ok(c) ==> (opts.description matches Some(d) ==> c@.description == Some(d@)),
        r matches Ok(c) ==> (opts.platforms@.len() > 0 ==> texts(c.platforms@) == texts(
            opts.platforms@,
        )),
        r is Ok ==> present.windows || present.linux || present.macos || present.share,
{
    let name = match &opts.name {
        Some(n) => n.clone(),
        None => last_part(parts.repository.as_str(), '/'),
    };
    let version = match (&opts.version, &parts.tag, pkg) {
        (Some(v), _, _) => v.clone(),
        (None, Some(t), _) => t.clone(),
        (None, None, Some(m)) => m.version.clone(),
        (None, None, None) => {
            return Err(PushError::NoVersion);
        },
    };
    let description = match (&opts.description, pkg) {
        (Some(d), _) => Some(d.clone()),
        (None, Some(m)) => copy_opt(&m.description),
        (None, None) => None,
    };
    let (activation, tools) = match pkg {
        Some(m) => (m.activation.dup(), m.tools.dup()),
        None => (StrMap::new(), StrMap::new()),
    };
    let platforms = if opts.platforms.len() == 0 {
        detect_platforms(present)
    } else {
        copy_texts(&opts.platforms)
    };
    assert(texts(opts.platforms@).len() == opts.platforms@.len());
    proof {
        law_overlay_directories(present, "share"@);
    }
    match overlay_dirs(present) {
        Err(e) => Err(e),
        Ok(_) => Ok(PackageConfig { name, version, platforms, description, activation, tools }),
    }
}

/// The parts of a reference and the descriptor of the package to push to it.
pub fn prepare_push(
    reference: &str,
    opts: &PushOptions,
    pkg: Option<&Manifest>,
    present: Present,
) -> (r: Result<(RefParts, PackageConfig), PushError>)
    ensures
        match r {
            Ok((parts, c)) => {
                let m = manifest_in(pkg);
                let v = package_version(opt_text(opts.version), opt_text(parts.tag), m);
                &&& is_reference(reference@, ref_text(parts))
                &&& v is Some
                &&& overlays_in(present).len() > 0
                &&& c@ == package_config(
                    package_name(opt_text(opts.name), parts.repository@),
                    v->0,
                    texts(opts.platforms@),
                    opt_text(opts.description),
                    m,
                    present,
                )
            },
            Err(PushError::BadReference(cause)) => is_no_reference(reference@, cause@),
            Err(PushError::NoVersion) => reference_of(reference@) matches Ok(parts)
                && package_version(opt_text(opts.version), parts.2, manifest_in(pkg)) is None,
            Err(PushError::NoContents) => overlays_in(present).len() == 0 && (reference_of(
                reference@,
            ) matches Ok(parts) && package_version(
                opt_text(opts.version),
                parts.2,
                manifest_in(pkg),
            ) is Some),
        },
        r matches Ok((_, c)) ==> (pkg matches Some(m) ==> c.activation@ == m@.activation && c.tools@
            == m@.tools),
        r matches Ok((_, c)) ==> (pkg is None ==> c.activation@ == Map::<
            Seq<char>,
            BlockModel,
        >::empty() && c.tools@ == Map::<Seq<char>, ToolModel>::empty()),
        r matches Ok((_, c)) ==> (opts.version matches Some(v) ==> c.version@ == v@),
        r matches Ok((_, c)) ==> (opts.name matches Some(n) ==> c.name@ == n@),
        r matches Ok((_, c)) ==> (opts.description matches Some(d) ==> c@.description == Some(d@)),
        r matches Ok((_, c)) ==> (opts.platforms@.len() > 0 ==> texts(c.platforms@) == texts(
            opts.platforms@,
        )),
        r is Ok ==> present.windows || present.linux || present.macos || present.share,
{
    match parse_reference(reference) {
        Err(e) => Err(PushError::BadReference(e)),
        Ok(parts) => match plan_push(&parts, opts, pkg, present) {
            Err(e) => Err(e),
            Ok(c) => Ok((parts, c)),
        },
    }
}

/// The registry of a reference, by which its credentials are looked up.
pub fn registry_of(reference: &str) -> (r: Result<String, String>)
    ensures
        match r {
            Ok(s) => reference_of(reference@) matches Ok(parts) && s@ == parts.0,
            Err(e) => is_no_reference(reference@, e@),
        },
{
    match parse_reference(reference) {
        Ok(parts) => Ok(parts.registry),
        Err(e) => Err(e),
    }
}

/// Nothing but the four overlay directories is ever packaged: an env's own
/// metadata and manifest stay out.
pub proof fn law_metadata_is_never_packaged(p: Present, i: int)
    requires
        0 <= i < overlays_in(p).len(),
    ensures
        overlays_in(p)[i] == "windows"@ || overlays_in(p)[i] == "linux"@ || overlays_in(p)[i]
            == "macos"@ || overlays_in(p)[i] == "share"@,
        overlays_in(p)[i] != ".toolbox"@,
        overlays_in(p)[i] != "toolbox-env.tomlp"@,
{
    reveal_strlit("windows");
    reveal_strlit("linux");
    reveal_strlit("macos");
    reveal_strlit("share");
    reveal_strlit(".toolbox");
    reveal_strlit("toolbox-env.tomlp");
    assert(".toolbox"@.len() == 8);
    assert("toolbox-env.tomlp"@.len() == 17);
    assert("windows"@.len() == 7 && "linux"@.len() == 5 && "macos"@.len() == 5 && "share"@.len()
        == 5);
}

// ---- overlaying a directory ----

/// What a walk of a package tree met.
#[derive(Debug, Clone, Copy, PartialEq, Eq, Structural)]
pub enum WalkKind {
    Directory,
    File,
    /// Anything else, such as a link.
    Other,
}

/// A place that a walk of a package tree met.
#[derive(Debug, PartialEq, Eq)]
pub struct WalkEntry {
    /// The path below the package's root, part by part.
    pub components: Vec<String>,
    pub kind: WalkKind,
}

/// What overlaying a package onto an env does with one place of its tree.
#[derive(Debug, PartialEq, Eq)]
pub enum OverlayStep {
    /// The directory is made.
    MakeDir,
    /// The file is copied, and recorded under this path.
    Copy(String),
    /// Nothing is done.
    Skip,
}

/// The model of what overlaying does with one place.
pub enum StepModel {
    MakeDir,
    Copy(Seq<char>),
    Skip,
}

impl View for OverlayStep {
    type V = StepModel;

    open spec fn view(&self) -> StepModel {
        match self {
            OverlayStep::MakeDir => StepModel::MakeDir,
            OverlayStep::Copy(p) => StepModel::Copy(p@),
            OverlayStep::Skip => StepModel::Skip,
        }
    }
}

/// What overlaying does with the place at `path`: only directories and files
/// below the overlay directories are taken.
pub open spec fn step_for(p: Present, path: Seq<Seq<char>>, kind: WalkKind) -> StepModel {
    if path.len() == 0 || !overlays_in(p).contains(path[0]) {
        StepModel::Skip
    } else {
        match kind {
            WalkKind::Directory => StepModel::MakeDir,
            WalkKind::File => StepModel::Copy(with_char(joined(path, "/"@), '\\', '/')),
            WalkKind::Other => StepModel::Skip,
        }
    }
}

/// What overlaying the package tree onto an env does with each place in it; an
/// error where the tree has no overlay directory.
pub fn extract_dir(p: Present, entries: &Vec<WalkEntry>) -> (r: Result<
    Vec<OverlayStep>,
    PushError,
>)
    ensures
        match r {
            Ok(v) => overlays_in(p).len() > 0 && v@.len() == entries@.len() && forall|i: int|
                0 <= i < v@.len() ==> (#[trigger] v@[i])@ == step_for(
                    p,
                    texts(entries@[i].components@),
                    entries@[i].kind,
                ),
            Err(e) => overlays_in(p).len() == 0 && e == PushError::NoContents,
        },
        r is Ok <==> p.windows || p.linux || p.macos || p.share,
        r matches Ok(v) ==> forall|i: int|
            #![trigger v@[i]]
            0 <= i < v@.len() && entries@[i].components@.len() >= 1 && ((p.windows
                && entries@[i].components@[0]@ == "windows"@) || (p.linux
                && entries@[i].components@[0]@ == "linux"@) || (p.macos
                && entries@[i].components@[0]@ == "macos"@) || (p.share
                && entries@[i].components@[0]@ == "share"@)) ==> match entries@[i].kind {
                WalkKind::File => v@[i]@ == StepModel::Copy(
                    index_path(texts(entries@[i].components@)),
                ),
                WalkKind::Directory => v@[i]@ == StepModel::MakeDir,
                WalkKind::Other => v@[i]@ == StepModel::Skip,
            },
{
    proof {
        law_overlay_directories(p, "share"@);
    }
    let tops = match overlay_dirs(p) {
        Err(e) => return Err(e),
        Ok(tops) => tops,
    };
    let mut r: Vec<OverlayStep> = Vec::new();
    let mut i: usize = 0;
    while i < entries.len()
        invariant
            i <= entries.len(),
            texts(tops@) == overlays_in(p),
            r@.len() == i,
            forall|j: int|
                0 <= j < i ==> (#[trigger] r@[j])@ == step_for(
                    p,
                    texts(entries@[j].components@),
                    entries@[j].kind,
                ),
        decreases entries.len() - i,
    {
        let e = &entries[i];
        let step = if e.components.len() == 0 || !among(&tops, e.components[0].as_str()) {
            OverlayStep::Skip
        } else {
            match e.kind {
                WalkKind::Directory => OverlayStep::MakeDir,
                WalkKind::File => OverlayStep::Copy(
                    replace_char(join(&e.components, "/").as_str(), '\\', '/'),
                ),
                WalkKind::Other => OverlayStep::Skip,
            }
        };
        r.push(step);
        i = i + 1;
    }
    proof {
        assert forall|i: int|
            #![trigger r@[i]]
            0 <= i < r@.len() && entries@[i].components@.len() >= 1 && ((p.windows
                && entries@[i].components@[0]@ == "windows"@) || (p.linux
                && entries@[i].components@[0]@ == "linux"@) || (p.macos
                && entries@[i].components@[0]@ == "macos"@) || (p.share
                && entries@[i].components@[0]@ == "share"@)) implies match entries@[i].kind {
            WalkKind::File => r@[i]@ == StepModel::Copy(
                index_path(texts(entries@[i].components@)),
            ),
            WalkKind::Directory => r@[i]@ == StepModel::MakeDir,
            WalkKind::Other => r@[i]@ == StepModel::Skip,
        } by {
            let path = texts(entries@[i].components@);
            assert(path[0] == entries@[i].components@[0]@);
            law_whole_package_is_copied(p, path, entries@[i].kind);
        }
    }
    Ok(r)
}

/// The files that the steps copy, in order.
pub open spec fn copied(steps: Seq<OverlayStep>) -> Seq<Seq<char>>
    decreases steps.len(),
{
    if steps.len() == 0 {
        Seq::empty()
    } else {
        match steps.last() {
            OverlayStep::Copy(f) => copied(steps.drop_last()).push(f@),
            _ => copied(steps.drop_last()),
        }
    }
}

/// The files that the steps copy, in order.
pub fn copied_files(steps: &Vec<OverlayStep>) -> (r: Vec<String>)
    ensures
        texts(r@) == copied(steps@),
{
    let mut r: Vec<String> = Vec::new();
    let mut i: usize = 0;
    assert(texts(r@) =~= Seq::<Seq<char>>::empty());
    while i < steps.len()
        invariant
            i <= steps.len(),
            texts(r@) == copied(steps@.take(i as int)),
        decreases steps.len() - i,
    {
        let ghost before = texts(r@);
        assert(steps@.take(i + 1).drop_last() =~= steps@.take(i as int));
        if let OverlayStep::Copy(f) = &steps[i] {
            r.push(f.clone());
            assert(texts(r@) =~= before.push(f@));
        }
        i = i + 1;
    }
    assert(steps@.take(steps@.len() as int) =~= steps@);
    r
}

/// What an env keeps about itself is never overlaid: nothing in the metadata
/// directory of a package tree and no manifest at its root is copied.
pub proof fn law_metadata_is_never_copied(p: Present, path: Seq<Seq<char>>, kind: WalkKind)
    requires
        path.len() > 0,
        path[0] == ".toolbox"@ || path[0] == "toolbox-env.tomlp"@,
    ensures
        step_for(p, path, kind) is Skip,
{
    if overlays_in(p).contains(path[0]) {
        let i = choose|i: int| 0 <= i < overlays_in(p).len() && overlays_in(p)[i] == path[0];
        law_metadata_is_never_packaged(p, i);
    }
}

// ---- credentials ----

/// How a registry is asked.
#[derive(Debug, PartialEq, Eq)]
pub enum RegistryAuth {
    Anonymous,
    Basic(String, String),
}

/// The user name and the password that a registry is asked with.
pub open spec fn auth_text(a: RegistryAuth) -> Option<(Seq<char>, Seq<char>)> {
    match a {
        RegistryAuth::Anonymous => None,
        RegistryAuth::Basic(u, p) => Some((u@, p@)),
    }
}

/// The credentials for a registry: those that the environment gives where both
/// are set and the user name is not empty, else those of the Docker config,
/// else none.
pub fn push_auth(
    username: Option<String>,
    password: Option<String>,
    docker: Option<(String, String)>,
) -> (r: RegistryAuth)
    ensures
        auth_text(r) == (match (opt_text(username), opt_text(password)) {
            (Some(u), Some(p)) => if u.len() > 0 {
                Some((u, p))
            } else {
                pair_text(docker)
            },
            _ => pair_text(docker),
        }),
{
    if let (Some(u), Some(p)) = (username, password) {
        if !u.as_str().is_empty() {
            return RegistryAuth::Basic(u, p);
        }
    }
    match docker {
        Some((u, p)) => RegistryAuth::Basic(u, p),
        None => RegistryAuth::Anonymous,
    }
}

// ---- pulling ----

/// The positions of the layers that are ToolBox layers.
pub open spec fn wanted_layers(types: Seq<Seq<char>>) -> Seq<int>
    decreases types.len(),
{
    if types.len() == 0 {
        Seq::empty()
    } else if types.last() == LAYER_MEDIA_TYPE@ {
        wanted_layers(types.drop_last()).push(types.len() - 1)
    } else {
        wanted_layers(types.drop_last())
    }
}

/// Which layers of an artifact to fetch, by the media types of its config and
/// of its layers; none of an artifact that is no ToolBox package.
pub fn plan_pull(config_type: &str, layer_types: &Vec<String>) -> (r: Option<Vec<usize>>)
    ensures
        match r {
            Some(v) => config_type@ == CONFIG_MEDIA_TYPE@ && v@.map_values(|x: usize| x as int)
                == wanted_layers(texts(layer_types@)),
            None => config_type@ != CONFIG_MEDIA_TYPE@,
        },
{
    if !same(config_type, CONFIG_MEDIA_TYPE) {
        return None;
    }
    let mut r: Vec<usize> = Vec::new();
    let ghost all = texts(layer_types@);
    let mut i: usize = 0;
    assert(r@.map_values(|x: usize| x as int) =~= Seq::<int>::empty());
    while i < layer_types.len()
        invariant
            i <= layer_types.len(),
            all == texts(layer_types@),
            r@.map_values(|x: usize| x as int) == wanted_layers(all.take(i as int)),
        decreases layer_types.len() - i,
    {
        let ghost before = r@;
        proof {
            assert(all.take(i + 1).drop_last() =~= all.take(i as int));
            assert(all.take(i + 1).last() == layer_types@[i as int]@);
        }
        if same(layer_types[i].as_str(), LAYER_MEDIA_TYPE) {
            r.push(i);
            assert(r@.map_values(|x: usize| x as int) =~= before.map_values(
                |x: usize| x as int,
            ).push(i as int));
        }
        i = i + 1;
    }
    assert(all.take(all.len() as int) =~= all);
    Some(r)
}

/// The text of the error for an artifact that is no ToolBox package.
pub fn wrong_type_message(reference: &str, found: &str) -> (r: String)
    ensures
        r@ == "artifact at "@ + reference@ + " has config mediaType "@ + debug_form(found@)
            + ", expected "@ + debug_form(CONFIG_MEDIA_TYPE@),
{
    let mut r = "artifact at ".to_owned();
    r.push_str(reference);
    r.push_str(" has config mediaType ");
    r.push_str(quoted(found).as_str());
    r.push_str(", expected ");
    r.push_str(quoted(CONFIG_MEDIA_TYPE).as_str());
    r
}

/// An entry of a layer's tarball, and what became of it.
#[derive(Debug, PartialEq, Eq)]
pub struct LayerEntry {
    /// The path of the entry.
    pub path: String,
    /// Whether it is a regular file.
    pub is_file: bool,
    /// Whether it was laid down; an entry that escapes the env is not.
    pub unpacked: bool,
}

/// The files that the entries laid down, with forward slashes.
pub open spec fn laid_down(v: Seq<LayerEntry>) -> Seq<Seq<char>>
    decreases v.len(),
{
    if v.len() == 0 {
        Seq::empty()
    } else {
        let before = laid_down(v.drop_last());
        if v.last().unpacked && v.last().is_file {
            before.push(with_char(v.last().path@, '\\', '/'))
        } else {
            before
        }
    }
}

/// The files that the entries laid down.
pub fn recorded_files(entries: &Vec<LayerEntry>) -> (r: Vec<String>)
    ensures
        texts(r@) == laid_down(entries@),
{
    let mut r: Vec<String> = Vec::new();
    let mut i: usize = 0;
    assert(texts(r@) =~= Seq::<Seq<char>>::empty());
    while i < entries.len()
        invariant
            i <= entries.len(),
            texts(r@) == laid_down(entries@.take(i as int)),
        decreases entries.len() - i,
    {
        let e = &entries[i];
        let ghost before = texts(r@);
        assert(entries@.take(i + 1).drop_last() =~= entries@.take(i as int));
        if e.unpacked && e.is_file {
            let path = replace_char(e.path.as_str(), '\\', '/');
            r.push(path);
            assert(texts(r@) =~= before.push(path@));
        }
        i = i + 1;
    }
    assert(entries@.take(entries@.len() as int) =~= entries@);
    r
}

/// The files of all layers, in order.
pub open spec fn all_files(layers: Seq<Vec<String>>) -> Seq<Seq<char>>
    decreases layers.len(),
{
    if layers.len() == 0 {
        Seq::empty()
    } else {
        all_files(layers.drop_last()) + texts(layers.last()@)
    }
}

/// The summary of a pull, from the package's descriptor and the files of each
/// layer that was fetched.
pub fn pull_summary(config: PackageConfig, layers: &Vec<Vec<String>>) -> (r: PullSummary)
    ensures
        r.name@ == config.name@,
        r.version@ == config.version@,
        r.layer_count == layers@.len(),
        texts(r.files@) == all_files(layers@),
        r.activation@ == config.activation@,
        r.tools@ == config.tools@,
{
    let mut files: Vec<String> = Vec::new();
    let mut i: usize = 0;
    assert(texts(files@) =~= Seq::<Seq<char>>::empty());
    while i < layers.len()
        invariant
            i <= layers.len(),
            texts(files@) == all_files(layers@.take(i as int)),
        decreases layers.len() - i,
    {
        let mut more = copy_texts(&layers[i]);
        let ghost a = files@;
        let ghost b = more@;
        files.append(&mut more);
        proof {
            assert(texts(files@) =~= texts(a) + texts(b));
            assert(layers@.take(i + 1).drop_last() =~= layers@.take(i as int));
        }
        i = i + 1;
    }
    assert(layers@.take(layers@.len() as int) =~= layers@);
    PullSummary {
        name: config.name,
        version: config.version,
        layer_count: layers.len(),
        files,
        activation: config.activation,
        tools: config.tools,
    }
}

// ---- layers ----

/// The bytes that `zstd` decompresses to, if they are a zstd stream.
pub uninterp spec fn zstd_decoded(data: Seq<u8>) -> Option<Seq<u8>>;

/// `r` is something that `zstd::stream::encode_all` can give for `data` at
/// `level`: a stream, or the text of an error. The stream depends on the library
/// that `zstd` binds, and whether there is one on the memory of the machine, so
/// that the same bytes may have many results.
pub uninterp spec fn zstd_gives(
    data: Seq<u8>,
    level: int,
    r: Result<Seq<u8>, Seq<char>>,
) -> bool;

/// The stream that compression gave, or the text of its error.
pub open spec fn compressed(r: Result<Vec<u8>, String>) -> Result<Seq<u8>, Seq<char>> {
    match r {
        Ok(v) => Ok(v@),
        Err(e) => Err(e@),
    }
}

/// `zstd::stream::encode_all`: what it gives for these bytes at this level. A
/// stream that it gives decompresses to `data`. Which stream that is, and when
/// there is none, is left unsaid.
#[verifier::external_body]
fn zstd_encode(data: &[u8], level: i32) -> (r: Result<Vec<u8>, String>)
    ensures
        zstd_gives(data@, level as int, compressed(r)),
        r matches Ok(v) ==> zstd_decoded(v@) == Some(data@),
{
    zstd::stream::encode_all(data, level).map_err(|e| e.to_string())
}

/// `zstd::stream::decode_all`: the bytes that a zstd stream decompresses to.
#[verifier::external_body]
fn zstd_decode(data: &[u8]) -> (r: Result<Vec<u8>, String>)
    ensures
        match r {
            Ok(v) => zstd_decoded(data@) == Some(v@),
            Err(_) => zstd_decoded(data@) is None,
        },
{
    zstd::stream::decode_all(data).map_err(|e| e.to_string())
}

/// The payload of a layer with this tarball: what `zstd` makes of the tarball at
/// the level of layers. It unpacks to the tarball again. There is an error only
/// where the compression reports that one.
pub fn build_layer(tarball: &[u8]) -> (r: Result<Vec<u8>, String>)
    ensures
        zstd_gives(tarball@, LAYER_LEVEL as int, compressed(r)),
        r matches Ok(v) ==> zstd_decoded(v@) == Some(tarball@),
{
    zstd_encode(tarball, LAYER_LEVEL)
}

/// The tarball of a layer's payload.
pub fn extract_layer(payload: &[u8]) -> (r: Result<Vec<u8>, String>)
    ensures
        match r {
            Ok(v) => zstd_decoded(payload@) == Some(v@),
            Err(_) => zstd_decoded(payload@) is None,
        },
{
    zstd_decode(payload)
}

// ---- digests ----

/// The SHA-256 digest of some bytes.
pub uninterp spec fn sha256_of(data: Seq<u8>) -> Seq<u8>;

/// `sha2::Sha256::digest`: the SHA-256 digest of the bytes, which has
/// thirty-two bytes.
#[verifier::external_body]
fn sha256(data: &[u8]) -> (r: Vec<u8>)
    ensures
        r@ == sha256_of(data@),
        r@.len() == 32,
{
    sha2::Sha256::digest(data).to_vec()
}

/// The hexadecimal digit for `n`.
pub open spec fn hex_digit(n: int) -> char {
    if n < 10 {
        ((48 + n) as u8) as char
    } else {
        ((87 + n) as u8) as char
    }
}

/// Two lower-case hexadecimal digits for each byte.
pub open spec fn hex_of(data: Seq<u8>) -> Seq<char> {
    Seq::new(
        2 * data.len(),
        |i: int|
            if i % 2 == 0 {
                hex_digit(data[i / 2] as int / 16)
            } else {
                hex_digit(data[i / 2] as int % 16)
            },
    )
}

/// `hex::encode`: two lower-case hexadecimal digits for each byte.
#[verifier::external_body]
fn hex_encode(data: &Vec<u8>) -> (r: String)
    ensures
        r@ == hex_of(data@),
{
    hex::encode(data)
}

/// Why bytes do not have a digest.
#[derive(Debug, PartialEq, Eq)]
pub enum DigestError {
    /// The digest names no algorithm.
    Malformed,
    /// The algorithm is not SHA-256.
    Unsupported { alg: String },
    /// The bytes have another digest.
    Mismatch { want: String, got: String },
}

/// What a digest error says.
#[verifier::ext_equal]
pub enum DigestErrorModel {
    Malformed,
    Unsupported { alg: Seq<char> },
    Mismatch { want: Seq<char>, got: Seq<char> },
}

impl View for DigestError {
    type V = DigestErrorModel;

    open spec fn view(&self) -> DigestErrorModel {
        match *self {
            DigestError::Malformed => DigestErrorModel::Malformed,
            DigestError::Unsupported { alg } => DigestErrorModel::Unsupported { alg: alg@ },
            DigestError::Mismatch { want, got } => DigestErrorModel::Mismatch {
                want: want@,
                got: got@,
            },
        }
    }
}

impl DigestError {
    /// The text of the error for this expected digest.
    pub fn message(&self, expected: &str) -> (r: String)
        ensures
            r@ == (match self@ {
                DigestErrorModel::Malformed => "malformed digest: "@ + expected@,
                DigestErrorModel::Unsupported { alg } => "unsupported digest algorithm: "@ + alg,
                DigestErrorModel::Mismatch { want, got } =>
                    "digest mismatch: expected sha256:"@ + want + ", got sha256:"@ + got,
            }),
    {
        match self {
            DigestError::Malformed => {
                let mut r = "malformed digest: ".to_owned();
                r.push_str(expected);
                r
            },
            DigestError::Unsupported { alg } => {
                let mut r = "unsupported digest algorithm: ".to_owned();
                r.push_str(alg.as_str());
                r
            },
            DigestError::Mismatch { want, got } => {
                let mut r = "digest mismatch: expected sha256:".to_owned();
                r.push_str(want.as_str());
                r.push_str(", got sha256:");
                r.push_str(got.as_str());
                r
            },
        }
    }
}

/// What is wrong with a digest, given the one that the bytes have.
pub open spec fn digest_problem(digest: Seq<u8>, expected: Seq<char>) -> Option<DigestErrorModel> {
    match cut(expected, ':') {
        None => Some(DigestErrorModel::Malformed),
        Some((alg, want)) => if alg != "sha256"@ {
            Some(DigestErrorModel::Unsupported { alg })
        } else if hex_of(digest) != want {
            Some(DigestErrorModel::Mismatch { want, got: hex_of(digest) })
        } else {
            None
        },
    }
}

/// The error of a check, if there is one.
pub open spec fn problem_in(r: Result<(), DigestError>) -> Option<DigestErrorModel> {
    match r {
        Ok(()) => None,
        Err(e) => Some(e@),
    }
}

/// Check an expected digest against the SHA-256 digest that some bytes have.
pub fn check_digest(digest: &Vec<u8>, expected: &str) -> (r: Result<(), DigestError>)
    ensures
        problem_in(r) == digest_problem(digest@, expected@),
        r is Ok <==> expected@ == "sha256"@ + ":"@ + hex_of(digest@),
{
    proof {
        law_only_the_true_digest_is_accepted(digest@, expected@);
    }
    match split_once(expected, ':') {
        None => Err(DigestError::Malformed),
        Some((alg, want)) => {
            if !same(alg.as_str(), "sha256") {
                return Err(DigestError::Unsupported { alg });
            }
            let got = hex_encode(digest);
            if !same(got.as_str(), want.as_str()) {
                return Err(DigestError::Mismatch { want, got });
            }
            Ok(())
        },
    }
}

/// Check that bytes have the expected digest.
pub fn verify_digest(data: &[u8], expected: &str) -> (r: Result<(), DigestError>)
    ensures
        problem_in(r) == digest_problem(sha256_of(data@), expected@),
        r is Ok <==> expected@ == "sha256"@ + ":"@ + hex_of(sha256_of(data@)),
{
    let digest = sha256(data);
    check_digest(&digest, expected)
}

/// A digest of bytes is accepted exactly where it is `sha256:` and the
/// hexadecimal form of the digest that the bytes have.
pub proof fn law_only_the_true_digest_is_accepted(digest: Seq<u8>, expected: Seq<char>)
    ensures
        digest_problem(digest, expected) is None <==> expected == "sha256"@ + ":"@ + hex_of(digest),
{
    reveal_strlit("sha256");
    reveal_strlit(":");
    let n = crate::text::first_at(expected, ':');
    crate::text::lemma_first_at(expected, ':');
    if expected == "sha256"@ + ":"@ + hex_of(digest) {
        assert(expected[6] == ':');
        assert(n == 6) by {
            if n < 6 {
                assert(expected[n] == "sha256"@[n]);
            }
        }
        assert(expected.take(6) =~= "sha256"@);
        assert(expected.skip(7) =~= hex_of(digest));
    }
    if digest_problem(digest, expected) is None {
        assert(expected =~= expected.take(n) + ":"@ + expected.skip(n + 1));
    }
}

/// The name of a blob in the cache: its digest without the algorithm.
pub open spec fn blob_name(digest: Seq<char>) -> Seq<char> {
    match cut(digest, ':') {
        Some((_, h)) => h,
        None => digest,
    }
}

/// The directory of cached blobs below the install root.
pub fn oci_cache_dir(root: Vec<String>) -> (r: Vec<String>)
    ensures
        texts(r@) == texts(root@).push("cache"@).push("oci"@).push("blobs"@).push("sha256"@),
{
    with_part(with_part(with_part(cache_dir(root), "oci"), "blobs"), "sha256")
}

/// The path of a blob in the cache.
pub fn cached_blob_path(cache: Vec<String>, digest: &str) -> (r: Vec<String>)
    ensures
        texts(r@) == texts(cache@).push(blob_name(digest@)),
{
    match split_once(digest, ':') {
        Some((_, h)) => with_part(cache, h.as_str()),
        None => with_part(cache, digest),
    }
}

// ---- laws ----

/// The directories that a package may overlay are the four, each where it is
/// there, in this order and each once; the platforms are the first three.
pub proof fn law_overlay_directories(p: Present, d: Seq<char>)
    ensures
        overlays_in(p).contains(d) <==> (p.windows && d == "windows"@) || (p.linux && d
            == "linux"@) || (p.macos && d == "macos"@) || (p.share && d == "share"@),
        platforms_in(p).contains(d) <==> (p.windows && d == "windows"@) || (p.linux && d
            == "linux"@) || (p.macos && d == "macos"@),
        overlays_in(p).len() == (if p.windows {
            1int
        } else {
            0
        }) + (if p.linux {
            1int
        } else {
            0
        }) + (if p.macos {
            1int
        } else {
            0
        }) + (if p.share {
            1int
        } else {
            0
        }),
        platforms_in(p).is_prefix_of(overlays_in(p)),
        overlays_in(p).len() == 0 <==> !p.windows && !p.linux && !p.macos && !p.share,
        p.windows && p.linux ==> platforms_in(p)[0] == "windows"@ && platforms_in(p)[1]
            == "linux"@,
        p.windows && p.macos ==> platforms_in(p)[0] == "windows"@,
        p.linux && p.macos ==> platforms_in(p).last() == "macos"@,
        p.share ==> overlays_in(p).last() == "share"@,
{
    let none = Seq::<Seq<char>>::empty();
    let a = with_name(none, p.windows, "windows"@);
    let b = with_name(a, p.linux, "linux"@);
    let c = with_name(b, p.macos, "macos"@);
    let e = with_name(c, p.share, "share"@);
    lemma_with_name(none, p.windows, "windows"@, d);
    lemma_with_name(a, p.linux, "linux"@, d);
    lemma_with_name(b, p.macos, "macos"@, d);
    lemma_with_name(c, p.share, "share"@, d);
    assert(c =~= e.subrange(0, c.len() as int));
}

proof fn lemma_with_name(s: Seq<Seq<char>>, present: bool, t: Seq<char>, d: Seq<char>)
    ensures
        with_name(s, present, t).contains(d) <==> s.contains(d) || (present && d == t),
{
    let r = with_name(s, present, t);
    if s.contains(d) {
        let i = choose|i: int| 0 <= i < s.len() && s[i] == d;
        assert(r[i] == d);
    }
    if present {
        assert(r[s.len() as int] == t);
    }
    if r.contains(d) && !(present && d == t) {
        let i = choose|i: int| 0 <= i < r.len() && r[i] == d;
        assert(s[i] == d);
    }
}

/// Every file below an overlay directory that is there is copied, however deep it
/// stands, and recorded under its path with slashes; every directory there is
/// made. Whatever else the walk meets, there or elsewhere, is passed over.
pub proof fn law_whole_package_is_copied(p: Present, path: Seq<Seq<char>>, kind: WalkKind)
    requires
        path.len() >= 1,
    ensures
        ({
            let there = (p.windows && path[0] == "windows"@) || (p.linux && path[0] == "linux"@)
                || (p.macos && path[0] == "macos"@) || (p.share && path[0] == "share"@);
            &&& there && kind == WalkKind::File ==> step_for(p, path, kind) == StepModel::Copy(
                index_path(path),
            )
            &&& there && kind == WalkKind::Directory ==> step_for(p, path, kind)
                == StepModel::MakeDir
            &&& !there || kind == WalkKind::Other ==> step_for(p, path, kind) == StepModel::Skip
        }),
{
    law_overlay_directories(p, path[0]);
}

/// A file in a directory whose files are copied is copied too, and recorded under
/// the directory's path, a slash and its name.
pub proof fn law_deeper_files_are_copied(p: Present, path: Seq<Seq<char>>, name: Seq<char>)
    requires
        path.len() >= 1,
        step_for(p, path, WalkKind::Directory) is MakeDir,
        !name.contains('\\'),
    ensures
        step_for(p, path.push(name), WalkKind::Directory) is MakeDir,
        step_for(p, path, WalkKind::File) is Copy,
        step_for(p, path.push(name), WalkKind::File) == StepModel::Copy(
            step_for(p, path, WalkKind::File)->Copy_0 + seq!['/'] + name,
        ),
{
    assert(path.push(name)[0] == path[0]);
    law_index_path(path, name);
    let m = name.map_values(
        |c: char|
            if c == '\\' {
                '/'
            } else {
                c
            },
    );
    assert(m =~= name) by {
        assert forall|i: int| 0 <= i < name.len() implies m[i] == name[i] by {
            assert(name.contains(name[i]));
        }
    }
}

/// A file is recorded exactly where a step copies it, in the order of the steps.
pub proof fn law_copied_files_are_recorded(steps: Seq<OverlayStep>, step: OverlayStep, x: Seq<char>)
    ensures
        copied(steps).contains(x) <==> exists|i: int|
            0 <= i < steps.len() && (#[trigger] steps[i])@ == StepModel::Copy(x),
        match step@ {
            StepModel::Copy(f) => copied(steps.push(step)) == copied(steps).push(f),
            _ => copied(steps.push(step)) == copied(steps),
        },
    decreases steps.len(),
{
    assert(steps.push(step).drop_last() =~= steps);
    if steps.len() > 0 {
        let t = steps.drop_last();
        let last = steps.last();
        law_copied_files_are_recorded(t, last, x);
        let done = copied(t);
        let now = copied(steps);
        if done.contains(x) {
            let i = choose|i: int| 0 <= i < done.len() && done[i] == x;
            assert(now[i] == x);
            let k = choose|k: int| 0 <= k < t.len() && (#[trigger] t[k])@ == StepModel::Copy(x);
            assert(steps[k]@ == StepModel::Copy(x));
        }
        if last@ == StepModel::Copy(x) {
            assert(steps[steps.len() - 1]@ == StepModel::Copy(x));
            assert(now[now.len() - 1] == x);
        }
        if now.contains(x) && !done.contains(x) {
            let i = choose|i: int| 0 <= i < now.len() && now[i] == x;
            if i < done.len() {
                assert(done[i] == x);
            }
        }
        if exists|k: int| 0 <= k < steps.len() && (#[trigger] steps[k])@ == StepModel::Copy(x) {
            let k = choose|k: int|
                0 <= k < steps.len() && (#[trigger] steps[k])@ == StepModel::Copy(x);
            if k < t.len() {
                assert(t[k]@ == StepModel::Copy(x));
            }
        }
    }
}

proof fn lemma_last_segment(head: Seq<char>, segment: Seq<char>, c: char)
    requires
        !segment.contains(c),
    ensures
        split(segment, c) == seq![segment],
        split(head.push(c) + segment, c).last() == segment,
    decreases head.len(),
{
    crate::text::lemma_first_at(segment, c);
    let k = crate::text::first_at(segment, c);
    if k < segment.len() {
        assert(segment.contains(segment[k]));
    }
    let s = head.push(c) + segment;
    let n = crate::text::first_at(s, c);
    crate::text::lemma_first_at(s, c);
    assert(s[head.len() as int] == c);
    let rest = split(s.skip(n + 1), c);
    crate::text::lemma_split_not_empty(s.skip(n + 1), c);
    assert(split(s, c).last() == rest.last());
    if n < head.len() {
        assert(s.skip(n + 1) =~= head.skip(n + 1).push(c) + segment);
        lemma_last_segment(head.skip(n + 1), segment, c);
    } else {
        assert(s.skip(n + 1) =~= segment);
    }
}

/// The name of a package is the one that is given, else what stands after the last
/// slash of the repository, else the repository.
pub proof fn law_package_name(name: Seq<char>, head: Seq<char>, segment: Seq<char>)
    requires
        !segment.contains('/'),
    ensures
        package_name(Some(name), head) == name,
        package_name(None, segment) == segment,
        package_name(None, head.push('/') + segment) == segment,
{
    lemma_last_segment(head, segment, '/');
}

/// The version of a package is the one that is given, else the tag, else that of
/// the package's manifest; there is none where none of them has one.
pub proof fn law_package_version(
    given: Option<Seq<char>>,
    tag: Option<Seq<char>>,
    m: Option<ManifestModel>,
)
    ensures
        given is Some ==> package_version(given, tag, m) == given,
        given is None && tag is Some ==> package_version(given, tag, m) == tag,
        given is None && tag is None && m is Some ==> package_version(given, tag, m) == Some(
            m->0.version,
        ),
        given is None && tag is None && m is None ==> package_version(given, tag, m) is None,
{
}

/// Whatever directories are there and whatever options are given, a package has
/// exactly the activation and the tools of its manifest.
pub proof fn law_descriptor_keeps_contributions(
    name: Seq<char>,
    version: Seq<char>,
    platforms: Seq<Seq<char>>,
    description: Option<Seq<char>>,
    m: Option<ManifestModel>,
    p: Present,
)
    ensures
        ({
            let c = package_config(name, version, platforms, description, m, p);
            &&& c.name == name
            &&& c.version == version
            &&& m matches Some(x) ==> c.activation == x.activation && c.tools == x.tools
            &&& m is None ==> c.activation == Map::<Seq<char>, BlockModel>::empty() && c.tools
                == Map::<Seq<char>, ToolModel>::empty()
            &&& description is Some ==> c.description == description
            &&& description is None ==> c.description == (if m is Some {
                m->0.description
            } else {
                None
            })
            &&& platforms.len() > 0 ==> c.platforms == platforms
            &&& platforms.len() == 0 ==> c.platforms == platforms_in(p)
        }),
{
}

/// The layers that are fetched are those of the type of ToolBox layers, all of
/// them, in their order.
pub proof fn law_every_layer_is_fetched(types: Seq<Seq<char>>, i: int)
    ensures
        wanted_layers(types).contains(i) <==> 0 <= i < types.len() && types[i]
            == "application/vnd.toolbox.package.layer.v1.tar+zstd"@,
        forall|a: int, b: int|
            0 <= a < b < wanted_layers(types).len() ==> #[trigger] wanted_layers(types)[a]
                < #[trigger] wanted_layers(types)[b],
        forall|a: int|
            0 <= a < wanted_layers(types).len() ==> 0 <= #[trigger] wanted_layers(types)[a]
                < types.len(),
        CONFIG_MEDIA_TYPE@ == "application/vnd.toolbox.package.config.v1+json"@,
    decreases types.len(),
{
    if types.len() > 0 {
        let t = types.drop_last();
        law_every_layer_is_fetched(t, i);
        let done = wanted_layers(t);
        let now = wanted_layers(types);
        if done.contains(i) {
            let a = choose|a: int| 0 <= a < done.len() && done[a] == i;
            assert(now[a] == i);
            assert(t[i] == types[i]);
        }
        if now.len() > done.len() {
            assert(now[now.len() - 1] == types.len() - 1);
        }
        if now.contains(i) && !done.contains(i) {
            let a = choose|a: int| 0 <= a < now.len() && now[a] == i;
            if a < done.len() {
                assert(done[a] == i);
            }
        }
        if 0 <= i < t.len() {
            assert(t[i] == types[i]);
        }
        assert forall|a: int| 0 <= a < now.len() implies 0 <= #[trigger] now[a] < types.len() by {
            if a < done.len() {
                assert(now[a] == done[a]);
            }
        }
        assert forall|a: int, b: int| 0 <= a < b < now.len() implies #[trigger] now[a]
            < #[trigger] now[b] by {
            assert(now[a] == done[a]);
            if b < done.len() {
                assert(now[b] == done[b]);
            }
        }
    }
}

/// Of the entries of a layer the files that were laid down are recorded, all of
/// them in their order, with slashes, and nothing else.
pub proof fn law_laid_down_files_are_recorded(v: Seq<LayerEntry>, e: LayerEntry)
    ensures
        laid_down(Seq::empty()) == Seq::<Seq<char>>::empty(),
        e.is_file && e.unpacked ==> laid_down(v.push(e)) == laid_down(v).push(
            e.path@.map_values(
                |c: char|
                    if c == '\\' {
                        '/'
                    } else {
                        c
                    },
            ),
        ),
        !e.is_file || !e.unpacked ==> laid_down(v.push(e)) == laid_down(v),
{
    assert(v.push(e).drop_last() =~= v);
    assert(with_char(e.path@, '\\', '/') =~= e.path@.map_values(
        |c: char|
            if c == '\\' {
                '/'
            } else {
                c
            },
    ));
}

/// The files of a pull are those of its layers, one layer after the other.
pub proof fn law_all_layers_are_recorded(layers: Seq<Vec<String>>, k: int, i: int)
    requires
        0 <= k < layers.len(),
        0 <= i < layers[k]@.len(),
    ensures
        all_files(layers).contains(layers[k]@[i]@),
        all_files(layers) == all_files(layers.drop_last()) + texts(layers.last()@),
        all_files(Seq::empty()) == Seq::<Seq<char>>::empty(),
    decreases layers.len(),
{
    let head = all_files(layers.drop_last());
    let all = all_files(layers);
    if k < layers.len() - 1 {
        law_all_layers_are_recorded(layers.drop_last(), k, i);
        let x = layers[k]@[i]@;
        assert(layers.drop_last()[k] == layers[k]);
        let j = choose|j: int| 0 <= j < head.len() && head[j] == x;
        assert(all[j] == x);
    } else {
        assert(texts(layers.last()@)[i] == layers[k]@[i]@);
        assert(all[head.len() + i] == layers[k]@[i]@);
    }
}

/// The hexadecimal form of bytes has two lower-case digits for each, the higher
/// half first.
pub proof fn law_hexadecimal(data: Seq<u8>, i: int)
    requires
        0 <= i < data.len(),
    ensures
        hex_of(data).len() == 2 * data.len(),
        hex_of(data)[2 * i] == "0123456789abcdef"@[data[i] as int / 16],
        hex_of(data)[2 * i + 1] == "0123456789abcdef"@[data[i] as int % 16],
{
    reveal_strlit("0123456789abcdef");
    assert((2 * i) / 2 == i && (2 * i) % 2 == 0);
    assert((2 * i + 1) / 2 == i && (2 * i + 1) % 2 == 1);
    lemma_hex_digit(data[i] as int / 16);
    lemma_hex_digit(data[i] as int % 16);
}

proof fn lemma_hex_digit(n: int)
    requires
        0 <= n < 16,
    ensures
        hex_digit(n) == "0123456789abcdef"@[n],
{
    reveal_strlit("0123456789abcdef");
    let s = "0123456789abcdef"@;
    assert(s[0] == '0' && s[1] == '1' && s[2] == '2' && s[3] == '3' && s[4] == '4' && s[5] == '5');
    assert(s[6] == '6' && s[7] == '7' && s[8] == '8' && s[9] == '9' && s[10] == 'a' && s[11]
        == 'b');
    assert(s[12] == 'c' && s[13] == 'd' && s[14] == 'e' && s[15] == 'f');
}

/// A blob is kept under its digest without the algorithm, and one whose digest
/// names no algorithm under the whole of it.
pub proof fn law_blob_name(alg: Seq<char>, hash: Seq<char>)
    requires
        !alg.contains(':'),
    ensures
        blob_name(alg.push(':') + hash) == hash,
        blob_name(alg) == alg,
{
    let s = alg.push(':') + hash;
    crate::text::law_cut_at_the_first(s, ':');
    crate::text::law_cut_at_the_first(alg, ':');
    assert(s[alg.len() as int] == ':');
    assert(s.contains(':'));
    match cut(s, ':') {
        Some((a, b)) => {
            assert(a.len() == alg.len()) by {
                if a.len() < alg.len() {
                    assert((a.push(':') + b)[a.len() as int] == ':');
                    assert(alg.contains(alg[a.len() as int]));
                } else if a.len() > alg.len() {
                    assert(s[alg.len() as int] == a[alg.len() as int]);
                    assert(a.contains(a[alg.len() as int]));
                }
            }
            assert(b =~= s.skip(alg.len() as int + 1));
            assert(hash =~= s.skip(alg.len() as int + 1));
        },
        None => {},
    }
    match cut(alg, ':') {
        Some((a, b)) => {
            assert((a.push(':') + b)[a.len() as int] == ':');
            assert(alg.contains(alg[a.len() as int]));
        },
        None => {},
    }
}

/// What a descriptor says is what its parts say, of every platform in order.
pub proof fn law_descriptor_says_all(c: PackageConfig, i: int)
    ensures
        c@.name == c.name@,
        c@.version == c.version@,
        c@.platforms.len() == c.platforms@.len(),
        0 <= i < c.platforms@.len() ==> c@.platforms[i] == c.platforms@[i]@,
        c@.description == (match c.description {
            Some(d) => Some(d@),
            None => None,
        }),
        c@.activation == c.activation@,
        c@.tools == c.tools@,
{
}

/// A registry is asked with the user name and the password that there are, a
/// reference has its own parts, and a check of a digest tells the error it found.
pub proof fn law_results_say_all(
    u: String,
    p: String,
    parts: RefParts,
    e: DigestError,
    m: &Manifest,
)
    ensures
        auth_text(RegistryAuth::Basic(u, p)) == Some((u@, p@)),
        auth_text(RegistryAuth::Anonymous) is None,
        ref_text(parts) == (parts.registry@, parts.repository@, opt_text(parts.tag)),
        parts_in(Ok(parts)) == Ok::<_, Seq<char>>(ref_text(parts)),
        parts_in(Err(u)) == Err::<(Seq<char>, Seq<char>, Option<Seq<char>>), _>(u@),
        problem_in(Ok(())) is None,
        problem_in(Err(e)) == Some(e@),
        manifest_in(Some(m)) == Some(m@),
        manifest_in(None) is None,
{
}

} // verus!
