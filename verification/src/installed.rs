//! The records of what each package laid down in an env, so that removing one
//! package never disturbs the files of another.

use crate::manifest::{copy_texts, ActivationBlock, BlockModel, Tool, ToolModel};
use crate::strmap::{Dup, StrMap};
use crate::text::{chars_of, texts};
use vstd::prelude::*;

verus! {

/// Where an env keeps its install records.
pub const INSTALLED_DIR: &'static str = ".toolbox/installed";

/// What installing a package laid down.
#[derive(Debug, PartialEq, Eq)]
pub struct InstalledFiles {
    pub package: String,
    pub version: String,
    /// Where the package came from.
    pub source: String,
    /// The files of the package, relative to the env root, with forward
    /// slashes.
    pub files: Vec<String>,
    /// The activation contributions that the package made.
    pub activation: StrMap<ActivationBlock>,
    /// The tools that the package contributed.
    pub tools: StrMap<Tool>,
}

/// What an install record says.
#[verifier::ext_equal]
pub struct RecordModel {
    pub package: Seq<char>,
    pub version: Seq<char>,
    pub source: Seq<char>,
    pub files: Seq<Seq<char>>,
    pub activation: Map<Seq<char>, BlockModel>,
    pub tools: Map<Seq<char>, ToolModel>,
}

impl View for InstalledFiles {
    type V = RecordModel;

    open spec fn view(&self) -> RecordModel {
        RecordModel {
            package: self.package@,
            version: self.version@,
            source: self.source@,
            files: texts(self.files@),
            activation: self.activation@,
            tools: self.tools@,
        }
    }
}

impl Dup for InstalledFiles {
    fn dup(&self) -> (r: Self) {
        InstalledFiles {
            package: self.package.clone(),
            version: self.version.clone(),
            source: self.source.clone(),
            files: copy_texts(&self.files),
            activation: self.activation.dup(),
            tools: self.tools.dup(),
        }
    }
}

/// A character that cannot stand in a file name on every system.
pub open spec fn is_reserved(c: char) -> bool {
    c == '/' || c == '\\' || c == ':' || c == '*' || c == '?' || c == '"' || c == '<' || c == '>'
        || c == '|'
}

/// `name` with an underscore in place of each reserved character.
pub open spec fn sanitized(name: Seq<char>) -> Seq<char> {
    Seq::new(name.len(), |i: int| if is_reserved(name[i]) { '_' } else { name[i] })
}

/// `name` made safe as a single component of a path.
pub fn sanitize(name: &str) -> (r: String)
    ensures
        r@ == sanitized(name@),
{
    let v = chars_of(name);
    let mut r = String::new();
    let mut i: usize = 0;
    while i < v.len()
        invariant
            i <= v.len(),
            v@ == name@,
            r@ == sanitized(name@).take(i as int),
        decreases v.len() - i,
    {
        let c = v[i];
        if c == '/' || c == '\\' || c == ':' || c == '*' || c == '?' || c == '"' || c == '<' || c
            == '>' || c == '|' {
            r.push('_');
        } else {
            r.push(c);
        }
        assert(sanitized(name@).take(i + 1) =~= sanitized(name@).take(i as int).push(
            sanitized(name@)[i as int],
        ));
        i = i + 1;
    }
    assert(sanitized(name@).take(name@.len() as int) =~= sanitized(name@));
    r
}

/// A sanitized name holds no reserved character, and sanitizing it again
/// changes nothing. A name without reserved characters stays as it is.
pub proof fn law_sanitized_is_safe(name: Seq<char>)
    ensures
        forall|i: int| 0 <= i < sanitized(name).len() ==> !is_reserved(#[trigger] sanitized(name)[i]),
        sanitized(sanitized(name)) == sanitized(name),
        (forall|i: int| 0 <= i < name.len() ==> !is_reserved(#[trigger] name[i])) ==> sanitized(
            name,
        ) == name,
{
    assert(sanitized(sanitized(name)) =~= sanitized(name));
    if forall|i: int| 0 <= i < name.len() ==> !is_reserved(#[trigger] name[i]) {
        assert(sanitized(name) =~= name);
    }
}

impl InstalledFiles {
    /// The path of the record of `package` within its env.
    pub fn record_path(package: &str) -> (r: String)
        ensures
            r@ == ".toolbox/installed"@ + "/"@ + sanitized(package@) + ".json"@,
    {
        let mut r = ".toolbox/installed".to_owned();
        r.push_str("/");
        r.push_str(sanitize(package).as_str());
        r.push_str(".json");
        r
    }
}

/// In a name that is made safe, each of the characters that stand in no file name
/// is an underscore, and every other stays.
pub proof fn law_sanitized(name: Seq<char>, i: int)
    requires
        0 <= i < name.len(),
    ensures
        sanitized(name).len() == name.len(),
        sanitized(name)[i] == (if "/\\:*?\"<>|"@.contains(name[i]) {
            '_'
        } else {
            name[i]
        }),
{
    reveal_strlit("/\\:*?\"<>|");
    let s = "/\\:*?\"<>|"@;
    assert(s.len() == 9);
    assert(s[0] == '/' && s[1] == '\\' && s[2] == ':' && s[3] == '*' && s[4] == '?' && s[5] == '"'
        && s[6] == '<' && s[7] == '>' && s[8] == '|');
    if is_reserved(name[i]) {
        assert(s.contains(name[i]));
    }
}

/// What a record says is what its parts say, of every file in order.
pub proof fn law_record_says_all(r: InstalledFiles, i: int)
    ensures
        r@.package == r.package@,
        r@.version == r.version@,
        r@.source == r.source@,
        r@.files.len() == r.files@.len(),
        0 <= i < r.files@.len() ==> r@.files[i] == r.files@[i]@,
        r@.activation == r.activation@,
        r@.tools == r.tools@,
{
}

} // verus!
