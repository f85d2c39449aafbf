//! Where ToolBox keeps its files. A path is a list of parts to join in order.

use crate::text::texts;
use vstd::prelude::*;

verus! {

/// An operating system that an env holds binaries for.
#[derive(Debug, Clone, Copy, PartialEq, Eq, Structural)]
pub enum Os {
    Windows,
    Linux,
    Macos,
}

/// The word for an OS.
pub open spec fn os_word(os: Os) -> Seq<char> {
    match os {
        Os::Windows => "windows"@,
        Os::Linux => "linux"@,
        Os::Macos => "macos"@,
    }
}

/// The directory within an env that holds the binaries for `os`.
pub fn os_subdir(os: Os) -> (r: &'static str)
    ensures
        r@ == os_word(os),
{
    match os {
        Os::Windows => "windows",
        Os::Linux => "linux",
        Os::Macos => "macos",
    }
}

/// The install root: `TOOLBOX_HOME` where it is set, else the directory of
/// ToolBox in the user's data directory, where there is one.
pub open spec fn install_root_parts(
    home: Option<Seq<char>>,
    data: Option<Seq<char>>,
    os: Os,
) -> Option<Seq<Seq<char>>> {
    match home {
        Some(h) => Some(seq![h]),
        None => match data {
            Some(d) => Some(
                seq![d, (if os == Os::Linux {
                    "toolbox"@
                } else {
                    "ToolBox"@
                })],
            ),
            None => None,
        },
    }
}

/// The view of an optional text.
pub open spec fn opt_view(s: Option<&str>) -> Option<Seq<char>> {
    match s {
        Some(t) => Some(t@),
        None => None,
    }
}

/// The root of the per-machine installation. `home` is the value of
/// `TOOLBOX_HOME`, `data` the user's data directory (on Windows the local one).
/// The error is the text to show.
pub fn install_root(home: Option<&str>, data: Option<&str>, os: Os) -> (r: Result<
    Vec<String>,
    String,
>)
    ensures
        match r {
            Ok(v) => install_root_parts(opt_view(home), opt_view(data), os) == Some(texts(v@)),
            Err(e) => install_root_parts(opt_view(home), opt_view(data), os) is None && e@ == (
            if os == Os::Windows {
                "could not resolve %LOCALAPPDATA%"@
            } else {
                "could not resolve data dir"@
            }),
        },
{
    let mut parts: Vec<String> = Vec::new();
    if let Some(h) = home {
        parts.push(h.to_owned());
        assert(texts(parts@) =~= seq![h@]);
        return Ok(parts);
    }
    match data {
        Some(d) => {
            parts.push(d.to_owned());
            if os == Os::Linux {
                parts.push("toolbox".to_owned());
                assert(texts(parts@) =~= seq![d@, "toolbox"@]);
            } else {
                parts.push("ToolBox".to_owned());
                assert(texts(parts@) =~= seq![d@, "ToolBox"@]);
            }
            Ok(parts)
        },
        None => if os == Os::Windows {
            Err("could not resolve %LOCALAPPDATA%".to_owned())
        } else {
            Err("could not resolve data dir".to_owned())
        },
    }
}

/// `parts` and one part more.
pub fn with_part(parts: Vec<String>, part: &str) -> (r: Vec<String>)
    ensures
        texts(r@) == texts(parts@).push(part@),
{
    let mut r = parts;
    let ghost before = texts(r@);
    r.push(part.to_owned());
    assert(texts(r@) =~= before.push(part@));
    r
}

/// The registry's file.
pub fn registry_path(root: Vec<String>) -> (r: Vec<String>)
    ensures
        texts(r@) == texts(root@).push("registry.tomlp"@),
{
    with_part(root, "registry.tomlp")
}

/// The directory of downloaded blobs.
pub fn cache_dir(root: Vec<String>) -> (r: Vec<String>)
    ensures
        texts(r@) == texts(root@).push("cache"@),
{
    with_part(root, "cache")
}

/// The directory of the state and the logs of services.
pub fn run_dir(root: Vec<String>) -> (r: Vec<String>)
    ensures
        texts(r@) == texts(root@).push("run"@),
{
    with_part(root, "run")
}

/// The installation is where `TOOLBOX_HOME` says, whatever the system; else in the
/// user's data directory, in a directory of ToolBox; and nowhere where neither is
/// known.
pub proof fn law_install_root(home: Option<Seq<char>>, data: Option<Seq<char>>, os: Os)
    ensures
        home matches Some(h) ==> install_root_parts(home, data, os) == Some(seq![h]),
        home is None && data is Some && os == Os::Linux ==> install_root_parts(home, data, os)
            == Some(seq![data->0, "toolbox"@]),
        home is None && data is Some && os != Os::Linux ==> install_root_parts(home, data, os)
            == Some(seq![data->0, "ToolBox"@]),
        home is None && data is None ==> install_root_parts(home, data, os) is None,
{
}

/// The directory of a system is named by its word, and an optional text is what it
/// holds.
pub proof fn law_words_and_texts(s: &str)
    ensures
        os_word(Os::Windows) == "windows"@,
        os_word(Os::Linux) == "linux"@,
        os_word(Os::Macos) == "macos"@,
        opt_view(Some(s)) == Some(s@),
        opt_view(None) is None,
{
}

} // verus!
