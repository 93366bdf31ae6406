//! Where the OpenCode files are.

use std::path::PathBuf;

use vstd::prelude::*;

verus! {

/// `std::path::PathBuf`, a path.
#[verifier::external_type_specification]
#[verifier::external_body]
pub struct ExPathBuf(std::path::PathBuf);

/// The components of a path: its root, if it has one, and its names. Where the
/// platform resolves the dots of a path when a name is joined to it, as for the
/// verbatim paths of Windows, they are resolved here.
pub uninterp spec fn components(path: PathBuf) -> Seq<Seq<char>>;

/// Whether `name` is one plain component of a path, on every platform.
pub open spec fn is_plain_name(name: Seq<char>) -> bool {
    &&& name.len() > 0
    &&& name != seq!['.']
    &&& name != seq!['.', '.']
    &&& forall|i: int|
        0 <= i < name.len() ==> #[trigger] name[i] != '/' && name[i] != '\\' && name[i] != ':'
}

/// `Path::join` with a plain name: the path with one more component.
#[verifier::external_body]
fn join(base: &PathBuf, name: &str) -> (path: PathBuf)
    requires
        is_plain_name(name@),
    ensures
        components(path) == components(*base).push(name@),
{
    base.join(name)
}

/// `PathBuf::from` with a plain name: the path of that one component.
#[verifier::external_body]
fn path_from(name: &str) -> (path: PathBuf)
    requires
        is_plain_name(name@),
    ensures
        components(path) == seq![name@],
{
    PathBuf::from(name)
}

/// `dirs::home_dir`: the home directory of the user, if there is one. It rests on
/// the environment, so nothing is said of it.
#[verifier::external_body]
fn home_dir() -> (home: Option<PathBuf>) {
    dirs::home_dir()
}

/// The names that are joined to a path here are plain.
proof fn lemma_names_are_plain()
    ensures
        is_plain_name(".config"@),
        is_plain_name("opencode"@),
        is_plain_name("opencode.json"@),
        is_plain_name(".env"@),
{
    reveal_strlit(".config");
    reveal_strlit("opencode");
    reveal_strlit("opencode.json");
    reveal_strlit(".env");
    assert(".config"@.len() == 7);
    assert("opencode"@.len() == 8);
    assert("opencode.json"@.len() == 13);
    assert(".env"@.len() == 4);
}

/// The components of the OpenCode directory: of the directory that is set, else
/// of `.config/opencode` in the home directory, else of `.config/opencode`.
pub open spec fn dir_components(override_dir: Option<PathBuf>, home: Option<PathBuf>) -> Seq<
    Seq<char>,
> {
    match (override_dir, home) {
        (Some(dir), _) => components(dir),
        (None, Some(dir)) => components(dir).push(".config"@).push("opencode"@),
        (None, None) => seq![".config"@, "opencode"@],
    }
}

/// The OpenCode directory for a given home directory.
pub fn opencode_dir_in(override_dir: Option<PathBuf>, home: Option<PathBuf>) -> (dir: PathBuf)
    ensures
        components(dir) == dir_components(override_dir, home),
        override_dir matches Some(set) ==> dir == set,
{
    if let Some(dir) = override_dir {
        return dir;
    }
    proof {
        lemma_names_are_plain();
    }
    let base = match home {
        Some(dir) => join(&dir, ".config"),
        None => path_from(".config"),
    };
    join(&base, "opencode")
}

/// The OpenCode directory: the one that is set, else the one in the home
/// directory.
pub fn get_opencode_dir(override_dir: Option<PathBuf>) -> (dir: PathBuf)
    ensures
        override_dir matches Some(set) ==> dir == set,
        exists|home: Option<PathBuf>| components(dir) == #[trigger] dir_components(override_dir, home),
{
    match override_dir {
        Some(dir) => {
            assert(components(dir) == dir_components(override_dir, None));
            dir
        },
        None => opencode_dir_in(None, home_dir()),
    }
}

/// The path of the configuration file in the OpenCode directory.
pub fn config_path_in(dir: &PathBuf) -> (path: PathBuf)
    ensures
        components(path) == components(*dir).push("opencode.json"@),
{
    proof {
        lemma_names_are_plain();
    }
    join(dir, "opencode.json")
}

/// The path of the environment file in the OpenCode directory.
pub fn env_path_in(dir: &PathBuf) -> (path: PathBuf)
    ensures
        components(path) == components(*dir).push(".env"@),
{
    proof {
        lemma_names_are_plain();
    }
    join(dir, ".env")
}

/// The path of the OpenCode configuration file.
pub fn get_opencode_config_path(override_dir: Option<PathBuf>) -> (path: PathBuf)
    ensures
        exists|home: Option<PathBuf>|
            components(path) == (#[trigger] dir_components(override_dir, home)).push(
                "opencode.json"@,
            ),
{
    config_path_in(&get_opencode_dir(override_dir))
}

/// The path of the OpenCode environment file.
pub fn get_opencode_env_path(override_dir: Option<PathBuf>) -> (path: PathBuf)
    ensures
        exists|home: Option<PathBuf>|
            components(path) == (#[trigger] dir_components(override_dir, home)).push(".env"@),
{
    env_path_in(&get_opencode_dir(override_dir))
}

/// The configuration file and the environment file of one directory stand side by
/// side: both are in that directory, and they differ.
pub proof fn law_files_stand_side_by_side(dir: PathBuf, config: PathBuf, env: PathBuf)
    requires
        components(config) == components(dir).push("opencode.json"@),
        components(env) == components(dir).push(".env"@),
    ensures
        components(config).drop_last() == components(dir),
        components(env).drop_last() == components(dir),
        config != env,
{
    reveal_strlit("opencode.json");
    reveal_strlit(".env");
    assert("opencode.json"@.len() != ".env"@.len());
    assert(components(config).last() == "opencode.json"@);
    assert(components(env).last() == ".env"@);
}

/// The OpenCode directory is the one that is set, else `.config/opencode` in the
/// home directory, else `.config/opencode`.
pub proof fn law_directory_is_set_or_in_the_home_directory(dir: PathBuf, home: PathBuf)
    ensures
        dir_components(Some(dir), Some(home)) == components(dir),
        dir_components(Some(dir), None) == components(dir),
        dir_components(None, Some(home)) == components(home) + seq![".config"@, "opencode"@],
        dir_components(None, None) == seq![".config"@, "opencode"@],
{
    assert(components(home).push(".config"@).push("opencode"@) == components(home) + seq![
        ".config"@,
        "opencode"@,
    ]);
}

} // verus!
