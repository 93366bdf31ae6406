//! Where the files are.

use std::path::PathBuf;

use opencode_config::get_opencode_config_path;
use opencode_config::get_opencode_dir;
use opencode_config::get_opencode_env_path;
use opencode_config::paths::config_path_in;
use opencode_config::paths::env_path_in;
use opencode_config::paths::opencode_dir_in;

#[test]
fn directory_that_is_set_is_taken() {
    let set = PathBuf::from("/srv/opencode");
    assert_eq!(get_opencode_dir(Some(set.clone())), set);
    assert_eq!(opencode_dir_in(Some(set.clone()), Some(PathBuf::from("/home/u"))), set);
    assert_eq!(
        get_opencode_config_path(Some(set.clone())),
        PathBuf::from("/srv/opencode/opencode.json")
    );
    assert_eq!(get_opencode_env_path(Some(set)), PathBuf::from("/srv/opencode/.env"));
}

#[test]
fn directory_in_the_home_directory() {
    assert_eq!(
        opencode_dir_in(None, Some(PathBuf::from("/home/u"))),
        PathBuf::from("/home/u/.config/opencode")
    );
    assert_eq!(opencode_dir_in(None, None), PathBuf::from(".config/opencode"));
}

#[test]
fn directory_of_this_user() {
    let dir = get_opencode_dir(None);
    assert_eq!(dir, opencode_dir_in(None, dirs::home_dir()));
    assert!(dir.ends_with(".config/opencode"));
    assert_eq!(get_opencode_config_path(None), dir.join("opencode.json"));
    assert_eq!(get_opencode_env_path(None), dir.join(".env"));
}

#[test]
fn files_stand_side_by_side() {
    let dir = PathBuf::from("/srv/opencode");
    let config = config_path_in(&dir);
    let env = env_path_in(&dir);
    assert_eq!(config, PathBuf::from("/srv/opencode/opencode.json"));
    assert_eq!(env, PathBuf::from("/srv/opencode/.env"));
    assert_eq!(config.parent(), env.parent());
    assert_ne!(config, env);
}
