use boxednix::config::model::empty_pathbuf_vec;
use boxednix::config::{
    choose_flake, choose_resolved, choose_target, create_default, dir_of_parent, file_name,
    find_project_root, generated_dir, load, name_of_stem, nix_name, project_root, resolve_path,
    resolve_paths, source_dir, target_dir, wants_flake, ConfigError, Generate, Gitignore,
    TomlConfig, CONFIG_FILE,
};

#[test]
fn nearest_root_is_chosen() {
    assert_eq!(find_project_root(&[false, true, false, true]), Some(1));
    assert_eq!(find_project_root(&[true, true]), Some(0));
    assert_eq!(find_project_root(&[false, false, true]), Some(2));
}

#[test]
fn no_root_is_an_error() {
    assert_eq!(find_project_root(&[false, false]), None);
    assert_eq!(find_project_root(&[]), None);
    assert_eq!(project_root(&[false, false]), Err(ConfigError::NoRoot));
    assert_eq!(project_root(&[false, true]), Ok(1));
}

#[test]
fn the_configuration_has_its_name() {
    assert_eq!(CONFIG_FILE, "boxednix.toml");
}

#[test]
fn file_name_is_the_stem_as_a_nix_file() {
    assert_eq!(file_name("a/b/c.age"), Ok("c.nix".to_string()));
    assert_eq!(file_name("wifi.nix.age"), Ok("wifi.nix.nix".to_string()));
    assert_eq!(file_name("plain"), Ok("plain.nix".to_string()));
    assert_eq!(file_name(".hidden"), Ok(".hidden.nix".to_string()));
    assert_eq!(nix_name("c"), "c.nix");
    assert_eq!(name_of_stem(Some("c".to_string())), Ok("c.nix".to_string()));
}

#[test]
fn source_without_a_stem_is_an_error() {
    assert_eq!(file_name(""), Err(ConfigError::NoStem));
    assert_eq!(file_name("a/.."), Err(ConfigError::NoStem));
    assert_eq!(name_of_stem(None), Err(ConfigError::NoStem));
}

#[test]
fn relative_target_lies_beside_the_source() {
    assert_eq!(
        target_dir("/home/me/project", "/home/me/project", "secrets", "generated"),
        Ok("secrets/generated".to_string())
    );
    assert_eq!(
        choose_target(false, None, "secrets/generated".to_string()),
        Ok("secrets/generated".to_string())
    );
}

#[test]
fn absolute_target_mirrors_the_project() {
    assert_eq!(
        target_dir("/home/me/project/sub", "/home/me/project", "secrets", "/var/generated"),
        Ok("/var/generated/sub/secrets".to_string())
    );
    assert_eq!(
        choose_target(true, Some("/var/generated/sub".to_string()), "x".to_string()),
        Ok("/var/generated/sub".to_string())
    );
}

#[test]
fn absolute_target_needs_a_source_in_the_project() {
    assert_eq!(
        target_dir("/home/me/project", "/home/me/project", "/etc", "/var/generated"),
        Err(ConfigError::Outside)
    );
    assert_eq!(
        choose_target(true, None, "x".to_string()),
        Err(ConfigError::Outside)
    );
}

#[test]
fn single_name_is_resolved_in_the_user_dir() {
    assert_eq!(
        resolve_path("key.txt".to_string(), Some("/home/me/.config/boxednix")),
        Ok("/home/me/.config/boxednix/key.txt".to_string())
    );
    assert_eq!(
        resolve_path("key.txt".to_string(), None),
        Err(ConfigError::NoUserDir)
    );
    assert_eq!(
        choose_resolved("k".to_string(), true, false, Some("/u/k".to_string())),
        Ok("/u/k".to_string())
    );
    assert_eq!(
        choose_resolved("k".to_string(), true, false, None),
        Err(ConfigError::NoUserDir)
    );
}

#[test]
fn other_paths_stand_as_they_are() {
    assert_eq!(
        resolve_path("keys/key.txt".to_string(), Some("/home/me/.config/boxednix")),
        Ok("keys/key.txt".to_string())
    );
    assert_eq!(
        resolve_path("/key.txt".to_string(), Some("/home/me/.config/boxednix")),
        Ok("/key.txt".to_string())
    );
    assert_eq!(
        resolve_path("keys/key.txt".to_string(), None),
        Ok("keys/key.txt".to_string())
    );
    assert_eq!(
        choose_resolved("/k".to_string(), true, true, Some("/u/k".to_string())),
        Ok("/k".to_string())
    );
    assert_eq!(
        choose_resolved("a/k".to_string(), false, false, None),
        Ok("a/k".to_string())
    );
}

#[test]
fn lists_are_resolved_path_by_path() {
    assert_eq!(
        resolve_paths(vec!["a".to_string(), "b/c".to_string()], Some("/u")),
        Ok(vec!["/u/a".to_string(), "b/c".to_string()])
    );
    assert_eq!(
        resolve_paths(vec!["b/c".to_string(), "a".to_string()], None),
        Err(ConfigError::NoUserDir)
    );
    assert_eq!(resolve_paths(empty_pathbuf_vec(), None), Ok(Vec::new()));
}

#[test]
fn generated_files_go_to_the_user_dir() {
    assert_eq!(
        generated_dir("/home/me/project", Some("/home/me/.config/boxednix")),
        Ok("/home/me/.config/boxednix/generated/project".to_string())
    );
    assert_eq!(generated_dir("/home/me/project", None), Err(ConfigError::NoUserDir));
    assert_eq!(generated_dir("/", Some("/u")), Err(ConfigError::NoName));
}

#[test]
fn default_configuration() {
    let config = create_default(
        false,
        "/home/me/project",
        Some("/u"),
        "key.txt".to_string(),
        None,
        vec!["friend.pub".to_string()],
        vec!["lists/all".to_string()],
    )
    .expect("a configuration");
    assert_eq!(config.identity, "/u/key.txt");
    assert_eq!(config.recipients, vec!["/u/friend.pub".to_string()]);
    assert_eq!(config.recipients_files, vec!["lists/all".to_string()]);
    assert_eq!(config.generated_dir, "/u/generated/project");
    assert_eq!(config.update_flake_input, None);
}

#[test]
fn default_configuration_with_a_directory() {
    let config = create_default(
        false,
        "/home/me/project",
        None,
        "/keys/key.txt".to_string(),
        Some("out".to_string()),
        Vec::new(),
        Vec::new(),
    )
    .expect("a configuration");
    assert_eq!(config.identity, "/keys/key.txt");
    assert_eq!(config.generated_dir, "out");
}

#[test]
fn default_configuration_is_not_written_twice() {
    assert!(matches!(
        create_default(
            true,
            "/home/me/project",
            Some("/u"),
            "key.txt".to_string(),
            None,
            Vec::new(),
            Vec::new()
        ),
        Err(ConfigError::Exists)
    ));
}

fn toml() -> TomlConfig {
    TomlConfig {
        identity: "/u/key.txt".to_string(),
        recipients: vec!["/u/friend.pub".to_string()],
        recipients_files: Vec::new(),
        generated_dir: "generated".to_string(),
        update_flake_input: Some("secrets".to_string()),
    }
}

#[test]
fn session_configuration() {
    let config = load(toml(), "/p", "/p", "secrets/wifi.age").expect("a configuration");
    assert_eq!(config.identity, "/u/key.txt");
    assert_eq!(config.recipients, vec!["/u/friend.pub".to_string()]);
    assert!(config.recipients_files.is_empty());
    assert_eq!(config.file_name, "wifi.nix");
    assert_eq!(config.target_dir, "secrets/generated");
    assert_eq!(config.flake_input, Some("secrets".to_string()));
}

#[test]
fn session_configuration_needs_a_source_with_a_directory() {
    assert!(matches!(load(toml(), "/p", "/p", ""), Err(ConfigError::NoParent)));
    assert_eq!(source_dir("a/b.age"), Ok("a".to_string()));
    assert_eq!(source_dir("b.age"), Ok("".to_string()));
    assert_eq!(source_dir("/"), Err(ConfigError::NoParent));
}

#[test]
fn plain_values_of_the_model() {
    let generate = Generate { dir: "out".to_string() };
    assert_eq!(generate.dir, "out");
    assert_ne!(Gitignore::Always, Gitignore::Never);
}

#[test]
fn flake_goes_with_an_absolute_or_default_directory() {
    assert!(wants_flake(None));
    assert!(wants_flake(Some("/var/generated")));
    assert!(!wants_flake(Some("generated")));
}

#[test]
fn flake_goes_by_what_is_known_of_the_directory() {
    assert!(choose_flake(None));
    assert!(choose_flake(Some(true)));
    assert!(!choose_flake(Some(false)));
}

#[test]
fn directory_is_the_path_above_the_source() {
    assert_eq!(dir_of_parent(Some("a".to_string())), Ok("a".to_string()));
    assert_eq!(dir_of_parent(None), Err(ConfigError::NoParent));
    assert_eq!(source_dir(""), Err(ConfigError::NoParent));
}
