use recipe_reduce::recipe::{Manifest, Recipe, Skeleton};
use recipe_reduce::reduce::{reduce_workspace_recipe, ReduceError};

fn manifest(path: &str, contents: &str) -> Manifest {
    Manifest { relative_path: path.to_owned(), contents: contents.to_owned() }
}

fn recipe(manifests: Vec<Manifest>, lock_file: Option<&str>) -> Recipe {
    Recipe { skeleton: Skeleton { manifests, lock_file: lock_file.map(|l| l.to_owned()) } }
}

const ROOT_WORKSPACE: &str = "[workspace]\nmembers = [\"root\"]\n";

const LOCK_CHAIN: &str = "[[package]]\nname = \"root\"\nversion = \"0.1.0\"\n\n[[package]]\nname = \"a\"\nversion = \"0.1.0\"\n\n[[package]]\nname = \"b\"\nversion = \"0.1.0\"\n\n[[package]]\nname = \"ext-crate\"\nversion = \"1.0.0\"\n";

/// A workspace of three crates root -> a -> b with root set {root}: every
/// member is reachable, so the reduced recipe equals the input.
#[test]
fn test_do_not_reduce_full_member_recipe() {
    let given = recipe(
        vec![
            manifest("Cargo.toml", ROOT_WORKSPACE),
            manifest("root/Cargo.toml", "[package]\nname = \"root\"\n\n[dependencies]\na = \"*\"\n"),
            manifest("a/Cargo.toml", "[package]\nname = \"a\"\n\n[dependencies]\nb = \"*\"\n"),
            manifest("b/Cargo.toml", "[package]\nname = \"b\"\n"),
        ],
        Some(LOCK_CHAIN),
    );

    let reduced = reduce_workspace_recipe(&given).unwrap();

    assert_eq!(reduced, given, "reduced recipe does not match expected output");
}

const LOCK_BAR_GIVEN: &str = "[[package]]\nname = \"root\"\nversion = \"0.1.0\"\n\n[[package]]\nname = \"bar\"\nversion = \"0.1.0\"\n\n[[package]]\nname = \"ext-crate\"\nversion = \"1.0.0\"\n";

const LOCK_BAR_WANT: &str = "[[package]]\nname = \"root\"\nversion = \"0.1.0\"\n\n[[package]]\nname = \"ext-crate\"\nversion = \"1.0.0\"\n";

/// Crate `bar` is a workspace member that no root depends on: its manifest
/// and its lock-file entry are removed, while the external crate's lock
/// entry stays untouched.
#[test]
fn test_reduce_recipe_without_member_dependency() {
    let given = recipe(
        vec![
            manifest("Cargo.toml", ROOT_WORKSPACE),
            manifest("root/Cargo.toml", "[package]\nname = \"root\"\n"),
            manifest("bar/Cargo.toml", "[package]\nname = \"bar\"\n"),
        ],
        Some(LOCK_BAR_GIVEN),
    );
    let want = recipe(
        vec![
            manifest("Cargo.toml", ROOT_WORKSPACE),
            manifest("root/Cargo.toml", "[package]\nname = \"root\"\n"),
        ],
        Some(LOCK_BAR_WANT),
    );

    let reduced = reduce_workspace_recipe(&given).unwrap();

    assert_eq!(reduced, want, "reduced recipe does not match expected output");
}

const LOCK_BAZ: &str = "[[package]]\nname = \"root\"\nversion = \"0.1.0\"\n\n[[package]]\nname = \"baz\"\nversion = \"0.1.0\"\n\n[[package]]\nname = \"ext-crate\"\nversion = \"1.0.0\"\n";

/// Crate `baz` is a workspace member that root depends on: both manifests
/// and both lock-file entries are retained.
#[test]
fn test_reduce_recipe_with_member_dependency() {
    let given = recipe(
        vec![
            manifest("Cargo.toml", ROOT_WORKSPACE),
            manifest("root/Cargo.toml", "[package]\nname = \"root\"\n\n[dependencies]\nbaz = \"*\"\n"),
            manifest("baz/Cargo.toml", "[package]\nname = \"baz\"\n"),
        ],
        Some(LOCK_BAZ),
    );
    let want = recipe(
        vec![
            manifest("Cargo.toml", ROOT_WORKSPACE),
            manifest("root/Cargo.toml", "[package]\nname = \"root\"\n\n[dependencies]\nbaz = \"*\"\n"),
            manifest("baz/Cargo.toml", "[package]\nname = \"baz\"\n"),
        ],
        Some(LOCK_BAZ),
    );

    let reduced = reduce_workspace_recipe(&given).unwrap();

    assert_eq!(reduced, want, "Reduced recipe does not match expected output");
}

/// A recipe without a manifest at the canonical root path fails with the
/// root-manifest-not-found error.
#[test]
fn test_missing_root_manifest() {
    let given = recipe(vec![manifest("root/Cargo.toml", "[package]\nname = \"root\"\n")], None);

    let result = reduce_workspace_recipe(&given);

    assert_eq!(result, Err(ReduceError::RootManifestNotFound));
}

/// Lock-file text that is not valid structured-document syntax fails with
/// the lock-file parse error.
#[test]
fn test_invalid_lockfile() {
    let given = recipe(
        vec![
            manifest("Cargo.toml", ROOT_WORKSPACE),
            manifest("root/Cargo.toml", "[package]\nname = \"root\"\n"),
        ],
        Some("[[package\nthis is not toml"),
    );

    let result = reduce_workspace_recipe(&given);

    assert_eq!(result, Err(ReduceError::LockFileNotToml));
}

/// A root manifest that is not valid structured-document syntax fails.
#[test]
fn test_invalid_root_manifest() {
    let given = recipe(vec![manifest("Cargo.toml", "[workspace\nnot toml")], None);

    let result = reduce_workspace_recipe(&given);

    assert_eq!(result, Err(ReduceError::RootManifestNotToml));
}

/// A root manifest whose workspace member field is not an array fails.
#[test]
fn test_members_not_array() {
    let given = recipe(vec![manifest("Cargo.toml", "[workspace]\nmembers = 5\n")], None);

    let result = reduce_workspace_recipe(&given);

    assert_eq!(result, Err(ReduceError::MembersNotArray));
}

/// A root manifest with no workspace table at all fails the same way as a
/// non-array member field.
#[test]
fn test_missing_workspace_table() {
    let given = recipe(vec![manifest("Cargo.toml", "[package]\nname = \"ws\"\n")], None);

    let result = reduce_workspace_recipe(&given);

    assert_eq!(result, Err(ReduceError::MembersNotArray));
}

/// A manifest with no extractable crate name (here: one that does not even
/// parse) is always present in the output, whatever the keep set.
#[test]
fn test_virtual_manifest_preserved() {
    let broken = manifest("tools/Cargo.toml", "not [ valid toml");
    let given = recipe(
        vec![
            manifest("Cargo.toml", ROOT_WORKSPACE),
            manifest("root/Cargo.toml", "[package]\nname = \"root\"\n"),
            broken.clone(),
            manifest("bar/Cargo.toml", "[package]\nname = \"bar\"\n"),
        ],
        None,
    );

    let reduced = reduce_workspace_recipe(&given).unwrap();

    assert!(reduced.skeleton.manifests.contains(&broken));
    assert_eq!(reduced.skeleton.manifests.len(), 3);
}

/// An external dependency's lock entry survives even when every workspace
/// member around it is pruned away.
#[test]
fn test_external_lock_entries_survive() {
    let given = recipe(
        vec![
            manifest("Cargo.toml", ROOT_WORKSPACE),
            manifest("root/Cargo.toml", "[package]\nname = \"root\"\n"),
            manifest("bar/Cargo.toml", "[package]\nname = \"bar\"\n"),
        ],
        Some(LOCK_BAR_GIVEN),
    );

    let reduced = reduce_workspace_recipe(&given).unwrap();

    let lock = reduced.skeleton.lock_file.unwrap();
    assert!(lock.contains("ext-crate"));
    assert!(!lock.contains("bar"));
}

/// A recipe without a lock file reduces with no lock file in the output.
#[test]
fn test_no_lock_file() {
    let given = recipe(
        vec![
            manifest("Cargo.toml", ROOT_WORKSPACE),
            manifest("root/Cargo.toml", "[package]\nname = \"root\"\n"),
            manifest("bar/Cargo.toml", "[package]\nname = \"bar\"\n"),
        ],
        None,
    );

    let reduced = reduce_workspace_recipe(&given).unwrap();

    assert_eq!(reduced.skeleton.lock_file, None);
    assert_eq!(reduced.skeleton.manifests.len(), 2);
}

/// A member listed in the workspace array without a manifest of its own
/// contributes no manifest to the output; a lock entry of that name counts
/// as external (no manifest declares it) and is kept.
#[test]
fn test_listed_member_without_manifest() {
    let lock = "[[package]]\nname = \"root\"\nversion = \"0.1.0\"\n\n[[package]]\nname = \"phantom\"\nversion = \"0.1.0\"\n";
    let given = recipe(
        vec![
            manifest("Cargo.toml", "[workspace]\nmembers = [\"root\", \"phantom\"]\n"),
            manifest("root/Cargo.toml", "[package]\nname = \"root\"\n"),
        ],
        Some(lock),
    );

    let reduced = reduce_workspace_recipe(&given).unwrap();

    assert_eq!(reduced.skeleton.manifests.len(), 2);
    assert_eq!(reduced.skeleton.lock_file.as_deref(), Some(lock));
}

/// A lock entry whose name field is absent is always kept.
#[test]
fn test_lock_entry_without_name_kept() {
    let lock = "[[package]]\nversion = \"0.1.0\"\n\n[[package]]\nname = \"bar\"\nversion = \"0.1.0\"\n";
    let given = recipe(
        vec![
            manifest("Cargo.toml", ROOT_WORKSPACE),
            manifest("root/Cargo.toml", "[package]\nname = \"root\"\n"),
            manifest("bar/Cargo.toml", "[package]\nname = \"bar\"\n"),
        ],
        Some(lock),
    );

    let reduced = reduce_workspace_recipe(&given).unwrap();

    let out = reduced.skeleton.lock_file.unwrap();
    assert!(out.contains("version = \"0.1.0\""));
    assert!(!out.contains("bar"));
}
