use sit_core::repo::{is_item_name, permits, plan_upgrade, Config, UpgradeStep};
use sit_core::{RepositoryError, Upgrade};

#[test]
fn issues_to_items_upgrade() {
    // only issues/ exists
    assert!(matches!(
        plan_upgrade(true, false, &[]),
        Err(RepositoryError::UpgradeRequired(Upgrade::IssuesToItems))
    ));
    assert_eq!(plan_upgrade(true, false, &[Upgrade::IssuesToItems]).unwrap(), UpgradeStep::RenameIssues);
    // both exist
    assert!(matches!(
        plan_upgrade(true, true, &[]),
        Err(RepositoryError::UpgradeRequired(Upgrade::IssuesToItems))
    ));
    assert_eq!(plan_upgrade(true, true, &[Upgrade::IssuesToItems]).unwrap(), UpgradeStep::MergeIssues);
    // current layout
    assert_eq!(plan_upgrade(false, true, &[]).unwrap(), UpgradeStep::Nothing);
    assert_eq!(plan_upgrade(false, false, &[Upgrade::IssuesToItems]).unwrap(), UpgradeStep::Nothing);
}

#[test]
fn permitted_upgrades() {
    assert!(permits(&[Upgrade::IssuesToItems], Upgrade::IssuesToItems));
    assert!(!permits(&[], Upgrade::IssuesToItems));
}

#[test]
fn config_versions() {
    let mut c = Config::default();
    assert_eq!(c.version, "1");
    assert!(c.check_version().is_ok());
    c.version = "2".to_string();
    match c.check_version() {
        Err(RepositoryError::InvalidVersion { expected, got }) => {
            assert_eq!(expected, "1");
            assert_eq!(got, "2");
        }
        _ => panic!("version 2 accepted"),
    }
}

#[test]
fn upgrade_description() {
    assert_eq!(Upgrade::IssuesToItems.description(), "renaming issues/ to items/");
}

#[test]
fn item_names() {
    assert!(is_item_name("one"));
    assert!(is_item_name("two"));
    assert!(is_item_name("./one"));
    assert!(is_item_name("one/"));
    // point outside of items
    assert!(!is_item_name("/"));
    assert!(!is_item_name("/one"));
    // point anywhere not one level below items
    assert!(!is_item_name("one/.."));
    assert!(!is_item_name("one/it"));
    assert!(!is_item_name("test/it"));
    assert!(!is_item_name(".."));
    assert!(!is_item_name(""));
    assert!(!is_item_name("."));
}
