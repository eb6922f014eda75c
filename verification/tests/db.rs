use smart_todo::db::{config_dir_from, db_path_in, legacy_pointer_path, should_bring_home, startup_plan, Startup};

#[test]
fn test_startup_is_local_only_when_nothing_was_configured() {
    let plan = startup_plan("/tmp/cfg", None, false);
    assert_eq!(plan.db_path, "/tmp/cfg/data.db");
    assert_eq!(plan.adopt_sync_dir, None);
}

#[test]
fn test_a_database_left_in_a_cloud_folder_is_brought_home() {
    let config = "/tmp/t/config";
    let cloud = "/tmp/t/OneDrive/smart-todo".to_string();
    assert!(should_bring_home(false, true));
    let plan = startup_plan(config, Some(cloud.clone()), false);
    assert_eq!(plan, Startup { db_path: "/tmp/t/config/data.db".to_string(), adopt_sync_dir: Some(cloud) });
}

#[test]
fn test_an_existing_local_database_is_never_overwritten_by_the_cloud_copy() {
    assert!(!should_bring_home(true, true));
    assert!(!should_bring_home(true, false));
    assert!(!should_bring_home(false, false));
}

#[test]
fn a_folder_already_in_use_for_sync_is_not_adopted_again() {
    let plan = startup_plan("/tmp/cfg", Some("/tmp/cloud".to_string()), true);
    assert_eq!(plan.adopt_sync_dir, None);
    assert_eq!(plan.db_path, "/tmp/cfg/data.db");
}

#[test]
fn paths_are_joined_under_the_config_folder() {
    assert_eq!(db_path_in("/c/"), "/c/data.db");
    assert_eq!(legacy_pointer_path("/c"), "/c/data-dir.txt");
    assert_eq!(config_dir_from(Some("/home/me/.local/share".to_string())), "/home/me/.local/share/smart-todo");
    assert_eq!(config_dir_from(None), "./smart-todo");
}
