use remote_store::config::parse;
use remote_store::registry::default_config_path;
use remote_store::registry::expand_tilde;
use remote_store::registry::merge_remote_views;
use remote_store::registry::mount_dir;
use remote_store::registry::needs_obscure;
use remote_store::registry::remote_name_of;
use remote_store::schedule::is_scheduled;
use remote_store::schedule::mount_command;
use remote_store::schedule::remove_schedule_entries;
use remote_store::schedule::schedule_mount;

#[test]
fn mount_dir_joins_home_and_name() {
    assert_eq!(mount_dir("/home/kim", "gdrive"), "/home/kim/mnt/gdrive");
}

#[test]
fn default_config_path_sits_under_home() {
    assert_eq!(
        default_config_path("/home/kim"),
        "/home/kim/.config/rclone/rclone.conf"
    );
}

#[test]
fn expand_tilde_replaces_leading_component() {
    assert_eq!(expand_tilde("~/conf/r.conf", "/home/kim"), "/home/kim/conf/r.conf");
    assert_eq!(expand_tilde("~", "/home/kim"), "/home/kim");
    assert_eq!(expand_tilde("/etc/r.conf", "/home/kim"), "/etc/r.conf");
    assert_eq!(expand_tilde("~backup/r.conf", "/home/kim"), "~backup/r.conf");
}

#[test]
fn merge_pairs_entries_with_observed_flags() {
    let entries = parse("[a]\ntype = drive\n[b]\ntype = s3\n");
    let statuses = vec![(true, false), (false, true)];
    let rows = merge_remote_views(&entries, &statuses, "/home/kim");
    assert_eq!(rows.len(), 2);
    assert_eq!(rows[0].name, "a");
    assert_eq!(rows[0].kind, "drive");
    assert!(rows[0].mounted);
    assert!(!rows[0].scheduled);
    assert_eq!(rows[0].mount_point, "/home/kim/mnt/a");
    assert_eq!(rows[1].name, "b");
    assert!(!rows[1].mounted);
    assert!(rows[1].scheduled);
    assert_eq!(rows[1].mount_point, "/home/kim/mnt/b");
}

#[test]
fn remote_name_comes_from_the_synthetic_field() {
    let fields = vec![
        ("token".to_string(), "t".to_string()),
        ("remote_name".to_string(), "mybox".to_string()),
    ];
    assert_eq!(remote_name_of(&fields), Some("mybox".to_string()));
    let none: Vec<(String, String)> = vec![("token".to_string(), "t".to_string())];
    assert_eq!(remote_name_of(&none), None);
}

#[test]
fn only_nonempty_pass_values_are_obscured() {
    assert!(needs_obscure("pass", "secret"));
    assert!(!needs_obscure("pass", ""));
    assert!(!needs_obscure("token", "secret"));
}

#[test]
fn mount_command_is_canonical() {
    assert_eq!(
        mount_command("gdrive"),
        "rclone mount --vfs-cache-mode writes gdrive:"
    );
}

#[test]
fn schedule_membership_is_a_containment_check() {
    let cron = "0 * * * * backup\n@reboot rclone mount --vfs-cache-mode writes gdrive: /home/kim/mnt/gdrive\n";
    assert!(is_scheduled(cron, "gdrive"));
    assert!(!is_scheduled(cron, "dropbox"));
}

#[test]
fn schedule_mount_appends_one_entry() {
    let cron = "0 * * * * backup\n";
    let got = schedule_mount(cron, "gdrive", "/home/kim/mnt/gdrive").unwrap();
    assert_eq!(
        got,
        "0 * * * * backup\n@reboot rclone mount --vfs-cache-mode writes gdrive: /home/kim/mnt/gdrive\n"
    );
    assert_eq!(schedule_mount(&got, "gdrive", "/home/kim/mnt/gdrive"), None);
}

#[test]
fn remove_schedule_drops_matching_lines_only() {
    let cron = "0 * * * * backup\n@reboot rclone mount --vfs-cache-mode writes gdrive: /home/kim/mnt/gdrive\n";
    assert_eq!(remove_schedule_entries(cron, "gdrive"), "0 * * * * backup\n");
    assert_eq!(remove_schedule_entries(cron, "dropbox"), cron);
}
