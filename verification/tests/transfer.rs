use setman::fileman::{App, Apps, FsEntry};
use setman::setman::{all_apps_action, app_action, sync_settings, SetManAction, SetManError};
use setman::transfer::{copy_files, remove_files, FsState, TransferError};

fn app(name: &str, config_path: &str, file_names: &[&str]) -> App {
    App {
        name: name.to_string(),
        config_path: config_path.to_string(),
        file_names: file_names.iter().map(|s| s.to_string()).collect(),
    }
}

fn bytes(s: &str) -> Vec<u8> {
    s.as_bytes().to_vec()
}

#[test]
fn copying_one_file_creates_the_destination() {
    let mut fs = FsState::empty();
    fs.add_dir("/src");
    fs.set_file("/src", "f", bytes("payload"));
    let r = copy_files(&mut fs, &vec!["f".to_string()], "/src", "/dst");
    assert!(matches!(r, Ok(())));
    assert!(fs.dir_exists("/dst"));
    assert_eq!(fs.get_file_data("/dst", "f").unwrap(), bytes("payload"));
    assert_eq!(fs.get_file_data("/src", "f").unwrap(), bytes("payload"));
}

#[test]
fn copying_a_missing_file_fails_and_creates_no_file() {
    let mut fs = FsState::empty();
    fs.add_dir("/src");
    let r = copy_files(&mut fs, &vec!["f".to_string()], "/src", "/dst");
    assert!(matches!(r, Err(TransferError::SourceFileMissing)));
    assert!(fs.get_file_data("/dst", "f").is_none());
}

#[test]
fn copying_from_a_missing_directory_is_fatal() {
    let mut fs = FsState::empty();
    let r = copy_files(&mut fs, &vec!["f".to_string()], "/src", "/dst");
    assert!(matches!(r, Err(TransferError::SourceDirMissing)));
    assert!(!fs.dir_exists("/dst"));
}

#[test]
fn a_failure_partway_keeps_the_files_already_copied() {
    let mut fs = FsState::empty();
    fs.add_dir("/src");
    fs.set_file("/src", "a", bytes("one"));
    let names = vec!["a".to_string(), "missing".to_string(), "z".to_string()];
    let r = copy_files(&mut fs, &names, "/src", "/dst");
    assert!(matches!(r, Err(TransferError::SourceFileMissing)));
    assert_eq!(fs.get_file_data("/dst", "a").unwrap(), bytes("one"));
    assert!(fs.get_file_data("/dst", "z").is_none());
}

#[test]
fn a_copy_replaces_the_destination_wholesale() {
    let mut fs = FsState::empty();
    fs.add_dir("/src");
    fs.add_dir("/dst");
    fs.set_file("/src", "f", bytes("new"));
    fs.set_file("/dst", "f", bytes("old content that was longer"));
    copy_files(&mut fs, &vec!["f".to_string()], "/src", "/dst").unwrap();
    assert_eq!(fs.get_file_data("/dst", "f").unwrap(), bytes("new"));
}

#[test]
fn remove_files_empties_one_directory_only() {
    let mut fs = FsState::empty();
    fs.add_dir("/a");
    fs.add_dir("/b");
    fs.set_file("/a", "x", bytes("1"));
    fs.set_file("/a", "y", bytes("2"));
    fs.set_file("/b", "x", bytes("3"));
    remove_files(&mut fs, "/a");
    assert!(fs.get_file_data("/a", "x").is_none());
    assert!(fs.get_file_data("/a", "y").is_none());
    assert_eq!(fs.get_file_data("/b", "x").unwrap(), bytes("3"));
    assert!(fs.dir_exists("/a"));
}

#[test]
fn dir_names_keep_only_directories() {
    let entries = vec![
        FsEntry { name: "vim".to_string(), is_dir: true },
        FsEntry { name: "README".to_string(), is_dir: false },
        FsEntry { name: "shell".to_string(), is_dir: true },
    ];
    let names = setman::fileman::get_dir_names_in_path(&entries);
    assert_eq!(names, vec!["vim".to_string(), "shell".to_string()]);
}

#[test]
fn save_uninstall_install_round_trip() {
    let home = "/home/u";
    let shell = App::with_home(
        "shell".to_string(),
        "~/.shellrc".to_string(),
        vec!["shellrc".to_string()],
        home,
    );
    let config_dir = shell.config_path.clone();
    let paths = setman::paths::Paths::from_home(home);
    let settings = paths.settings_path.clone();
    let staging_slot = paths.get_app_path("shell");

    let mut apps = Apps { items: Vec::new() };
    apps.save_new_app(shell).unwrap();

    let mut fs = FsState::empty();
    fs.add_dir(config_dir.as_str());
    fs.set_file(config_dir.as_str(), "shellrc", bytes("export PATH=$PATH"));

    // save: the real file lands in the staging slot
    let r = app_action(&mut apps, &mut fs, settings.as_str(), SetManAction::Save("shell"), false);
    assert!(matches!(r, Ok(())));
    assert_eq!(
        fs.get_file_data(staging_slot.as_str(), "shellrc").unwrap(),
        bytes("export PATH=$PATH")
    );

    // uninstall (confirmed): the real file is gone, the staging copy stays
    let r = app_action(&mut apps, &mut fs, settings.as_str(), SetManAction::Uninstall("shell"), true);
    assert!(matches!(r, Ok(())));
    assert!(fs.get_file_data(config_dir.as_str(), "shellrc").is_none());

    // install: the real file is back, byte-identical
    let r = app_action(&mut apps, &mut fs, settings.as_str(), SetManAction::Install("shell"), false);
    assert!(matches!(r, Ok(())));
    assert_eq!(
        fs.get_file_data(config_dir.as_str(), "shellrc").unwrap(),
        bytes("export PATH=$PATH")
    );
}

#[test]
fn uninstall_without_confirmation_does_nothing() {
    let mut apps = Apps { items: vec![app("vim", "/v", &["a"])] };
    let mut fs = FsState::empty();
    fs.add_dir("/v");
    fs.set_file("/v", "a", bytes("keep"));
    let r = app_action(&mut apps, &mut fs, "/settings", SetManAction::Uninstall("vim"), false);
    assert!(matches!(r, Ok(())));
    assert_eq!(fs.get_file_data("/v", "a").unwrap(), bytes("keep"));
}

#[test]
fn install_of_an_unknown_app_reports_not_found() {
    let mut apps = Apps { items: Vec::new() };
    let mut fs = FsState::empty();
    let r = app_action(&mut apps, &mut fs, "/settings", SetManAction::Install("vim"), false);
    assert!(matches!(r, Err(SetManError::NotFound)));
}

#[test]
fn install_with_missing_staging_is_a_transfer_failure() {
    let mut apps = Apps { items: vec![app("vim", "/v", &["a"])] };
    let mut fs = FsState::empty();
    let r = app_action(&mut apps, &mut fs, "/settings", SetManAction::Install("vim"), false);
    assert!(matches!(r, Err(SetManError::Transfer(TransferError::SourceDirMissing))));
}

#[test]
fn remove_takes_the_app_out_and_empties_its_slot() {
    let mut apps = Apps { items: vec![app("vim", "/v", &["a"])] };
    let mut fs = FsState::empty();
    fs.add_dir("/settings/vim");
    fs.set_file("/settings/vim", "a", bytes("x"));
    let r = app_action(&mut apps, &mut fs, "/settings", SetManAction::Remove("vim"), true);
    assert!(matches!(r, Ok(())));
    assert_eq!(apps.items.len(), 0);
    assert!(fs.get_file_data("/settings/vim", "a").is_none());
}

#[test]
fn new_registers_an_application_once() {
    let mut apps = Apps { items: Vec::new() };
    let mut fs = FsState::empty();
    let r = app_action(&mut apps, &mut fs, "/settings", SetManAction::New(app("vim", "/v", &[])), false);
    assert!(matches!(r, Ok(())));
    let r = app_action(&mut apps, &mut fs, "/settings", SetManAction::New(app("vim", "/w", &[])), false);
    assert!(matches!(r, Err(SetManError::Duplicate)));
    assert_eq!(apps.items.len(), 1);
}

#[test]
fn save_all_skips_the_named_apps() {
    let mut apps = Apps { items: Vec::new() };
    apps.save_new_app(app("vim", "/v", &["a"])).unwrap();
    apps.save_new_app(app("emacs", "/e", &["b"])).unwrap();
    let mut fs = FsState::empty();
    fs.add_dir("/v");
    fs.set_file("/v", "a", bytes("vim conf"));
    fs.add_dir("/e");
    fs.set_file("/e", "b", bytes("emacs conf"));
    let skip = vec!["emacs".to_string()];
    let r = all_apps_action(&apps, &mut fs, "/settings", SetManAction::SaveAll(&skip), false);
    assert!(matches!(r, Ok(())));
    assert_eq!(fs.get_file_data("/settings/vim", "a").unwrap(), bytes("vim conf"));
    assert!(fs.get_file_data("/settings/emacs", "b").is_none());
}

#[test]
fn a_batch_aborts_on_the_first_failure() {
    let mut apps = Apps { items: Vec::new() };
    apps.save_new_app(app("vim", "/v", &["a"])).unwrap();
    apps.save_new_app(app("emacs", "/e", &["b"])).unwrap();
    let mut fs = FsState::empty();
    fs.add_dir("/e");
    fs.set_file("/e", "b", bytes("emacs conf"));
    let skip: Vec<String> = Vec::new();
    let r = all_apps_action(&apps, &mut fs, "/settings", SetManAction::SaveAll(&skip), false);
    assert!(matches!(r, Err(SetManError::Transfer(TransferError::SourceDirMissing))));
    assert!(fs.get_file_data("/settings/emacs", "b").is_none());
}

#[test]
fn sync_up_then_down_keeps_tracked_files_byte_identical() {
    let settings = "/home/u/.config/setman/settings";
    let repo = "/tmp/setman-tmp-clone";
    let mut apps = Apps { items: Vec::new() };
    apps.save_new_app(app("shell", "/home/u/.shellrc", &["shellrc"])).unwrap();
    let mut fs = FsState::empty();
    fs.add_dir("/home/u/.config/setman/settings/shell");
    fs.set_file("/home/u/.config/setman/settings/shell", "shellrc", bytes("the content"));
    let dirs = vec!["shell".to_string()];
    let skip: Vec<String> = Vec::new();

    let r = sync_settings(SetManAction::SyncUp, &mut fs, &apps, settings, repo, &dirs, &skip);
    assert!(matches!(r, Ok(())));
    assert_eq!(
        fs.get_file_data("/tmp/setman-tmp-clone/shell", "shellrc").unwrap(),
        bytes("the content")
    );

    let r = sync_settings(SetManAction::SyncDown, &mut fs, &apps, settings, repo, &dirs, &skip);
    assert!(matches!(r, Ok(())));
    assert_eq!(
        fs.get_file_data("/home/u/.config/setman/settings/shell", "shellrc").unwrap(),
        bytes("the content")
    );
}

#[test]
fn sync_up_of_an_unregistered_directory_is_fatal() {
    let apps = Apps { items: Vec::new() };
    let mut fs = FsState::empty();
    fs.add_dir("/s/stray");
    let dirs = vec!["stray".to_string()];
    let skip: Vec<String> = Vec::new();
    let r = sync_settings(SetManAction::SyncUp, &mut fs, &apps, "/s", "/r", &dirs, &skip);
    assert!(matches!(r, Err(SetManError::NotFound)));
}

#[test]
fn sync_up_passes_over_skipped_directories() {
    let apps = Apps { items: Vec::new() };
    let mut fs = FsState::empty();
    fs.add_dir("/s/stray");
    let dirs = vec!["stray".to_string()];
    let skip = vec!["stray".to_string()];
    let r = sync_settings(SetManAction::SyncUp, &mut fs, &apps, "/s", "/r", &dirs, &skip);
    assert!(matches!(r, Ok(())));
    assert!(!fs.dir_exists("/r/stray"));
}

#[test]
fn sync_down_adopts_untracked_files_too() {
    let apps = Apps { items: Vec::new() };
    let mut fs = FsState::empty();
    fs.add_dir("/r/shell");
    fs.set_file("/r/shell", "shellrc", bytes("a"));
    fs.set_file("/r/shell", "extra", bytes("b"));
    let dirs = vec!["shell".to_string()];
    let skip: Vec<String> = Vec::new();
    let r = sync_settings(SetManAction::SyncDown, &mut fs, &apps, "/s", "/r", &dirs, &skip);
    assert!(matches!(r, Ok(())));
    assert_eq!(fs.get_file_data("/s/shell", "shellrc").unwrap(), bytes("a"));
    assert_eq!(fs.get_file_data("/s/shell", "extra").unwrap(), bytes("b"));
}

#[test]
fn sync_actions_are_refused_elsewhere() {
    let mut apps = Apps { items: Vec::new() };
    let mut fs = FsState::empty();
    let r = app_action(&mut apps, &mut fs, "/s", SetManAction::SyncUp, false);
    assert!(matches!(r, Err(SetManError::InvalidOption)));
    let r = all_apps_action(&apps, &mut fs, "/s", SetManAction::SyncDown, false);
    assert!(matches!(r, Err(SetManError::InvalidOption)));
    let dirs: Vec<String> = Vec::new();
    let skip: Vec<String> = Vec::new();
    let r = sync_settings(SetManAction::Install("x"), &mut fs, &apps, "/s", "/r", &dirs, &skip);
    assert!(matches!(r, Err(SetManError::InvalidOption)));
}
