use setman::codec::{decode_registry, encode_registry};
use setman::fileman::{App, AppError, Apps};
use setman::paths::{join_path, Paths};
use setman::setman::{modify_application, AppModification, SetManError};

fn app(name: &str, config_path: &str, file_names: &[&str]) -> App {
    App {
        name: name.to_string(),
        config_path: config_path.to_string(),
        file_names: file_names.iter().map(|s| s.to_string()).collect(),
    }
}

#[test]
fn insert_then_find_returns_the_inserted_app() {
    let mut apps = Apps { items: Vec::new() };
    apps.save_new_app(app("vim", "/home/u/.config/nvim", &["init.vim"])).unwrap();
    let found = apps.find_app_by_name("vim").unwrap();
    assert_eq!(found.name, "vim");
    assert_eq!(found.config_path, "/home/u/.config/nvim");
    assert_eq!(found.file_names, vec!["init.vim".to_string()]);
}

#[test]
fn find_unknown_name_reports_not_found() {
    let apps = Apps { items: vec![app("vim", "/v", &[])] };
    let r = apps.find_app_by_name("emacs");
    assert!(matches!(r, Err(AppError::NotFound("emacs"))));
}

#[test]
fn duplicate_insert_fails_and_keeps_the_registry() {
    let mut apps = Apps { items: Vec::new() };
    apps.save_new_app(app("vim", "/v", &["a"])).unwrap();
    let r = apps.save_new_app(app("vim", "/other", &["b"]));
    assert!(matches!(r, Err(AppError::Duplicate)));
    assert_eq!(apps.items.len(), 1);
    assert_eq!(apps.items[0].name, "vim");
    assert_eq!(apps.items[0].config_path, "/v");
    assert_eq!(apps.items[0].file_names, vec!["a".to_string()]);
}

#[test]
fn removing_an_absent_name_changes_nothing() {
    let mut apps = Apps { items: vec![app("vim", "/v", &["a"]), app("emacs", "/e", &[])] };
    apps.remove_app("nano");
    assert_eq!(apps.items.len(), 2);
    assert_eq!(apps.items[0].name, "vim");
    assert_eq!(apps.items[1].name, "emacs");
}

#[test]
fn removing_a_present_name_keeps_the_rest_in_order() {
    let mut apps = Apps { items: vec![app("vim", "/v", &[]), app("emacs", "/e", &[])] };
    apps.remove_app("vim");
    assert_eq!(apps.items.len(), 1);
    assert_eq!(apps.items[0].name, "emacs");
}

#[test]
fn missing_document_yields_an_empty_registry() {
    let apps = Apps::from_document(None);
    assert_eq!(apps.items.len(), 0);
}

#[test]
fn empty_document_yields_an_empty_registry() {
    let apps = Apps::from_document(Some(""));
    assert_eq!(apps.items.len(), 0);
}

#[test]
fn unparseable_document_yields_an_empty_registry() {
    let apps = Apps::from_document(Some("this is not a registry document"));
    assert_eq!(apps.items.len(), 0);
}

#[test]
fn empty_registry_encodes_as_the_empty_list() {
    let apps = Apps { items: Vec::new() };
    assert_eq!(encode_registry(&apps).unwrap(), "items = []\n");
    let back = decode_registry("items = []\n");
    assert_eq!(back.items.len(), 0);
}

#[test]
fn registry_document_has_its_canonical_form() {
    let apps = Apps {
        items: vec![app("vim", "/home/u/.config/nvim", &["init.vim", "coc.json"])],
    };
    let doc = encode_registry(&apps).unwrap();
    assert_eq!(
        doc,
        "[[items]]\nname = \"vim\"\nconfig_path = \"/home/u/.config/nvim\"\nfile_names = [\"init.vim\", \"coc.json\"]\n"
    );
}

#[test]
fn registry_document_round_trips() {
    let apps = Apps {
        items: vec![
            app("vim", "/home/u/.config/nvim", &["init.vim", "coc.json"]),
            app("shell", "/home/u/.shellrc", &["shellrc"]),
            app("bare", "/b", &[]),
        ],
    };
    let doc = encode_registry(&apps).unwrap();
    let back = decode_registry(doc.as_str());
    assert_eq!(back.items.len(), 3);
    for (a, b) in apps.items.iter().zip(back.items.iter()) {
        assert_eq!(a.name, b.name);
        assert_eq!(a.config_path, b.config_path);
        assert_eq!(a.file_names, b.file_names);
    }
}

#[test]
fn brackets_and_commas_inside_fields_round_trip() {
    let apps = Apps {
        items: vec![app("we]ird", "/with, comma/and [brackets]", &["a]b", "c, d"])],
    };
    let doc = encode_registry(&apps).unwrap();
    let back = decode_registry(doc.as_str());
    assert_eq!(back.items.len(), 1);
    assert_eq!(back.items[0].name, "we]ird");
    assert_eq!(back.items[0].config_path, "/with, comma/and [brackets]");
    assert_eq!(back.items[0].file_names, vec!["a]b".to_string(), "c, d".to_string()]);
}

#[test]
fn a_document_with_trailing_noise_is_not_canonical() {
    let apps = Apps { items: vec![app("vim", "/v", &["a"])] };
    let mut doc = encode_registry(&apps).unwrap();
    doc.push_str("stray");
    let back = decode_registry(doc.as_str());
    assert_eq!(back.items.len(), 0);
}

#[test]
fn a_control_character_or_empty_name_cannot_be_encoded() {
    let apps = Apps { items: vec![app("vi\nm", "/v", &[])] };
    assert!(encode_registry(&apps).is_none());
    let apps2 = Apps { items: vec![app("", "/v", &[])] };
    assert!(encode_registry(&apps2).is_none());
}

#[test]
fn quotes_backslashes_and_accents_round_trip() {
    let apps = Apps {
        items: vec![
            app("mü\"ll\\er", "/home/müller/.config/nvim", &["init \"quoted\".vim", "ба\\к"]),
        ],
    };
    let doc = encode_registry(&apps).unwrap();
    let back = decode_registry(doc.as_str());
    assert_eq!(back.items.len(), 1);
    assert_eq!(back.items[0].name, "mü\"ll\\er");
    assert_eq!(back.items[0].config_path, "/home/müller/.config/nvim");
    assert_eq!(
        back.items[0].file_names,
        vec!["init \"quoted\".vim".to_string(), "ба\\к".to_string()]
    );
}

#[test]
fn the_document_escapes_the_delimiters() {
    let apps = Apps { items: vec![app("a\"b", "/p\\q", &[])] };
    let doc = encode_registry(&apps).unwrap();
    assert_eq!(
        doc,
        "[[items]]\nname = \"a\\\"b\"\nconfig_path = \"/p\\\\q\"\nfile_names = []\n"
    );
}

#[test]
fn regex_search_keeps_matching_apps_in_order() {
    let apps = Apps {
        items: vec![app("vim", "/v", &[]), app("emacs", "/e", &[]), app("nvim", "/n", &[])],
    };
    let hits = apps.find_apps_from_regex("vim").unwrap();
    assert_eq!(hits.len(), 2);
    assert_eq!(hits[0].name, "vim");
    assert_eq!(hits[1].name, "nvim");
    assert!(apps.find_apps_from_regex("[").is_none());
}

#[test]
fn modify_without_confirmation_changes_nothing() {
    let mut apps = Apps { items: vec![app("vim", "/v", &["a"])] };
    let r = modify_application(&mut apps, "vim", AppModification::Name("neovim".to_string()), false);
    assert!(matches!(r, Ok(())));
    assert_eq!(apps.items[0].name, "vim");
}

#[test]
fn modify_renames_after_confirmation() {
    let mut apps = Apps { items: vec![app("vim", "/v", &["a"]), app("emacs", "/e", &[])] };
    let r = modify_application(&mut apps, "vim", AppModification::Name("neovim".to_string()), true);
    assert!(matches!(r, Ok(())));
    assert_eq!(apps.items.len(), 2);
    assert_eq!(apps.items[0].name, "emacs");
    assert_eq!(apps.items[1].name, "neovim");
    assert_eq!(apps.items[1].config_path, "/v");
}

#[test]
fn modify_to_a_taken_name_fails_and_keeps_the_registry() {
    let mut apps = Apps { items: vec![app("vim", "/v", &[]), app("emacs", "/e", &[])] };
    let r = modify_application(&mut apps, "vim", AppModification::Name("emacs".to_string()), true);
    assert!(matches!(r, Err(SetManError::Duplicate)));
    assert_eq!(apps.items[0].name, "vim");
    assert_eq!(apps.items[1].name, "emacs");
}

#[test]
fn modify_file_name_at_a_bad_position_fails() {
    let mut apps = Apps { items: vec![app("vim", "/v", &["a"])] };
    let r = modify_application(
        &mut apps,
        "vim",
        AppModification::FileName(3, "b".to_string()),
        true,
    );
    assert!(matches!(r, Err(SetManError::InvalidOption)));
    assert_eq!(apps.items[0].file_names, vec!["a".to_string()]);
}

#[test]
fn modify_replaces_one_file_name() {
    let mut apps = Apps { items: vec![app("vim", "/v", &["a", "b"])] };
    let r = modify_application(
        &mut apps,
        "vim",
        AppModification::FileName(1, "c".to_string()),
        true,
    );
    assert!(matches!(r, Ok(())));
    assert_eq!(apps.items[0].file_names, vec!["a".to_string(), "c".to_string()]);
}

#[test]
fn modify_of_an_unknown_app_reports_not_found() {
    let mut apps = Apps { items: Vec::new() };
    let r = modify_application(&mut apps, "vim", AppModification::ConfigPath("/x".to_string()), true);
    assert!(matches!(r, Err(SetManError::NotFound)));
}

#[test]
fn paths_derive_from_the_home_directory() {
    let p = Paths::from_home("/home/u");
    assert_eq!(p.setman_path, "/home/u/.config/setman");
    assert_eq!(p.settings_path, "/home/u/.config/setman/settings");
    assert_eq!(p.applist_path, "/home/u/.config/setman/apps.toml");
    assert_eq!(p.upstream_path, "/home/u/.config/setman/upstream_url");
    assert_eq!(p.commit_id_path, "/home/u/.config/setman/latest_commit");
    assert_eq!(p.get_app_path("vim"), "/home/u/.config/setman/settings/vim");
    assert_eq!(p.get_absolute_path(".vimrc"), "/home/u/.vimrc");
    assert_eq!(p.get_absolute_path("/etc/passwd"), "/etc/passwd");
}

#[test]
fn join_path_keeps_an_absolute_right_hand_side() {
    assert_eq!(join_path("/a/b", "c"), "/a/b/c");
    assert_eq!(join_path("/a/b", "/c"), "/c");
}

#[test]
fn with_home_resolves_the_config_path() {
    let a = App::with_home(
        "shell".to_string(),
        "~/.shellrc".to_string(),
        vec!["shellrc".to_string()],
        "/home/u",
    );
    assert_eq!(a.name, "shell");
    assert_eq!(a.config_path, "/home/u/~/.shellrc");
    if let Some(b) = App::new("shell".to_string(), "/abs".to_string(), vec![]) {
        assert_eq!(b.name, "shell");
        assert_eq!(b.config_path, "/abs");
    }
}

#[test]
fn file_name_input_splits_on_blanks() {
    let names = setman::fileman::split_file_names("  init.vim\tcoc.json \n plug.vim ");
    assert_eq!(
        names,
        vec!["init.vim".to_string(), "coc.json".to_string(), "plug.vim".to_string()]
    );
    assert_eq!(setman::fileman::split_file_names(""), Vec::<String>::new());
    assert_eq!(setman::fileman::split_file_names("   "), Vec::<String>::new());
    assert_eq!(setman::fileman::split_file_names("one"), vec!["one".to_string()]);
}

#[test]
fn error_messages_name_the_failure() {
    assert_eq!(
        AppError::NotFound("vim").message(),
        "An application with name 'vim' could not be found."
    );
    assert_eq!(AppError::Duplicate.message(), "An application with that name already exists");
}
