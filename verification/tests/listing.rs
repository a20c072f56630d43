use setman::fileman::{App, Apps};
use setman::setman::{print_app_list, ListOptions, SetManError};

fn app(name: &str, config_path: &str, file_names: &[&str]) -> App {
    App {
        name: name.to_string(),
        config_path: config_path.to_string(),
        file_names: file_names.iter().map(|s| s.to_string()).collect(),
    }
}

#[test]
fn listing_all_apps_shows_each_name() {
    let apps = Apps { items: vec![app("vim", "/v", &[]), app("emacs", "/e", &[])] };
    let none: Option<Vec<&str>> = None;
    let lines = print_app_list(&apps, ListOptions::Literal(&none), false).unwrap();
    assert_eq!(lines, vec!["vim".to_string(), "emacs".to_string()]);
}

#[test]
fn a_verbose_listing_adds_path_and_files() {
    let apps = Apps { items: vec![app("vim", "/home/u/.config/nvim", &["init.vim", "coc.json"])] };
    let none: Option<Vec<&str>> = None;
    let lines = print_app_list(&apps, ListOptions::Literal(&none), true).unwrap();
    assert_eq!(
        lines,
        vec![
            "vim".to_string(),
            "    Config path => /home/u/.config/nvim".to_string(),
            "    => init.vim".to_string(),
            "    => coc.json".to_string(),
        ]
    );
}

#[test]
fn listing_named_apps_keeps_the_asked_order() {
    let apps = Apps { items: vec![app("vim", "/v", &[]), app("emacs", "/e", &[])] };
    let names = Some(vec!["emacs", "vim"]);
    let lines = print_app_list(&apps, ListOptions::Literal(&names), false).unwrap();
    assert_eq!(lines, vec!["emacs".to_string(), "vim".to_string()]);
}

#[test]
fn listing_an_unknown_name_reports_not_found() {
    let apps = Apps { items: vec![app("vim", "/v", &[])] };
    let names = Some(vec!["vim", "nano"]);
    let r = print_app_list(&apps, ListOptions::Literal(&names), false);
    assert!(matches!(r, Err(SetManError::NotFound)));
}

#[test]
fn listing_by_pattern_keeps_matches_only() {
    let apps = Apps {
        items: vec![app("vim", "/v", &[]), app("emacs", "/e", &[]), app("nvim", "/n", &[])],
    };
    let lines = print_app_list(&apps, ListOptions::Regex("^vim$"), false).unwrap();
    assert_eq!(lines, vec!["vim".to_string()]);
    let r = print_app_list(&apps, ListOptions::Regex("["), false);
    assert!(matches!(r, Err(SetManError::InvalidOption)));
}
