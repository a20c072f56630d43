use setman::fileman::FsEntry;
use setman::gitman::{
    compare_upstream, mirror_step, GitError, GitRepo, MirrorEvent, MirrorPhase, UpstreamStatus,
};

#[test]
fn equal_commit_ids_are_up_to_date() {
    let r = compare_upstream(Some("abc123"), "abc123");
    assert!(matches!(r, UpstreamStatus::UpToDate));
}

#[test]
fn different_commit_ids_are_behind() {
    let r = compare_upstream(Some("abc123"), "def456");
    assert!(matches!(r, UpstreamStatus::Behind));
}

#[test]
fn a_never_persisted_commit_id_is_behind() {
    let r = compare_upstream(None, "abc123");
    assert!(matches!(r, UpstreamStatus::Behind));
}

#[test]
fn the_clone_directory_is_fresh_and_well_formed() {
    let a = GitRepo::new("https://example.com/dots.git".to_string());
    let b = GitRepo::new("https://example.com/dots.git".to_string());
    assert_eq!(a.upstream_url, "https://example.com/dots.git");
    assert!(a.repo_path.starts_with("/tmp/setman-tmp-"));
    assert_eq!(a.repo_path.len(), "/tmp/setman-tmp-".len() + 36);
    for c in a.repo_path["/tmp/setman-tmp-".len()..].chars() {
        assert!(c == '-' || c.is_ascii_hexdigit());
    }
    assert_ne!(a.repo_path, b.repo_path);
}

#[test]
fn the_clone_scan_hides_the_metadata_directory() {
    let repo = GitRepo::new("url".to_string());
    let entries = vec![
        FsEntry { name: ".git".to_string(), is_dir: true },
        FsEntry { name: "shell".to_string(), is_dir: true },
        FsEntry { name: "README.md".to_string(), is_dir: false },
        FsEntry { name: "vim".to_string(), is_dir: true },
    ];
    let names = repo.get_dir_names(&entries);
    assert_eq!(names, vec!["shell".to_string(), "vim".to_string()]);
}

#[test]
fn commit_messages_are_normalized() {
    let repo = GitRepo::new("url".to_string());
    let m = repo.prepare_commit_message("sync settings").unwrap();
    assert_eq!(m, "sync settings\n");
    let m = repo.prepare_commit_message("sync settings   \n\n\n").unwrap();
    assert_eq!(m, "sync settings\n");
}

#[test]
fn a_message_git_cannot_carry_is_refused() {
    let repo = GitRepo::new("url".to_string());
    let r = repo.prepare_commit_message("broken\0message");
    assert!(matches!(r, Err(GitError::CreateCommit)));
}

#[test]
fn the_publish_path_walks_its_phases_in_order() {
    let p = MirrorPhase::Fresh;
    let p = mirror_step(p, MirrorEvent::CloneOk);
    assert!(matches!(p, MirrorPhase::Cloned));
    let p = mirror_step(p, MirrorEvent::StageOk);
    assert!(matches!(p, MirrorPhase::Staged));
    let p = mirror_step(p, MirrorEvent::CommitOk);
    assert!(matches!(p, MirrorPhase::Committed));
    let p = mirror_step(p, MirrorEvent::PushOk);
    assert!(matches!(p, MirrorPhase::Pushed));
    let p = mirror_step(p, MirrorEvent::Finish);
    assert!(matches!(p, MirrorPhase::Done));
}

#[test]
fn the_adopt_path_never_commits() {
    let p = mirror_step(MirrorPhase::Fresh, MirrorEvent::CloneOk);
    let p = mirror_step(p, MirrorEvent::ScanOk);
    assert!(matches!(p, MirrorPhase::Scanned));
    let p = mirror_step(p, MirrorEvent::Finish);
    assert!(matches!(p, MirrorPhase::Done));
}

#[test]
fn a_commit_without_staging_fails_the_invocation() {
    let p = mirror_step(MirrorPhase::Cloned, MirrorEvent::CommitOk);
    assert!(matches!(p, MirrorPhase::Failed));
    let p = mirror_step(MirrorPhase::Fresh, MirrorEvent::PushOk);
    assert!(matches!(p, MirrorPhase::Failed));
    let p = mirror_step(MirrorPhase::Staged, MirrorEvent::Fail);
    assert!(matches!(p, MirrorPhase::Failed));
}

#[test]
fn git_failures_carry_their_diagnostics() {
    assert_eq!(GitError::RepoOpen.message(), "Failed to open the repository");
    assert_eq!(GitError::CreateCommit.message(), "Failed to create commit");
    assert_eq!(GitError::RevParse.message(), "Failed to get parent commit");
    assert_eq!(GitError::GetIndex.message(), "Failed to get repo index");
}
