use dimport::backup::{backup, restore};
use dimport::fs::{Fs, FsEntry, Node};
use dimport::handlers::{add, ignore_regex, select_differences, AddError};
use dimport::link::{link, link_all, Action, FsError, Settings};
use dimport::pattern::CompiledPattern;
use dimport::setup::{setup, SetupError};
use dimport::state::{Difference, State, StatusDelta};
use dimport::sync::{sync_finish, sync_prepare, update_suggested};
use dimport::walker::walk_equal;

fn file(path: &str, content: &[u8]) -> FsEntry {
    FsEntry { path: path.to_string(), node: Node::File(content.to_vec()) }
}

fn symlink(path: &str, target: &str) -> FsEntry {
    FsEntry { path: path.to_string(), node: Node::Link(target.to_string()) }
}

fn settings() -> Settings {
    Settings {
        repo_dir: "/repo".to_string(),
        home_dir: "/h".to_string(),
        backup_dir: "/backup".to_string(),
        ignore_files: Vec::new(),
    }
}

fn settings_ignoring(paths: &[&str]) -> Settings {
    let mut cfg = settings();
    cfg.ignore_files = paths.iter().map(|p| p.to_string()).collect();
    cfg
}

fn fresh_state() -> State {
    State::new()
}

fn state_disjoint(st: &State) {
    for m in &st.mapped_files {
        assert!(
            !st.suggested_files.contains(m),
            "path {} is both mapped and suggested",
            m
        );
    }
}

#[test]
fn walker_visits_files_with_mirrors() {
    let fs = Fs {
        entries: vec![
            file("/repo/.bashrc", b"a"),
            file("/repo/conf/nested", b"b"),
            file("/h/.profile", b"c"),
        ],
    };
    let cfg = settings();
    let visits = walk_equal(&fs, &cfg.repo_dir, &cfg.home_dir, &cfg.ignore_files);
    assert_eq!(visits.len(), 2);
    assert_eq!(visits[0].src, "/repo/.bashrc");
    assert_eq!(visits[0].dest, "/h/.bashrc");
    assert_eq!(visits[0].rel, ".bashrc");
    assert_eq!(visits[1].src, "/repo/conf/nested");
    assert_eq!(visits[1].dest, "/h/conf/nested");
    assert_eq!(visits[1].rel, "conf/nested");
}

#[test]
fn walker_skips_ignored_paths_and_their_descendants() {
    let fs = Fs {
        entries: vec![
            file("/repo/.bashrc", b"a"),
            file("/repo/.git/config", b"g"),
            file("/repo/.git/objects/pack", b"p"),
            file("/repo/README.md", b"r"),
        ],
    };
    let cfg = settings_ignoring(&["/repo/.git", "/repo/README.md"]);
    let visits = walk_equal(&fs, &cfg.repo_dir, &cfg.home_dir, &cfg.ignore_files);
    assert_eq!(visits.len(), 1);
    assert_eq!(visits[0].src, "/repo/.bashrc");
}

#[test]
fn link_replaces_file_with_symlink() {
    let mut fs = Fs {
        entries: vec![file("/repo/.bashrc", b"new"), file("/h/.bashrc", b"old")],
    };
    let cfg = settings();
    let mut acts: Vec<Action> = Vec::new();
    link(&mut fs, &cfg, &".bashrc".to_string(), &mut acts).unwrap();
    assert!(fs.is_link(&"/h/.bashrc".to_string()));
    assert_eq!(
        fs.link_target(&"/h/.bashrc".to_string()).unwrap(),
        "/repo/.bashrc"
    );
    // reading through the new link gives the repository bytes
    assert_eq!(fs.read(&"/h/.bashrc".to_string()).unwrap(), b"new".to_vec());
}

#[test]
fn link_twice_gives_same_result_as_once() {
    let mut fs = Fs {
        entries: vec![file("/repo/.bashrc", b"x"), file("/h/.bashrc", b"y")],
    };
    let cfg = settings();
    let mut acts: Vec<Action> = Vec::new();
    link(&mut fs, &cfg, &".bashrc".to_string(), &mut acts).unwrap();
    let after_once = fs.link_target(&"/h/.bashrc".to_string()).unwrap();
    let count_once = fs.entries.len();
    link(&mut fs, &cfg, &".bashrc".to_string(), &mut acts).unwrap();
    assert_eq!(fs.link_target(&"/h/.bashrc".to_string()).unwrap(), after_once);
    assert_eq!(fs.entries.len(), count_once);
}

#[test]
fn link_fails_when_a_file_blocks_an_ancestor() {
    let mut fs = Fs {
        entries: vec![file("/repo/conf/a", b"x"), file("/h/conf", b"plain file")],
    };
    let cfg = settings();
    let mut acts: Vec<Action> = Vec::new();
    match link(&mut fs, &cfg, &"conf/a".to_string(), &mut acts) {
        Err(FsError::NotADirectory { path }) => assert_eq!(path, "/h/conf/a"),
        other => panic!("expected NotADirectory, got {:?}", discriminant_name(&other)),
    }
}

fn discriminant_name(r: &Result<(), FsError>) -> &'static str {
    match r {
        Ok(()) => "Ok",
        Err(FsError::NotADirectory { .. }) => "NotADirectory",
        Err(FsError::IsADirectory { .. }) => "IsADirectory",
        Err(FsError::NotAFile { .. }) => "NotAFile",
    }
}

#[test]
fn link_all_mirrors_every_unignored_file() {
    let mut fs = Fs {
        entries: vec![
            file("/repo/.bashrc", b"a"),
            file("/repo/conf/nested", b"b"),
            file("/repo/.git/config", b"g"),
        ],
    };
    let cfg = settings_ignoring(&["/repo/.git"]);
    let mut acts: Vec<Action> = Vec::new();
    link_all(&mut fs, &cfg, &mut acts).unwrap();
    assert_eq!(
        fs.link_target(&"/h/.bashrc".to_string()).unwrap(),
        "/repo/.bashrc"
    );
    assert_eq!(
        fs.link_target(&"/h/conf/nested".to_string()).unwrap(),
        "/repo/conf/nested"
    );
    assert!(!fs.exists_entry(&"/h/.git/config".to_string()));
}

#[test]
fn backup_copies_conflicting_files_and_counts_them() {
    let mut fs = Fs {
        entries: vec![
            file("/repo/.bashrc", b"repo"),
            file("/repo/.vimrc", b"repo"),
            file("/h/.bashrc", b"mine"),
        ],
    };
    let cfg = settings();
    let mut acts: Vec<Action> = Vec::new();
    let count = backup(&mut fs, &cfg, &mut acts).unwrap();
    assert_eq!(count, 1);
    assert_eq!(
        fs.read(&"/backup/.bashrc".to_string()).unwrap(),
        b"mine".to_vec()
    );
    assert!(!fs.exists_entry(&"/backup/.vimrc".to_string()));
}

#[test]
fn backup_fails_on_a_directory_in_the_way() {
    let mut fs = Fs {
        entries: vec![
            file("/repo/.bashrc", b"repo"),
            file("/h/.bashrc/oops", b"nested"),
        ],
    };
    let cfg = settings();
    let mut acts: Vec<Action> = Vec::new();
    match backup(&mut fs, &cfg, &mut acts) {
        Err(FsError::IsADirectory { path }) => assert_eq!(path, "/h/.bashrc"),
        _ => panic!("expected IsADirectory"),
    }
}

#[test]
fn backup_then_restore_leaves_files_byte_identical() {
    let mut fs = Fs {
        entries: vec![
            file("/repo/.bashrc", b"repo"),
            file("/h/.bashrc", b"precious"),
        ],
    };
    let cfg = settings();
    let mut acts: Vec<Action> = Vec::new();
    backup(&mut fs, &cfg, &mut acts).unwrap();
    restore(&mut fs, &cfg, &mut acts).unwrap();
    assert_eq!(
        fs.read(&"/h/.bashrc".to_string()).unwrap(),
        b"precious".to_vec()
    );
}

#[test]
fn setup_backs_up_links_and_classifies() {
    // home has a conflicting .bashrc with content X; the repository
    // brings its own
    let mut fs = Fs {
        entries: vec![file("/repo/.bashrc", b"Y"), file("/h/.bashrc", b"X")],
    };
    let cfg = settings();
    let mut st = fresh_state();
    let mut acts: Vec<Action> = Vec::new();
    setup(&mut fs, &cfg, &mut st, &mut acts).unwrap();
    assert_eq!(
        fs.read(&"/backup/.bashrc".to_string()).unwrap(),
        b"X".to_vec()
    );
    assert_eq!(
        fs.link_target(&"/h/.bashrc".to_string()).unwrap(),
        "/repo/.bashrc"
    );
    assert!(st.initialized);
    assert_eq!(st.mapped_files, vec!["/h/.bashrc".to_string()]);
    assert!(st.suggested_files.is_empty());
    assert!(st.differences.is_empty());
    state_disjoint(&st);
}

#[test]
fn setup_is_a_no_op_when_already_initialized() {
    let mut fs = Fs {
        entries: vec![file("/repo/.bashrc", b"Y"), file("/h/.bashrc", b"X")],
    };
    let cfg = settings();
    let mut st = fresh_state();
    st.initialized = true;
    let mut acts: Vec<Action> = Vec::new();
    setup(&mut fs, &cfg, &mut st, &mut acts).unwrap();
    // nothing linked, nothing backed up
    assert!(fs.is_file(&"/h/.bashrc".to_string()));
    assert!(!fs.exists_entry(&"/backup/.bashrc".to_string()));
}

#[test]
fn setup_rolls_back_when_linking_fails() {
    // /h/conf is a plain file, so the mirror of conf/a cannot be made
    let mut fs = Fs {
        entries: vec![
            file("/repo/conf/a", b"x"),
            file("/h/conf", b"blocks the link"),
        ],
    };
    let cfg = settings();
    let mut st = fresh_state();
    let mut acts: Vec<Action> = Vec::new();
    match setup(&mut fs, &cfg, &mut st, &mut acts) {
        Err(SetupError::Linking(FsError::NotADirectory { .. })) => {}
        Err(_) => panic!("wrong setup error"),
        Ok(()) => panic!("setup should fail"),
    }
    assert!(!st.initialized);
    assert!(st.mapped_files.is_empty());
}

#[test]
fn sync_prepare_untracks_removed_links() {
    // .bashrc's home mirror is a real file again: the user deleted the
    // link; .vimrc's link is intact
    let mut fs = Fs {
        entries: vec![
            file("/repo/.bashrc", b"a"),
            file("/repo/.vimrc", b"b"),
            file("/h/.bashrc", b"user file"),
            symlink("/h/.vimrc", "/repo/.vimrc"),
        ],
    };
    let cfg = settings();
    let mut acts: Vec<Action> = Vec::new();
    sync_prepare(&mut fs, &cfg, &mut acts);
    assert!(!fs.exists_entry(&"/repo/.bashrc".to_string()));
    assert!(fs.exists_entry(&"/repo/.vimrc".to_string()));
    assert!(fs.is_file(&"/h/.bashrc".to_string()));
}

#[test]
fn update_suggested_discovers_destination_only_files() {
    let fs = Fs {
        entries: vec![
            file("/repo/.bashrc", b"a"),
            file("/repo/conf/x", b"b"),
            file("/h/.vimrc", b"destination only"),
            file("/h/conf/y", b"in a shared directory"),
            file("/h/other/z", b"no matching repo directory"),
        ],
    };
    let cfg = settings();
    let mut st = fresh_state();
    st.mapped_files.push("/h/.vimrc".to_string());
    update_suggested(&fs, &cfg, &mut st);
    // .vimrc is already mapped; conf/y is in a shared directory;
    // other/z is not, because /repo/other does not exist
    assert_eq!(st.suggested_files, vec!["/h/conf/y".to_string()]);
    state_disjoint(&st);
}

#[test]
fn sync_finish_replaces_differences_wholesale() {
    let mut fs = Fs {
        entries: vec![file("/repo/.bashrc", b"a"), symlink("/h/.bashrc", "/repo/.bashrc")],
    };
    let cfg = settings();
    let mut st = fresh_state();
    st.differences.push(Difference {
        kind: "Deleted".to_string(),
        path: "stale".to_string(),
    });
    let statuses = vec![
        (".bashrc".to_string(), Some(StatusDelta::Modified)),
        ("new".to_string(), Some(StatusDelta::Untracked)),
    ];
    let mut acts: Vec<Action> = Vec::new();
    let changed = sync_finish(&mut fs, &cfg, &mut st, &statuses, &mut acts).unwrap();
    assert!(changed);
    assert_eq!(st.differences.len(), 2);
    assert_eq!(st.differences[0].kind, "Modified");
    assert_eq!(st.differences[0].path, ".bashrc");
    assert_eq!(st.differences[1].kind, "Added");
    assert_eq!(st.differences[1].path, "new");
}

#[test]
fn sync_finish_links_newly_added_files() {
    let mut fs = Fs {
        entries: vec![file("/repo/.newrc", b"fresh")],
    };
    let cfg = settings();
    let mut st = fresh_state();
    let mut acts: Vec<Action> = Vec::new();
    let changed = sync_finish(&mut fs, &cfg, &mut st, &Vec::new(), &mut acts).unwrap();
    assert!(!changed);
    assert_eq!(
        fs.link_target(&"/h/.newrc".to_string()).unwrap(),
        "/repo/.newrc"
    );
}

#[test]
fn ignore_all_moves_every_suggestion() {
    let mut st = fresh_state();
    st.suggested_files.push("/h/.vimrc".to_string());
    st.ignore_all();
    assert!(st.suggested_files.is_empty());
    assert_eq!(st.mapped_files, vec!["/h/.vimrc".to_string()]);
    state_disjoint(&st);
}

#[test]
fn ignore_regex_moves_only_matches() {
    let mut st = fresh_state();
    st.suggested_files.push("/h/.vimrc".to_string());
    st.suggested_files.push("/h/.bashrc".to_string());
    let moved = ignore_regex(&mut st, "vim").unwrap();
    assert_eq!(moved, 1);
    assert_eq!(st.suggested_files, vec!["/h/.bashrc".to_string()]);
    assert_eq!(st.mapped_files, vec!["/h/.vimrc".to_string()]);
    state_disjoint(&st);
}

#[test]
fn ignore_regex_rejects_a_bad_pattern() {
    let mut st = fresh_state();
    st.suggested_files.push("/h/.vimrc".to_string());
    assert!(ignore_regex(&mut st, "(").is_err());
    assert_eq!(st.suggested_files.len(), 1);
}

#[test]
fn select_differences_picks_matching_paths() {
    let diffs = vec![
        Difference { kind: "Modified".to_string(), path: ".bashrc".to_string() },
        Difference { kind: "Deleted".to_string(), path: "conf/x".to_string() },
        Difference { kind: "Added".to_string(), path: ".vimrc".to_string() },
    ];
    let pat = CompiledPattern::compile("rc$").unwrap();
    let picked = select_differences(&diffs, &pat);
    assert_eq!(picked, vec![".bashrc".to_string(), ".vimrc".to_string()]);
}

#[test]
fn add_takes_a_home_file_into_the_repository() {
    let mut fs = Fs {
        entries: vec![file("/h/newfile", b"payload")],
    };
    let cfg = settings();
    let mut st = fresh_state();
    st.suggested_files.push("/h/newfile".to_string());
    let mut acts: Vec<Action> = Vec::new();
    add(&mut fs, &cfg, &mut st, &"/h/newfile".to_string(), &mut acts).unwrap();
    assert_eq!(
        fs.read(&"/repo/newfile".to_string()).unwrap(),
        b"payload".to_vec()
    );
    assert_eq!(
        fs.link_target(&"/h/newfile".to_string()).unwrap(),
        "/repo/newfile"
    );
    assert!(st.suggested_files.is_empty());
    assert_eq!(st.mapped_files, vec!["/h/newfile".to_string()]);
    state_disjoint(&st);
}

#[test]
fn add_rejects_paths_outside_home() {
    let mut fs = Fs { entries: vec![file("/tmp/x", b"a")] };
    let cfg = settings();
    let mut st = fresh_state();
    let mut acts: Vec<Action> = Vec::new();
    match add(&mut fs, &cfg, &mut st, &"/tmp/x".to_string(), &mut acts) {
        Err(AddError::OutsideHome) => {}
        _ => panic!("expected OutsideHome"),
    }
}

#[test]
fn add_reports_a_missing_file() {
    let mut fs = Fs { entries: vec![] };
    let cfg = settings();
    let mut st = fresh_state();
    let mut acts: Vec<Action> = Vec::new();
    match add(&mut fs, &cfg, &mut st, &"/h/ghost".to_string(), &mut acts) {
        Err(AddError::NotFound) => {}
        _ => panic!("expected NotFound"),
    }
}

#[test]
fn actions_record_what_the_daemon_must_replay() {
    let mut fs = Fs {
        entries: vec![file("/repo/.bashrc", b"a"), file("/h/.bashrc", b"b")],
    };
    let cfg = settings();
    let mut acts: Vec<Action> = Vec::new();
    link(&mut fs, &cfg, &".bashrc".to_string(), &mut acts).unwrap();
    assert_eq!(acts.len(), 2);
    match &acts[0] {
        Action::RemoveFile { path } => assert_eq!(path, "/h/.bashrc"),
        _ => panic!("expected RemoveFile first"),
    }
    match &acts[1] {
        Action::Symlink { target, link } => {
            assert_eq!(target, "/repo/.bashrc");
            assert_eq!(link, "/h/.bashrc");
        }
        _ => panic!("expected Symlink second"),
    }
}

#[test]
fn link_paths_relinks_every_restored_file() {
    let mut fs = Fs {
        entries: vec![
            file("/repo/.bashrc", b"a"),
            file("/repo/conf/x", b"b"),
            file("/h/.bashrc", b"stale"),
        ],
    };
    let cfg = settings();
    let mut acts: Vec<Action> = Vec::new();
    let picked = vec![".bashrc".to_string(), "conf/x".to_string()];
    dimport::handlers::link_paths(&mut fs, &cfg, &picked, &mut acts).unwrap();
    assert_eq!(
        fs.link_target(&"/h/.bashrc".to_string()).unwrap(),
        "/repo/.bashrc"
    );
    assert_eq!(
        fs.link_target(&"/h/conf/x".to_string()).unwrap(),
        "/repo/conf/x"
    );
}

#[test]
fn restore_falls_back_to_the_whole_backup_tree() {
    // one mirror is a symlink: the fallback copies every backup file
    // back, even one whose repository counterpart is gone
    let mut fs = Fs {
        entries: vec![
            file("/repo/.bashrc", b"repo"),
            symlink("/h/.bashrc", "/repo/.bashrc"),
            file("/backup/.bashrc", b"old bashrc"),
            file("/backup/stale", b"old stale"),
        ],
    };
    let cfg = settings();
    let mut acts: Vec<Action> = Vec::new();
    restore(&mut fs, &cfg, &mut acts).unwrap();
    assert_eq!(
        fs.read(&"/h/.bashrc".to_string()).unwrap(),
        b"old bashrc".to_vec()
    );
    assert_eq!(
        fs.read(&"/h/stale".to_string()).unwrap(),
        b"old stale".to_vec()
    );
    assert!(!fs.is_link(&"/h/.bashrc".to_string()));
}

#[test]
fn failed_setup_restores_the_conflicting_files() {
    // conf/a's mirror is blocked, so linking fails after .bashrc was
    // already replaced; the rollback puts the old bytes back
    let mut fs = Fs {
        entries: vec![
            file("/repo/.bashrc", b"repo"),
            file("/repo/conf/a", b"x"),
            file("/h/.bashrc", b"precious"),
            file("/h/conf", b"a file where a directory is needed"),
        ],
    };
    let cfg = settings();
    let mut st = fresh_state();
    let mut acts: Vec<Action> = Vec::new();
    match setup(&mut fs, &cfg, &mut st, &mut acts) {
        Err(SetupError::Linking(_)) => {}
        _ => panic!("expected a linking failure"),
    }
    assert_eq!(
        fs.read(&"/h/.bashrc".to_string()).unwrap(),
        b"precious".to_vec()
    );
    assert!(!st.initialized);
}

#[test]
fn snapshots_are_checked_for_tree_shape() {
    let good = Fs {
        entries: vec![file("/repo/.bashrc", b"a"), file("/h/.bashrc", b"b")],
    };
    assert!(good.check_wf());
    let nested = Fs {
        entries: vec![file("/repo/conf", b"a"), file("/repo/conf/x", b"b")],
    };
    assert!(!nested.check_wf());
    let duplicated = Fs {
        entries: vec![file("/repo/a", b"a"), file("/repo/a", b"b")],
    };
    assert!(!duplicated.check_wf());
}

#[test]
fn backup_twice_leaves_the_backup_tree_identical() {
    let mut fs = Fs {
        entries: vec![
            file("/repo/.bashrc", b"repo"),
            file("/h/.bashrc", b"mine"),
        ],
    };
    let cfg = settings();
    let mut acts: Vec<Action> = Vec::new();
    backup(&mut fs, &cfg, &mut acts).unwrap();
    let after_once = fs.read(&"/backup/.bashrc".to_string()).unwrap();
    let entries_once = fs.entries.len();
    let count = backup(&mut fs, &cfg, &mut acts).unwrap();
    assert_eq!(count, 1);
    assert_eq!(fs.read(&"/backup/.bashrc".to_string()).unwrap(), after_once);
    assert_eq!(fs.entries.len(), entries_once);
}
