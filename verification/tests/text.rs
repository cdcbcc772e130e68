use dimport::cli::{Args, Ignore, SetTarget};
use dimport::protocol::{
    get_response_importless, make_error, make_response, parse_request, parse_response, raw,
    ImportlessAction, Request, Response,
};
use dimport::state::{Difference, StatusDelta};
use dimport::util::{
    differences_to_string, notification_body, should_notify, status_message, u64_to_string,
};
use dimport::BUFFER_SIZE;

#[test]
fn from_status_entry_labels_every_kind() {
    let cases = [
        (Some(StatusDelta::Modified), "Modified"),
        (Some(StatusDelta::Added), "Added"),
        (Some(StatusDelta::Untracked), "Added"),
        (Some(StatusDelta::Deleted), "Deleted"),
        (Some(StatusDelta::Renamed), "Undefined"),
        (Some(StatusDelta::Unreadable), "Undefined"),
        (None, "Undefined"),
    ];
    for (delta, expected) in cases {
        let d = Difference::from_status_entry("p".to_string(), delta);
        assert_eq!(d.kind, *expected);
        assert_eq!(d.path, "p");
    }
}

#[test]
fn differences_render_one_line_each() {
    let diffs = vec![
        Difference { kind: "Modified".to_string(), path: ".bashrc".to_string() },
        Difference { kind: "Added".to_string(), path: "conf/x".to_string() },
    ];
    assert_eq!(
        differences_to_string(&diffs),
        "[Modified] .bashrc\n[Added] conf/x"
    );
    assert_eq!(differences_to_string(&Vec::new()), "");
}

#[test]
fn numbers_render_in_decimal() {
    assert_eq!(u64_to_string(0), "0");
    assert_eq!(u64_to_string(7), "7");
    assert_eq!(u64_to_string(1234), "1234");
    assert_eq!(u64_to_string(1000), "1000");
}

#[test]
fn notification_mentions_suggestions_only_when_any() {
    assert_eq!(notification_body(3, 0), "You have 3 changed files.");
    assert_eq!(
        notification_body(3, 2),
        "You have 3 changed files.\nAnd 2 suggested files."
    );
}

#[test]
fn notify_when_differences_grow_or_suggestions_wait() {
    assert!(should_notify(1, 2, 0));
    assert!(should_notify(2, 2, 1));
    assert!(!should_notify(2, 2, 0));
    assert!(!should_notify(3, 2, 0));
}

#[test]
fn requests_parse_to_their_commands() {
    assert!(matches!(parse_request(&"status".to_string()), Request::Status));
    assert!(matches!(parse_request(&"config".to_string()), Request::Config));
    assert!(matches!(parse_request(&"sync".to_string()), Request::Sync));
    match parse_request(&"set repo git@example:dots.git".to_string()) {
        Request::SetRepo(u) => assert_eq!(u, "git@example:dots.git"),
        _ => panic!("expected SetRepo"),
    }
    match parse_request(&"set home /h".to_string()) {
        Request::SetHome(u) => assert_eq!(u, "/h"),
        _ => panic!("expected SetHome"),
    }
    match parse_request(&"set private_key /k".to_string()) {
        Request::SetPrivateKey(u) => assert_eq!(u, "/k"),
        _ => panic!("expected SetPrivateKey"),
    }
    assert!(matches!(
        parse_request(&"ignore all".to_string()),
        Request::IgnoreAll
    ));
    match parse_request(&"ignore vim".to_string()) {
        Request::IgnoreRegex(u) => assert_eq!(u, "vim"),
        _ => panic!("expected IgnoreRegex"),
    }
    match parse_request(&"restore rc$".to_string()) {
        Request::Restore(u) => assert_eq!(u, "rc$"),
        _ => panic!("expected Restore"),
    }
    match parse_request(&"add /h/x".to_string()) {
        Request::Add(u) => assert_eq!(u, "/h/x"),
        _ => panic!("expected Add"),
    }
    match parse_request(&"save fixed the prompt".to_string()) {
        Request::Save(Some(m)) => assert_eq!(m, "fixed the prompt"),
        _ => panic!("expected Save with message"),
    }
    assert!(matches!(
        parse_request(&"save".to_string()),
        Request::Save(None)
    ));
}

#[test]
fn bad_requests_parse_as_invalid() {
    assert!(matches!(parse_request(&"".to_string()), Request::Invalid));
    assert!(matches!(parse_request(&"frobnicate".to_string()), Request::Invalid));
    assert!(matches!(parse_request(&"set repo".to_string()), Request::Invalid));
    assert!(matches!(parse_request(&"ignore".to_string()), Request::Invalid));
    assert!(matches!(parse_request(&"restore".to_string()), Request::Invalid));
    assert!(matches!(parse_request(&"add".to_string()), Request::Invalid));
}

#[test]
fn importless_requests_decide_config_writes() {
    match get_response_importless(&"init /h git@example:d.git".to_string()) {
        ImportlessAction::WriteInit { home, repo } => {
            assert_eq!(home, "/h");
            assert_eq!(repo, Some("git@example:d.git".to_string()));
        }
        _ => panic!("expected WriteInit"),
    }
    match get_response_importless(&"init /h".to_string()) {
        ImportlessAction::WriteInit { home, repo } => {
            assert_eq!(home, "/h");
            assert!(repo.is_none());
        }
        _ => panic!("expected WriteInit"),
    }
    assert!(matches!(
        get_response_importless(&"init".to_string()),
        ImportlessAction::AcknowledgeOnly
    ));
    assert!(matches!(
        get_response_importless(&"config".to_string()),
        ImportlessAction::ShowConfig
    ));
    match get_response_importless(&"set home /h".to_string()) {
        ImportlessAction::WriteSet { property, value } => {
            assert_eq!(property, "home_path");
            assert_eq!(value, "/h");
        }
        _ => panic!("expected WriteSet"),
    }
    match get_response_importless(&"set repo u".to_string()) {
        ImportlessAction::WriteSet { property, value } => {
            assert_eq!(property, "repository");
            assert_eq!(value, "u");
        }
        _ => panic!("expected WriteSet"),
    }
    assert!(matches!(
        get_response_importless(&"set".to_string()),
        ImportlessAction::AcknowledgeOnly
    ));
    assert!(matches!(
        get_response_importless(&"status".to_string()),
        ImportlessAction::CheckConfig
    ));
}

#[test]
fn frames_are_zero_padded_to_the_buffer_size() {
    let framed = raw("O done");
    assert_eq!(framed.len(), BUFFER_SIZE);
    assert_eq!(&framed[..6], b"O done");
    assert!(framed[6..].iter().all(|b| *b == 0));
}

#[test]
fn oversized_frames_are_truncated() {
    let long = "x".repeat(BUFFER_SIZE + 5);
    let framed = raw(&long);
    assert_eq!(framed.len(), BUFFER_SIZE);
    assert!(framed.iter().all(|b| *b == b'x'));
}

#[test]
fn responses_carry_their_first_byte() {
    assert_eq!(make_response(true, &"done".to_string()), "O done");
    assert_eq!(make_response(false, &"broken".to_string()), "E broken");
    match parse_response(&"O all good".to_string()) {
        Response::Positive(m) => assert_eq!(m, "all good"),
        _ => panic!("expected Positive"),
    }
    match parse_response(&"E nope".to_string()) {
        Response::Negative(m) => assert_eq!(m, "nope"),
        _ => panic!("expected Negative"),
    }
    assert!(matches!(parse_response(&"X".to_string()), Response::Malformed));
}

#[test]
fn errors_carry_their_context() {
    assert_eq!(
        make_error(&"no such file".to_string(), "Could not backup files"),
        "Could not backup files: no such file"
    );
}

#[test]
fn client_arguments_parse_to_their_commands() {
    let argv = |words: &[&str]| -> Vec<String> {
        let mut v = vec!["dimport".to_string()];
        v.extend(words.iter().map(|w| w.to_string()));
        v
    };
    assert!(matches!(Args::from(argv(&["status"])), Ok(Args::Status)));
    assert!(matches!(Args::from(argv(&["backup"])), Ok(Args::Backup)));
    assert!(matches!(Args::from(argv(&["config"])), Ok(Args::Config)));
    assert!(matches!(Args::from(argv(&["sync"])), Ok(Args::Sync)));
    match Args::from(argv(&["init", "git@example:d.git"])) {
        Ok(Args::Init(Some(u))) => assert_eq!(u, "git@example:d.git"),
        _ => panic!("expected Init with url"),
    }
    assert!(matches!(Args::from(argv(&["init"])), Ok(Args::Init(None))));
    match Args::from(argv(&["set", "repo", "u"])) {
        Ok(Args::SetValue(SetTarget::Repository(u))) => assert_eq!(u, "u"),
        _ => panic!("expected repository"),
    }
    match Args::from(argv(&["set", "home", "/h"])) {
        Ok(Args::SetValue(SetTarget::Home(u))) => assert_eq!(u, "/h"),
        _ => panic!("expected home"),
    }
    assert!(Args::from(argv(&["set", "home", "relative"])).is_err());
    match Args::from(argv(&["set", "private_key", "/k"])) {
        Ok(Args::SetValue(SetTarget::PrivateKey(u))) => assert_eq!(u, "/k"),
        _ => panic!("expected private key"),
    }
    assert!(matches!(
        Args::from(argv(&["ignore", "all"])),
        Ok(Args::IgnoreFiles(Ignore::All))
    ));
    assert!(matches!(
        Args::from(argv(&["ignore", "vim"])),
        Ok(Args::IgnoreFiles(Ignore::Search(_)))
    ));
    assert!(Args::from(argv(&["ignore", "("])).is_err());
    assert!(matches!(Args::from(argv(&["restore", "rc$"])), Ok(Args::Restore(_))));
    match Args::from(argv(&["add", "/h/x"])) {
        Ok(Args::Add(p)) => assert_eq!(p, "/h/x"),
        _ => panic!("expected Add"),
    }
    match Args::from(argv(&["save", "two", "words"])) {
        Ok(Args::Save(Some(m))) => assert_eq!(m, "two words"),
        _ => panic!("expected Save with message"),
    }
    assert!(matches!(Args::from(argv(&["save"])), Ok(Args::Save(None))));
    assert!(Args::from(argv(&["bogus"])).is_err());
    assert!(Args::from(argv(&[])).is_err());
}

#[test]
fn unknown_arguments_fail_with_the_usage_text() {
    let bad = Args::from(vec!["dimport".to_string(), "frobnicate".to_string()]);
    match bad {
        Err(m) => assert!(m.starts_with("Dotfiles importer")),
        Ok(_) => panic!("expected the usage text"),
    }
    match Args::from(vec!["dimport".to_string()]) {
        Err(m) => assert!(m.contains("Usage:")),
        Ok(_) => panic!("expected the usage text"),
    }
}

#[test]
fn status_replies_cover_all_three_shapes() {
    let home = "/h".to_string();
    assert_eq!(
        status_message(&Vec::new(), &Vec::new(), &home),
        "Everything is up to date and no suggestions"
    );
    let diffs = vec![Difference { kind: "Modified".to_string(), path: ".bashrc".to_string() }];
    assert_eq!(
        status_message(&diffs, &Vec::new(), &home),
        "Changed Files\n[Modified] .bashrc"
    );
    let suggested = vec!["/h/.vimrc".to_string()];
    assert_eq!(
        status_message(&diffs, &suggested, &home),
        "Changed Files\n[Modified] .bashrc\n\nSuggested Files\n.vimrc"
    );
    assert_eq!(
        status_message(&Vec::new(), &suggested, &home),
        "Suggested Files\n.vimrc"
    );
}
