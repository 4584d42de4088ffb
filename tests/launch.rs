use deemenu::launch::{spawn_plan, split_words};
use deemenu::session::LaunchRequest;

#[test]
fn split_matches_std() {
    for t in ["", "  ", "ls", " ls  -la\t/tmp ", "a\u{3000}b", "x y z"] {
        let expected: Vec<String> = t.split_whitespace().map(|w| w.to_string()).collect();
        assert_eq!(split_words(t), expected);
    }
}

#[test]
fn plain_plan_runs_first_word() {
    let p = spawn_plan(LaunchRequest::Plain("ls -la /tmp".to_string())).unwrap();
    assert_eq!(p.program, "ls");
    assert_eq!(p.args, vec!["-la".to_string(), "/tmp".to_string()]);
    assert_eq!(p.stdin_secret, None);
}

#[test]
fn privileged_plan_uses_helper_and_stdin() {
    let p = spawn_plan(LaunchRequest::Privileged("vim /etc/hosts".to_string(), "s3cret".to_string()))
        .unwrap();
    assert_eq!(p.program, "sudo");
    assert_eq!(p.args, vec!["-S", "-k", "--", "vim", "/etc/hosts"]);
    assert_eq!(p.stdin_secret, Some("s3cret".to_string()));
    assert!(!p.args.iter().any(|a| a == "s3cret"));
}

#[test]
fn blank_lines_start_nothing() {
    assert!(spawn_plan(LaunchRequest::Plain("   ".to_string())).is_none());
    assert!(spawn_plan(LaunchRequest::Privileged(" ".to_string(), "pw".to_string())).is_none());
}
