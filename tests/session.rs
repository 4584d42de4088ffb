use deemenu::session::{DeeMenu, Key, LaunchRequest, LaunchState, Outcome, MAX_CANDIDATES};

fn entries(names: &[&str]) -> Vec<(String, bool)> {
    names.iter().map(|n| (n.to_string(), false)).collect()
}

fn menu(names: &[&str]) -> DeeMenu {
    DeeMenu::new(entries(names))
}

#[test]
fn sudo_with_command_asks_for_password() {
    let mut m = menu(&["ls", "vim", "vimdiff"]);
    m.set_search_query("sudo vim".to_string());
    m.advance();
    assert_eq!(m.attempt_run(), None);
    assert_eq!(
        m.state,
        LaunchState::AwaitingCredential { target_command: "vim".to_string() }
    );
    assert_eq!(m.selected_index, 0);
}

#[test]
fn sudo_with_padded_command_keeps_command_trimmed() {
    let mut m = menu(&["vim"]);
    m.set_search_query("  sudo   vim -p a b  ".to_string());
    assert_eq!(m.attempt_run(), None);
    assert_eq!(
        m.state,
        LaunchState::AwaitingCredential { target_command: "vim -p a b".to_string() }
    );
}

#[test]
fn sudo_without_command_is_ignored() {
    let mut m = menu(&["sudo", "vim"]);
    m.set_search_query("sudo ".to_string());
    assert_eq!(m.attempt_run(), None);
    assert_eq!(m.state, LaunchState::Search);
    assert_eq!(m.search_query, "sudo ");
}

#[test]
fn arguments_run_raw_text_not_candidate() {
    let mut m = menu(&["ls", "lsblk"]);
    m.set_search_query("ls".to_string());
    assert!(m.filtered_executables.contains(&"ls".to_string()));
    m.search_query = "ls -la".to_string();
    assert_eq!(m.attempt_run(), Some(LaunchRequest::Plain("ls -la".to_string())));
}

#[test]
fn arguments_with_no_candidates_run_raw_text() {
    let mut m = menu(&["ls", "lsblk"]);
    m.set_search_query("ls -la".to_string());
    assert!(m.filtered_executables.is_empty());
    assert_eq!(m.attempt_run(), Some(LaunchRequest::Plain("ls -la".to_string())));
}

#[test]
fn no_match_runs_raw_text() {
    let mut m = menu(&["ls", "vim"]);
    m.set_search_query("fire".to_string());
    assert!(m.filtered_executables.is_empty());
    assert_eq!(m.attempt_run(), Some(LaunchRequest::Plain("fire".to_string())));
}

#[test]
fn bare_word_runs_selected_candidate() {
    let mut m = menu(&["firefox", "firejail", "ls"]);
    m.set_search_query(" fire ".to_string());
    assert_eq!(m.filtered_executables, vec!["firefox".to_string(), "firejail".to_string()]);
    m.advance();
    assert_eq!(m.attempt_run(), Some(LaunchRequest::Plain("firejail".to_string())));
}

#[test]
fn empty_query_with_empty_index_runs_nothing() {
    let mut m = menu(&[]);
    m.set_search_query("   ".to_string());
    assert_eq!(m.attempt_run(), None);
    assert_eq!(m.on_key(Key::Enter), Outcome::Continue);
}

#[test]
fn credential_commit_runs_privileged() {
    let mut m = menu(&["vim"]);
    m.set_search_query("sudo vim".to_string());
    assert_eq!(m.attempt_run(), None);
    m.set_credential("s3cret".to_string());
    assert_eq!(
        m.attempt_run(),
        Some(LaunchRequest::Privileged("vim".to_string(), "s3cret".to_string()))
    );
}

#[test]
fn empty_credential_is_rejected() {
    let mut m = menu(&["vim"]);
    m.set_search_query("sudo vim".to_string());
    assert_eq!(m.attempt_run(), None);
    assert_eq!(m.attempt_run(), None);
    assert_eq!(
        m.state,
        LaunchState::AwaitingCredential { target_command: "vim".to_string() }
    );
}

#[test]
fn cancel_from_password_keeps_search_query() {
    let mut m = menu(&["vim"]);
    m.set_search_query("sudo vim".to_string());
    assert_eq!(m.attempt_run(), None);
    m.set_credential("partial".to_string());
    assert_eq!(m.on_key(Key::Escape), Outcome::Continue);
    assert_eq!(m.state, LaunchState::Search);
    assert_eq!(m.password_query, "");
    assert_eq!(m.search_query, "sudo vim");
}

#[test]
fn cancel_while_searching_closes() {
    let mut m = menu(&["vim"]);
    m.set_search_query("vi".to_string());
    assert!(m.cancel());
    assert_eq!(m.on_key(Key::Escape), Outcome::Exit);
    assert_eq!(m.search_query, "vi");
}

#[test]
fn enter_key_launches_and_closes() {
    let mut m = menu(&["vim"]);
    m.set_search_query("vim".to_string());
    assert_eq!(
        m.on_key(Key::Enter),
        Outcome::Launch(LaunchRequest::Plain("vim".to_string()))
    );
}

#[test]
fn cursor_wraps_both_ways() {
    let mut m = menu(&["a1", "a2", "a3"]);
    assert_eq!(m.selected_index, 0);
    m.on_key(Key::ArrowLeft);
    assert_eq!(m.selected_index, 2);
    m.on_key(Key::ArrowRight);
    assert_eq!(m.selected_index, 0);
    m.on_key(Key::Tab);
    assert_eq!(m.selected_index, 1);
}

#[test]
fn advance_then_retreat_restores_cursor() {
    let mut m = menu(&["a1", "a2", "a3", "a4"]);
    for start in 0..4 {
        m.selected_index = start;
        m.advance();
        m.retreat();
        assert_eq!(m.selected_index, start);
        m.retreat();
        m.advance();
        assert_eq!(m.selected_index, start);
    }
}

#[test]
fn navigation_on_empty_list_is_noop() {
    let mut m = menu(&["vim"]);
    m.set_search_query("zzz".to_string());
    m.advance();
    m.retreat();
    assert_eq!(m.selected_index, 0);
}

#[test]
fn navigation_ignored_at_password_prompt() {
    let mut m = menu(&["vim", "vimdiff"]);
    m.set_search_query("sudo vim".to_string());
    assert_eq!(m.filtered_executables.len(), 2);
    m.attempt_run();
    m.on_key(Key::Tab);
    assert_eq!(m.selected_index, 0);
}

#[test]
fn candidates_are_bounded_and_match() {
    let names: Vec<String> = (0..120).map(|i| format!("tool{:03}", i)).collect();
    let refs: Vec<&str> = names.iter().map(|s| s.as_str()).collect();
    let mut m = menu(&refs);
    assert_eq!(m.filtered_executables.len(), MAX_CANDIDATES);
    assert_eq!(m.filtered_executables[..], names[..50]);
    m.set_search_query("TOOL1".to_string());
    assert_eq!(m.filtered_executables.len(), 20);
    for c in &m.filtered_executables {
        assert!(c.to_lowercase().contains("tool1"));
    }
    m.set_search_query("sudo 11".to_string());
    assert_eq!(m.filtered_executables.len(), 11);
    assert_eq!(m.filtered_executables[0], "tool011");
    assert_eq!(m.filtered_executables[1], "tool110");
}

#[test]
fn filter_is_case_insensitive() {
    let mut m = menu(&["Firefox", "ls"]);
    m.set_search_query("FIRE".to_string());
    assert_eq!(m.filtered_executables, vec!["Firefox".to_string()]);
}

#[test]
fn cursor_clamps_when_list_shrinks() {
    let mut m = menu(&["ab", "ac", "ad"]);
    m.selected_index = 2;
    m.search_query = "ab".to_string();
    m.update_filter();
    assert_eq!(m.filtered_executables, vec!["ab".to_string()]);
    assert_eq!(m.selected_index, 0);
    m.search_query = "a".to_string();
    m.selected_index = 0;
    m.update_filter();
    m.selected_index = 2;
    m.search_query = "zz".to_string();
    m.update_filter();
    assert_eq!(m.selected_index, 0);
}

#[test]
fn click_runs_clicked_candidate() {
    let mut m = menu(&["firefox", "firejail"]);
    m.set_search_query("fire".to_string());
    assert_eq!(
        m.on_click(1),
        Outcome::Launch(LaunchRequest::Plain("firejail".to_string()))
    );
    assert_eq!(m.search_query, "firejail");
    assert_eq!(m.selected_index, 1);
}

#[test]
fn click_ignored_at_password_prompt() {
    let mut m = menu(&["vim", "vimdiff"]);
    m.set_search_query("sudo vim".to_string());
    m.attempt_run();
    assert_eq!(m.on_click(1), Outcome::Continue);
    assert_eq!(m.search_query, "sudo vim");
}
