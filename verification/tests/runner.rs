use pixel_shell::runner::{
    matching_targets, mode_from_choice, mode_from_flags, resolve_target, RunArgs, RunPlan, RunnerMode, TargetError,
    RESTART_DELAY_SECS,
};

fn names(list: &[&str]) -> Vec<String> {
    list.iter().map(|n| n.to_string()).collect()
}

fn args(silent: bool, detach: bool) -> RunArgs {
    RunArgs { target: None, silent, detach }
}

#[test]
fn watchdog_waits_two_seconds() {
    assert_eq!(RESTART_DELAY_SECS, 2);
}

#[test]
fn detach_flag_comes_first() {
    let detached = Some(RunPlan { mode: RunnerMode::Detach, silent: false });
    assert_eq!(mode_from_flags(&args(false, true)), detached);
    assert_eq!(mode_from_flags(&args(true, true)), detached);
}

#[test]
fn silent_flag_means_hidden_watchdog() {
    assert_eq!(
        mode_from_flags(&args(true, false)),
        Some(RunPlan { mode: RunnerMode::Watchdog, silent: true })
    );
}

#[test]
fn without_flags_the_user_is_asked() {
    assert_eq!(mode_from_flags(&args(false, false)), None);
}

#[test]
fn menu_choices() {
    assert_eq!(mode_from_choice(0), RunPlan { mode: RunnerMode::Watchdog, silent: false });
    assert_eq!(mode_from_choice(1), RunPlan { mode: RunnerMode::Watchdog, silent: true });
    assert_eq!(mode_from_choice(2), RunPlan { mode: RunnerMode::Detach, silent: false });
    assert_eq!(mode_from_choice(3), RunPlan { mode: RunnerMode::Watchdog, silent: false });
    assert_eq!(mode_from_choice(usize::MAX), RunPlan { mode: RunnerMode::Watchdog, silent: false });
}

#[test]
fn nothing_to_run() {
    assert_eq!(resolve_target(&vec![], &None), Err(TargetError::NoExecutables));
    assert_eq!(resolve_target(&vec![], &Some("a".to_string())), Err(TargetError::NoExecutables));
}

#[test]
fn hint_picks_the_first_name_that_holds_it() {
    let list = names(&["apple_1080p.exe", "apple_720p.exe", "pear_720p.exe"]);
    assert_eq!(resolve_target(&list, &Some("pear".to_string())), Ok(Some(2)));
    assert_eq!(resolve_target(&list, &Some("720p".to_string())), Ok(Some(1)));
    assert_eq!(resolve_target(&list, &Some("apple".to_string())), Ok(Some(0)));
    assert_eq!(resolve_target(&list, &Some("".to_string())), Ok(Some(0)));
}

#[test]
fn hint_that_matches_nothing() {
    let list = names(&["apple_1080p.exe", "pear_720p.exe"]);
    assert_eq!(resolve_target(&list, &Some("plum".to_string())), Err(TargetError::NoMatch));
    assert_eq!(resolve_target(&list, &Some("APPLE".to_string())), Err(TargetError::NoMatch));
}

#[test]
fn without_a_hint_the_user_is_asked() {
    let list = names(&["a.exe"]);
    assert_eq!(resolve_target(&list, &None), Ok(None));
}

#[test]
fn all_names_that_hold_the_hint() {
    let list = names(&["apple_1080p.exe", "apple_720p.exe", "pear_720p.exe"]);
    assert_eq!(matching_targets(&list, "apple"), vec![0, 1]);
    assert_eq!(matching_targets(&list, "720p"), vec![1, 2]);
    assert_eq!(matching_targets(&list, "pear_720p.exe"), vec![2]);
    assert_eq!(matching_targets(&list, "plum"), vec![]);
    assert_eq!(matching_targets(&list, ""), vec![0, 1, 2]);
    assert_eq!(matching_targets(&vec![], "a"), vec![]);
}
