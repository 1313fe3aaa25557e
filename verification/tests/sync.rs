use cardigan::sync::{action_for, finish, silenced_directives, Action, Commands, CycleMode, CycleRequest, LoopState};

fn sync(reset: bool) -> CycleRequest {
    CycleRequest { mode: CycleMode::Sync, reset }
}

/// The requests a loop makes when its cycles end with `outcomes`.
fn requests(reset: bool, outcomes: &[bool]) -> Vec<CycleRequest> {
    let mut state = LoopState::new(reset);
    let mut made = Vec::new();
    for &ok in outcomes {
        made.push(state.next_request());
        state.cycle_finished(ok);
    }
    made
}

#[test]
fn reset_applies_to_first_successful_cycle_only() {
    assert_eq!(requests(true, &[true, true, true]), vec![sync(true), sync(false), sync(false)]);
}

#[test]
fn failed_cycle_keeps_loop_running_and_retains_reset() {
    assert_eq!(requests(true, &[false, true, true]), vec![sync(true), sync(true), sync(false)]);
}

#[test]
fn without_reset_no_cycle_resets() {
    assert_eq!(requests(false, &[false, true]), vec![sync(false), sync(false)]);
}

#[test]
fn commands_choose_the_action() {
    assert_eq!(action_for(Commands::Sync { once: true, reset: true }), Action::RunCycle(sync(true)));
    assert_eq!(action_for(Commands::Sync { once: false, reset: false }), Action::RunDaemon { reset: false });
    assert_eq!(
        action_for(Commands::DryRun { reset: true }),
        Action::RunCycle(CycleRequest { mode: CycleMode::DryRun, reset: true })
    );
}

#[test]
fn the_command_error_wins_over_a_close_error() {
    assert_eq!(finish::<&str>(Err("cycle"), Err("close")), Err("cycle"));
    assert_eq!(finish::<&str>(Ok(()), Err("close")), Err("close"));
    assert_eq!(finish::<&str>(Err("cycle"), Ok(())), Err("cycle"));
    assert_eq!(finish::<&str>(Ok(()), Ok(())), Ok(()));
}

#[test]
fn env_filter_silences_only_cardigan_dependencies() {
    let filter = silenced_directives().join(",");
    for target in ["hyper::proto", "hyper_util::client", "reqwest", "rustls", "h2", "tokio_util", "sea_orm", "sqlx::query"] {
        assert!(filter.contains(&format!("{target}=off")), "{target} should be silenced in {filter}");
    }
    for leftover in ["axum", "tower_http", "simple_crypt", "sqlx::postgres"] {
        assert!(!filter.contains(leftover), "{leftover} is a leftover in {filter}");
    }
}
