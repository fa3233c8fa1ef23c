use allmux::tmux::{
    build_docker_command, build_ssh_command, launch_docker_session, launch_ssh_session,
    launch_tmux_session, parse_session_list, TmuxStep,
};

fn describe(steps: &[TmuxStep]) -> Vec<String> {
    steps
        .iter()
        .map(|s| match s {
            TmuxStep::NewSession(n) => format!("new {n}"),
            TmuxStep::SendKeys(c) => format!("keys {c}"),
            TmuxStep::SwitchClient(n) => format!("switch {n}"),
        })
        .collect()
}

#[test]
fn session_list_is_trimmed_without_blank_lines() {
    assert_eq!(
        parse_session_list("main\n  work \n\n\r\nother\r\n"),
        vec!["main", "work", "other"]
    );
    assert!(parse_session_list("").is_empty());
}

#[test]
fn commands() {
    assert_eq!(build_ssh_command("web"), "ssh web");
    assert_eq!(build_docker_command("api"), "docker exec -it api bash");
}

#[test]
fn ssh_launch_creates_session_only_when_missing() {
    let active = vec!["main".to_string()];
    assert_eq!(
        describe(&launch_ssh_session("web", &active)),
        vec!["new web", "keys ssh web", "switch web"]
    );
    assert_eq!(describe(&launch_ssh_session("main", &active)), vec!["switch main"]);
}

#[test]
fn docker_launch_sends_the_ssh_command() {
    assert_eq!(
        describe(&launch_docker_session("api", &vec![])),
        vec!["new api", "keys ssh api", "switch api"]
    );
}

#[test]
fn tmux_launch_runs_nothing_in_the_new_session() {
    assert_eq!(describe(&launch_tmux_session("proj", &vec![])), vec!["new proj", "switch proj"]);
    assert_eq!(
        describe(&launch_tmux_session("proj", &vec!["proj".to_string()])),
        vec!["switch proj"]
    );
}
