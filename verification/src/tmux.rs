//! What to ask tmux for: the session names that `tmux list-sessions` prints, and the
//! steps that open an entry in a session.
use vstd::prelude::*;

use crate::text::{
    append_str, chars_of, contains_string, lines_of, split_lines, to_owned_string, trim,
    trim_str,
};

verus! {

/// The session names that `tmux list-sessions -F '#{session_name}'` prints: its
/// lines trimmed, blank ones left out.
pub open spec fn session_names_of(output: Seq<char>) -> Seq<Seq<char>> {
    lines_of(output).map_values(|l: Seq<char>| trim(l)).filter(|s: Seq<char>| s.len() > 0)
}

/// The session names listed in `output`.
pub fn parse_session_list(output: &str) -> (r: Vec<String>)
    ensures
        r.deep_view() == session_names_of(output@),
{
    let lines = split_lines(output);
    let ghost trimmed = lines.deep_view().map_values(|l: Seq<char>| trim(l));
    let ghost pred = |s: Seq<char>| s.len() > 0;
    let mut r: Vec<String> = Vec::new();
    let mut i: usize = 0;
    assert(trimmed.take(0).filter(pred) =~= Seq::<Seq<char>>::empty());
    while i < lines.len()
        invariant
            i <= lines.len(),
            trimmed == lines.deep_view().map_values(|l: Seq<char>| trim(l)),
            pred == (|s: Seq<char>| s.len() > 0),
            r.deep_view() == trimmed.take(i as int).filter(pred),
        decreases lines.len() - i,
    {
        let t = trim_str(lines[i].as_str());
        assert(trimmed.take(i + 1).drop_last() =~= trimmed.take(i as int));
        assert(trimmed.take(i + 1).last() == t@);
        reveal(Seq::filter);
        let ghost before = r.deep_view();
        if chars_of(t.as_str()).len() > 0 {
            r.push(t);
            assert(r.deep_view() =~= before.push(t@));
        }
        i = i + 1;
    }
    assert(trimmed.take(i as int) =~= trimmed);
    r
}

/// `"ssh "`
pub open spec fn ssh_prefix() -> Seq<char> {
    seq!['s', 's', 'h', ' ']
}

/// The command that connects to an SSH host: `ssh <alias>`.
pub fn build_ssh_command(alias: &str) -> (r: String)
    ensures
        r@ == ssh_prefix() + alias@,
{
    proof {
        reveal_strlit("ssh ");
        assert("ssh "@ =~= ssh_prefix());
    }
    let mut r = to_owned_string("ssh ");
    append_str(&mut r, alias);
    r
}

/// `"docker exec -it "`
pub open spec fn docker_exec_prefix() -> Seq<char> {
    seq!['d', 'o', 'c', 'k', 'e', 'r', ' ', 'e', 'x', 'e', 'c', ' ', '-', 'i', 't', ' ']
}

/// `" bash"`
pub open spec fn bash_suffix() -> Seq<char> {
    seq![' ', 'b', 'a', 's', 'h']
}

/// The command that opens a shell in a container: `docker exec -it <name> bash`.
pub fn build_docker_command(container_name: &str) -> (r: String)
    ensures
        r@ == docker_exec_prefix() + container_name@ + bash_suffix(),
{
    proof {
        reveal_strlit("docker exec -it ");
        reveal_strlit(" bash");
        assert("docker exec -it "@ =~= docker_exec_prefix());
        assert(" bash"@ =~= bash_suffix());
    }
    let mut r = to_owned_string("docker exec -it ");
    append_str(&mut r, container_name);
    append_str(&mut r, " bash");
    r
}

/// One thing to ask tmux for.
pub enum TmuxStep {
    /// Create a detached session of this name in the home directory.
    NewSession(String),
    /// Type this command, then Enter, into the pane that the preceding `NewSession`
    /// created.
    SendKeys(String),
    /// Switch the client to the session of this name.
    SwitchClient(String),
}

/// A step as plain text.
pub enum TmuxStepView {
    NewSession(Seq<char>),
    SendKeys(Seq<char>),
    SwitchClient(Seq<char>),
}

/// The view of a step.
pub open spec fn step_view(s: TmuxStep) -> TmuxStepView {
    match s {
        TmuxStep::NewSession(n) => TmuxStepView::NewSession(n@),
        TmuxStep::SendKeys(c) => TmuxStepView::SendKeys(c@),
        TmuxStep::SwitchClient(n) => TmuxStepView::SwitchClient(n@),
    }
}

/// The views of steps.
pub open spec fn steps_view(s: Seq<TmuxStep>) -> Seq<TmuxStepView> {
    s.map_values(|t: TmuxStep| step_view(t))
}

/// Opening `name`: where no session of that name runs, create it and, if there is a
/// command, type it there; then switch to the session.
pub open spec fn launch_steps(
    name: Seq<char>,
    active: Seq<Seq<char>>,
    command: Option<Seq<char>>,
) -> Seq<TmuxStepView> {
    let create = if active.contains(name) {
        Seq::<TmuxStepView>::empty()
    } else {
        match command {
            Some(c) => seq![TmuxStepView::NewSession(name), TmuxStepView::SendKeys(c)],
            None => seq![TmuxStepView::NewSession(name)],
        }
    };
    create.push(TmuxStepView::SwitchClient(name))
}

fn launch_with(name: &str, active_sessions: &Vec<String>, command: Option<String>) -> (r: Vec<
    TmuxStep,
>)
    ensures
        steps_view(r@) == launch_steps(
            name@,
            active_sessions.deep_view(),
            match command {
                Some(c) => Some(c@),
                None => None,
            },
        ),
{
    let mut steps: Vec<TmuxStep> = Vec::new();
    if !contains_string(active_sessions, name) {
        steps.push(TmuxStep::NewSession(to_owned_string(name)));
        match command {
            Some(c) => {
                steps.push(TmuxStep::SendKeys(c));
            },
            None => {},
        }
    }
    steps.push(TmuxStep::SwitchClient(to_owned_string(name)));
    assert(steps_view(steps@) =~= launch_steps(
        name@,
        active_sessions.deep_view(),
        match command {
            Some(c) => Some(c@),
            None => None,
        },
    ));
    steps
}

/// The steps that open an SSH host: a new session of the alias runs `ssh <alias>`.
pub fn launch_ssh_session(alias: &str, active_sessions: &Vec<String>) -> (r: Vec<TmuxStep>)
    ensures
        steps_view(r@) == launch_steps(alias@, active_sessions.deep_view(), Some(ssh_prefix() + alias@)),
{
    launch_with(alias, active_sessions, Some(build_ssh_command(alias)))
}

/// The steps that open a container: a new session of the container's name also runs
/// `ssh <name>` (the command that the SSH hosts use).
pub fn launch_docker_session(container_name: &str, active_sessions: &Vec<String>) -> (r: Vec<
    TmuxStep,
>)
    ensures
        steps_view(r@) == launch_steps(
            container_name@,
            active_sessions.deep_view(),
            Some(ssh_prefix() + container_name@),
        ),
{
    launch_with(container_name, active_sessions, Some(build_ssh_command(container_name)))
}

/// The steps that open a tmux entry: a new session runs nothing.
pub fn launch_tmux_session(session_name: &str, active_sessions: &Vec<String>) -> (r: Vec<
    TmuxStep,
>)
    ensures
        steps_view(r@) == launch_steps(session_name@, active_sessions.deep_view(), None),
{
    launch_with(session_name, active_sessions, None)
}

/// Law: opening an entry always ends by switching to its session, and creates the
/// session first exactly when no session of that name runs.
pub proof fn lemma_launch_switches_last(
    name: Seq<char>,
    active: Seq<Seq<char>>,
    command: Option<Seq<char>>,
)
    ensures
        launch_steps(name, active, command).last() == TmuxStepView::SwitchClient(name),
        active.contains(name) <==> launch_steps(name, active, command).len() == 1,
        !active.contains(name) ==> launch_steps(name, active, command)[0]
            == TmuxStepView::NewSession(name),
{
}

} // verus!
