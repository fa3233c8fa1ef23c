use allmux::history::History;
use allmux::model::{DockerContainer, Entry, SshHost, TmuxSession};
use allmux::ui::{
    classify_key, delete_previous_word, description_lines, handle_key, highlight_mask,
    logical_to_visual_index, name_padding, preview_file_lines, search_field_offset,
    split_preview_line, switched_color_variant, value_or_dash, visible_list_height,
    visible_visual_window, visual_to_logical_index, App, KeyAction, KeyCode, KeyCommand,
    KeyInput, ListPiece, ListTint, PreviewLine, StatusKind, Tint, UiAction, list_pieces,
    preview_lines,
};

fn ssh(alias: &str, hostname: &str) -> Entry {
    Entry::Ssh(SshHost {
        alias: alias.to_string(),
        hostname: hostname.to_string(),
        user: String::new(),
        description: None,
        is_active_tmux: false,
    })
}

fn tmux(name: &str, path: Option<&str>) -> Entry {
    Entry::Tmux(TmuxSession {
        full_path: path.map(|p| p.to_string()),
        session_name: name.to_string(),
        is_active: false,
        preview: None,
    })
}

fn key(code: KeyCode, ctrl: bool) -> KeyInput {
    KeyInput { code, ctrl }
}

fn app3() -> App {
    App::new(vec![ssh("a", "host-a"), ssh("b", ""), tmux("c", Some("/p/c"))], History::new())
}

const ZERO: [i64; 3] = [0, 0, 0];

#[test]
fn new_app_state() {
    let app = app3();
    assert_eq!(app.query, "");
    assert_eq!(app.selected, 0);
    assert!(app.status_message.is_none());
    assert!(!app.preview_expanded);
    assert_eq!(app.color_variant, "dark");
}

#[test]
fn color_variant_is_light_or_dark() {
    assert_eq!(app3().color(" light\n").color_variant, "light");
    assert_eq!(app3().color("dark").color_variant, "dark");
    assert_eq!(app3().color("solarized").color_variant, "dark");
}

#[test]
fn moving_the_selection() {
    let scores = ZERO.to_vec();
    let mut app = app3();
    app.move_down(&scores);
    app.move_down(&scores);
    app.move_down(&scores);
    assert_eq!(app.selected, 2);
    app.move_up();
    assert_eq!(app.selected, 1);
    app.move_up_by(5);
    assert_eq!(app.selected, 0);
    app.move_up();
    assert_eq!(app.selected, 0);
    app.move_down_by(5, &scores);
    assert_eq!(app.selected, 2);
    app.selected = 7;
    app.clamp_selection(&scores);
    assert_eq!(app.selected, 2);
}

#[test]
fn clamping_with_no_matches_goes_to_zero() {
    let scores = ZERO.to_vec();
    let mut app = app3();
    app.query = "zzzz".to_string();
    app.selected = 2;
    app.clamp_selection(&scores);
    assert_eq!(app.selected, 0);
    app.move_down_by(5, &scores);
    assert_eq!(app.selected, 0);
}

#[test]
fn keymap() {
    assert!(matches!(classify_key(&key(KeyCode::Char('c'), true), false), KeyCommand::Quit));
    assert!(matches!(classify_key(&key(KeyCode::Char('q'), false), true), KeyCommand::Quit));
    assert!(matches!(classify_key(&key(KeyCode::Char('q'), false), false), KeyCommand::Insert('q')));
    assert!(matches!(classify_key(&key(KeyCode::Char('a'), true), false), KeyCommand::Insert('a')));
    assert!(matches!(classify_key(&key(KeyCode::Char('S'), true), false), KeyCommand::TogglePreview));
    assert!(matches!(classify_key(&key(KeyCode::Up, false), false), KeyCommand::MoveDown));
    assert!(matches!(classify_key(&key(KeyCode::PageDown, false), false), KeyCommand::MoveUpPage));
    assert!(matches!(classify_key(&key(KeyCode::Other, true), false), KeyCommand::Ignore));
}

#[test]
fn typing_and_deleting() {
    let scores = ZERO.to_vec();
    let mut app = app3();
    app.selected = 2;
    assert!(matches!(handle_key(&key(KeyCode::Char('x'), false), &mut app, &scores, 0), KeyAction::Continue));
    assert_eq!(app.query, "x");
    assert_eq!(app.selected, 0);
    handle_key(&key(KeyCode::Char('y'), false), &mut app, &scores, 0);
    handle_key(&key(KeyCode::Backspace, false), &mut app, &scores, 0);
    assert_eq!(app.query, "x");
    handle_key(&key(KeyCode::Char('u'), true), &mut app, &scores, 0);
    assert_eq!(app.query, "");
    assert!(matches!(handle_key(&key(KeyCode::Char('q'), false), &mut app, &scores, 0), KeyAction::Quit));
    assert!(matches!(handle_key(&key(KeyCode::Esc, false), &mut app, &scores, 0), KeyAction::Quit));
    assert!(matches!(handle_key(&key(KeyCode::Char('t'), true), &mut app, &scores, 0), KeyAction::SwitchTheme));
}

#[test]
fn up_moves_to_later_matches() {
    let scores = ZERO.to_vec();
    let mut app = app3();
    handle_key(&key(KeyCode::Up, false), &mut app, &scores, 0);
    assert_eq!(app.selected, 1);
    handle_key(&key(KeyCode::PageUp, false), &mut app, &scores, 0);
    assert_eq!(app.selected, 2);
    handle_key(&key(KeyCode::Down, false), &mut app, &scores, 0);
    assert_eq!(app.selected, 1);
    handle_key(&key(KeyCode::PageDown, false), &mut app, &scores, 0);
    assert_eq!(app.selected, 0);
}

#[test]
fn enter_chooses_and_records_history() {
    // Empty query, equal scores: tmux entry first (rank), then the hosts in order.
    let scores = ZERO.to_vec();
    let mut app = app3();
    match handle_key(&key(KeyCode::Enter, false), &mut app, &scores, 1000) {
        KeyAction::Select(UiAction::LaunchTmux(name, path)) => {
            assert_eq!(name, "c");
            assert_eq!(path.as_deref(), Some("/p/c"));
        }
        _ => panic!("expected the tmux entry"),
    }
    assert_eq!(app.history.to_text(), "tmux:/p/c\t1000");

    app.selected = 1;
    match handle_key(&key(KeyCode::Enter, false), &mut app, &scores, 1001) {
        KeyAction::Select(UiAction::LaunchSsh(alias)) => assert_eq!(alias, "a"),
        _ => panic!("expected host a"),
    }

    let mut empty = App::new(vec![], History::new());
    assert!(matches!(handle_key(&key(KeyCode::Enter, false), &mut empty, &vec![], 0), KeyAction::Continue));
    assert_eq!(empty.history.to_text(), "");
}

#[test]
fn copying() {
    let scores = ZERO.to_vec();
    let mut app = app3();
    // Selection 0 is the tmux entry with a path.
    match handle_key(&key(KeyCode::Char('y'), true), &mut app, &scores, 0) {
        KeyAction::Copy(text) => assert_eq!(text, "/p/c"),
        _ => panic!("expected a copy"),
    }
    app.copy_finished("/p/c", None);
    let message = app.status_message.as_ref().unwrap();
    assert_eq!(message.text, "Copied: /p/c");
    assert!(matches!(message.kind, StatusKind::Success));
    app.copy_finished("/p/c", Some("boom".to_string()));
    assert_eq!(app.status_message.as_ref().unwrap().text, "Failed to copy: boom");

    // Host b has no hostname: nothing to copy.
    app.selected = 2;
    assert!(matches!(handle_key(&key(KeyCode::Char('y'), true), &mut app, &scores, 0), KeyAction::Continue));
    let message = app.status_message.as_ref().unwrap();
    assert!(matches!(message.kind, StatusKind::Warning));
    assert_eq!(message.text, "Ctrl-Y only copies SSH entries with a hostname, and session full paths");

    app.selected = 1;
    assert_eq!(app.selected_entry(&scores).as_deref(), Some("host-a"));
}

#[test]
fn toggling_the_preview_clears_the_status() {
    let scores = ZERO.to_vec();
    let mut app = app3();
    app.copy_finished("x", None);
    handle_key(&key(KeyCode::Char('s'), true), &mut app, &scores, 0);
    assert!(app.preview_expanded);
    assert!(app.status_message.is_none());
}

#[test]
fn deleting_the_previous_word() {
    for (before, after) in [("foo bar  ", "foo "), ("foo", ""), ("", ""), ("a b c", "a b "), ("   ", "")] {
        let mut q = before.to_string();
        delete_previous_word(&mut q);
        assert_eq!(q, after, "query {before:?}");
    }
}

#[test]
fn switching_colors() {
    assert_eq!(switched_color_variant("dark").as_deref(), Some("light"));
    assert_eq!(switched_color_variant("light").as_deref(), Some("dark"));
    assert_eq!(switched_color_variant("other"), None);
}

#[test]
fn list_window() {
    assert_eq!(visible_list_height(10, 3), 3);
    assert_eq!(visible_list_height(10, 30), 8);
    assert_eq!(visible_list_height(1, 30), 0);
    assert_eq!(visible_list_height(100, 65536 + 4), 4);
    assert_eq!(logical_to_visual_index(5, 0), 4);
    assert_eq!(visual_to_logical_index(5, 4), 0);
    assert_eq!(logical_to_visual_index(0, 3), 0);
    assert_eq!(visible_visual_window(0, 0, 5), 0..0);
    assert_eq!(visible_visual_window(3, 1, 5), 0..3);
    assert_eq!(visible_visual_window(10, 8, 4), 6..10);
    assert_eq!(visible_visual_window(10, 2, 4), 2..6);
}

#[test]
fn text_helpers() {
    assert_eq!(value_or_dash(""), "-");
    assert_eq!(value_or_dash("x"), "x");
    assert_eq!(search_field_offset(&vec!["web", "héllo", "x"], 0), 0);
    assert_eq!(search_field_offset(&vec!["web", "héllo", "x"], 2), 10);
    assert_eq!(search_field_offset(&vec!["web"], 5), 4);
    assert_eq!(highlight_mask("abc", &vec![4, 6], 3), vec![false, true, false]);
    assert_eq!(name_padding("abc"), 21);
    assert_eq!(name_padding("a-very-long-file-name-here.txt"), 1);
    assert_eq!(name_padding("exactly-twenty-three-ch"), 1);
}

#[test]
fn preview_line_parts() {
    assert_eq!(
        split_preview_line("drwxr-xr-x my file.txt 4.0K"),
        Some(("drwxr-xr-x".to_string(), "my file.txt".to_string(), "4.0K".to_string()))
    );
    assert_eq!(split_preview_line("nospace"), None);
    assert_eq!(split_preview_line("one space"), None);
}

#[test]
fn description_and_listing_lines() {
    assert_eq!(description_lines(&None), vec!["-"]);
    assert_eq!(description_lines(&Some("a\nb\n\n".to_string())), vec!["a", "b"]);
    assert_eq!(preview_file_lines(&None), None);
    assert_eq!(preview_file_lines(&Some("  \n".to_string())), None);
    let long: String = (0..40).map(|i| format!("line{i}\n")).collect();
    let lines = preview_file_lines(&Some(long)).unwrap();
    assert_eq!(lines.len(), 30);
    assert_eq!(lines[29], "line29");
}

fn tint_name(t: &Tint) -> &'static str {
    match t {
        Tint::Plain => "plain",
        Tint::Cyan => "cyan",
        Tint::Green => "green",
        Tint::Magenta => "magenta",
        Tint::Yellow => "yellow",
        Tint::Blue => "blue",
    }
}

fn describe_preview(entry: &Entry) -> Vec<String> {
    preview_lines(entry)
        .iter()
        .map(|l| match l {
            PreviewLine::Heading(t, c) => format!("# {t} ({})", tint_name(c)),
            PreviewLine::Blank => String::new(),
            PreviewLine::Field(a, b, c) => format!("{a} {b} ({})", tint_name(c)),
            PreviewLine::Text(t, c) => format!("{t} ({})", tint_name(c)),
            PreviewLine::File(t) => format!("file {t}"),
            PreviewLine::Status(r) => format!("status {r}"),
        })
        .collect()
}

#[test]
fn preview_of_each_kind() {
    let mut session = TmuxSession {
        full_path: Some("/p/c".to_string()),
        session_name: "c".to_string(),
        is_active: false,
        preview: Some("drwxr-xr-x src 4.0K\n-rw-r--r-- a.txt 1B".to_string()),
    };
    assert_eq!(
        describe_preview(&Entry::Tmux(session.clone())),
        vec![
            "# Tmux Session (cyan)",
            "",
            "Name: c (green)",
            "Path: /p/c (plain)",
            "",
            "# Files (magenta)",
            "file drwxr-xr-x src 4.0K",
            "file -rw-r--r-- a.txt 1B",
        ]
    );
    session.full_path = None;
    session.preview = Some("   ".to_string());
    assert_eq!(
        describe_preview(&Entry::Tmux(session))[3..],
        ["Path: - (plain)", "", "# Files (magenta)", "No preview available. (plain)"]
    );

    let host = SshHost {
        alias: "web".to_string(),
        hostname: String::new(),
        user: "me".to_string(),
        description: Some("front end\nmain box\n".to_string()),
        is_active_tmux: false,
    };
    assert_eq!(
        describe_preview(&Entry::Ssh(host)),
        vec![
            "# SSH Host (cyan)",
            "",
            "Host: web (plain)",
            "User: me (plain)",
            "Hostname: - (plain)",
            "",
            "# Description: (magenta)",
            "front end (green)",
            "main box (green)",
        ]
    );

    let container = DockerContainer {
        id: "abc".to_string(),
        name: "db".to_string(),
        image: "postgres".to_string(),
        command: String::new(),
        created_at: "2 days ago".to_string(),
        status_text: "Up 2 days".to_string(),
        ports: String::new(),
        status: true,
        is_active_tmux: false,
    };
    assert_eq!(
        describe_preview(&Entry::Docker(container)),
        vec![
            "# Docker Container (magenta)",
            "",
            "Name db (yellow)",
            "ID abc (cyan)",
            "Image postgres (green)",
            "Command - (plain)",
            "",
            "Created 2 days ago (blue)",
            "Ports - (magenta)",
            "",
            "status true",
            "Details Up 2 days (plain)",
        ]
    );
}

fn describe_pieces(entry: &Entry, matched: &[usize]) -> Vec<String> {
    list_pieces(entry, &matched.to_vec())
        .iter()
        .map(|p| match p {
            ListPiece::Icon => "icon".to_string(),
            ListPiece::Gap(n) => format!("gap {n}"),
            ListPiece::Text(t, mask, tint) => {
                let marks: String = mask.iter().map(|&m| if m { '^' } else { '.' }).collect();
                let tint = match tint {
                    ListTint::Bright => "bright",
                    ListTint::Dim => "dim",
                    ListTint::Running => "running",
                    ListTint::Stopped => "stopped",
                };
                format!("{t} {marks} {tint}")
            }
            ListPiece::ActiveMark => "*".to_string(),
        })
        .collect()
}

#[test]
fn list_line_pieces() {
    let mut host = SshHost {
        alias: "web".to_string(),
        hostname: "h1".to_string(),
        user: String::new(),
        description: None,
        is_active_tmux: true,
    };
    assert_eq!(
        describe_pieces(&Entry::Ssh(host.clone()), &[0, 4]),
        vec!["icon", "gap 1", "web ^.. bright", "*", "gap 2", "h1 ^. dim"]
    );
    host.is_active_tmux = false;
    assert_eq!(
        describe_pieces(&Entry::Ssh(host), &[]),
        vec!["icon", "gap 1", "web ... bright", "gap 2", "h1 .. dim"]
    );
    let container = DockerContainer {
        id: "abc".to_string(),
        name: "db".to_string(),
        image: String::new(),
        command: String::new(),
        created_at: String::new(),
        status_text: String::new(),
        ports: String::new(),
        status: false,
        is_active_tmux: false,
    };
    assert_eq!(
        describe_pieces(&Entry::Docker(container), &[3, 9]),
        vec!["icon", "gap 1", "db .. bright", "gap 2", "stopped ^.....^ stopped"]
    );
    let session = TmuxSession {
        full_path: Some("/p/c".to_string()),
        session_name: "c".to_string(),
        is_active: true,
        preview: None,
    };
    assert_eq!(
        describe_pieces(&Entry::Tmux(session), &[0]),
        vec!["icon", "gap 1", "c ^ bright", "*", "gap 2"]
    );
}
