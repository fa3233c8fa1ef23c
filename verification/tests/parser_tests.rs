use allmux::parser::{
    basename, format_permissions, is_hidden_name, ls_preview_text, parse_docker_containers,
    parse_ssh_config, push_tmux_dir, tmux_paths_and_sessions,
};

fn active(names: &[&str]) -> Vec<String> {
    names.iter().map(|s| s.to_string()).collect()
}

const SSH_CONFIG: &str = "\
# Production web server
#   behind the load balancer
Host web
    HostName 10.0.0.1
    User deploy

Host *
    User nobody

## database
HOST db db-alias
  hostname db.internal
  USER
Host
Host build
";

#[test]
fn ssh_config_hosts_fields_and_descriptions() {
    let hosts = parse_ssh_config(SSH_CONFIG, &active(&["db"]));
    assert_eq!(hosts.len(), 3);

    assert_eq!(hosts[0].alias, "web");
    assert_eq!(hosts[0].hostname, "10.0.0.1");
    // `Host *` makes no host, so its `User` line sets the user of `web`.
    assert_eq!(hosts[0].user, "nobody");
    assert_eq!(
        hosts[0].description.as_deref(),
        Some("Production web server\nbehind the load balancer\n")
    );
    assert!(!hosts[0].is_active_tmux);

    // The description gathered before `HOST db` goes to db.
    assert_eq!(hosts[1].alias, "db");
    assert_eq!(hosts[1].hostname, "db.internal");
    assert_eq!(hosts[1].user, "");
    assert_eq!(hosts[1].description.as_deref(), Some("database\n"));
    assert!(hosts[1].is_active_tmux);

    // A bare `Host` is skipped.
    assert_eq!(hosts[2].alias, "build");
    assert_eq!(hosts[2].description, None);
}

#[test]
fn ssh_config_star_host_line_sets_user_of_previous_host() {
    let hosts = parse_ssh_config("Host a\nHost *\nUser bob\n", &vec![]);
    assert_eq!(hosts.len(), 1);
    assert_eq!(hosts[0].user, "bob");
}

#[test]
fn ssh_config_fields_before_any_host_are_ignored() {
    let hosts = parse_ssh_config("User x\nHostName y\n", &vec![]);
    assert!(hosts.is_empty());
    assert!(parse_ssh_config("", &vec![]).is_empty());
}

#[test]
fn ssh_config_keyword_case_is_ignored() {
    let hosts = parse_ssh_config("hOsT a\r\nHOSTNAME h.example\r\n", &vec![]);
    assert_eq!(hosts.len(), 1);
    assert_eq!(hosts[0].alias, "a");
    assert_eq!(hosts[0].hostname, "h.example");
}

const DOCKER_PS: &str = "\
CONTAINER ID   IMAGE          COMMAND                  CREATED        STATUS                    PORTS     NAMES
3f2a1b9c8d7e   nginx:latest   \"/docker-entrypoint.…\"   2 days ago     Up 2 days                 80/tcp    web
9a8b7c6d5e4f   postgres:16    \"docker-entrypoint.s…\"   3 weeks ago    Exited (0) 2 weeks ago              db

";

#[test]
fn docker_containers_by_header_columns() {
    let cs = parse_docker_containers(DOCKER_PS, &active(&["db"]));
    assert_eq!(cs.len(), 2);
    assert_eq!(cs[0].id, "3f2a1b9c8d7e");
    assert_eq!(cs[0].image, "nginx:latest");
    assert_eq!(cs[0].command, "\"/docker-entrypoint.…\"");
    assert_eq!(cs[0].created_at, "2 days ago");
    assert_eq!(cs[0].status_text, "Up 2 days");
    assert_eq!(cs[0].ports, "80/tcp");
    assert_eq!(cs[0].name, "web");
    assert!(cs[0].status);
    assert!(!cs[0].is_active_tmux);

    assert_eq!(cs[1].name, "db");
    assert_eq!(cs[1].status_text, "Exited (0) 2 weeks ago");
    assert_eq!(cs[1].ports, "");
    assert!(!cs[1].status);
    assert!(cs[1].is_active_tmux);
}

#[test]
fn docker_empty_output_and_header_only() {
    assert!(parse_docker_containers("", &vec![]).is_empty());
    let header = DOCKER_PS.lines().next().unwrap();
    assert!(parse_docker_containers(header, &vec![]).is_empty());
}

#[test]
fn docker_missing_columns_shift_fields() {
    // Without a PORTS heading the starts shift: field 5 is then the names column and
    // field 6 is missing.
    let out = "CONTAINER ID  IMAGE  COMMAND  CREATED  STATUS  NAMES\n1             img    cmd      now      Up      box\n";
    let cs = parse_docker_containers(out, &vec![]);
    assert_eq!(cs.len(), 1);
    assert_eq!(cs[0].ports, "box");
    assert_eq!(cs[0].name, "");
    assert!(cs[0].status);
}

#[test]
fn docker_field_not_on_char_boundary_is_empty() {
    // The byte where IMAGE starts falls inside a two-byte character of the row.
    let out = "CONTAINER ID IMAGE\néééééééé x\n";
    let cs = parse_docker_containers(out, &vec![]);
    assert_eq!(cs.len(), 1);
    assert_eq!(cs[0].id, "");
    assert_eq!(cs[0].image, "");
}

#[test]
fn tmux_entries_from_dirs_and_sessions() {
    let dirs = vec![
        ("/home/u/a".to_string(), "a".to_string(), Some("listing".to_string())),
        ("/home/u/b".to_string(), "b".to_string(), None),
    ];
    let sessions = tmux_paths_and_sessions(&dirs, &active(&["b", "scratch", "a2"]));
    assert_eq!(sessions.len(), 4);
    assert_eq!(sessions[0].full_path.as_deref(), Some("/home/u/a"));
    assert_eq!(sessions[0].session_name, "a");
    assert!(!sessions[0].is_active);
    assert_eq!(sessions[0].preview.as_deref(), Some("listing"));
    assert!(sessions[1].is_active);
    assert_eq!(sessions[2].session_name, "scratch");
    assert_eq!(sessions[2].full_path, None);
    assert!(sessions[2].is_active);
    assert_eq!(sessions[3].session_name, "a2");
}

#[test]
fn basename_like_path_file_name() {
    for p in ["/home/u/proj", "/home/u/proj/", "a/./", "/", "", ".", "a/..", "proj", "./x", "/a//b"] {
        let expected = std::path::Path::new(p)
            .file_name()
            .and_then(|n| n.to_str())
            .unwrap_or("")
            .to_string();
        assert_eq!(basename(p), expected, "path {p:?}");
    }
}

#[test]
fn push_tmux_dir_skips_known_paths() {
    let mut dirs: Vec<(String, String)> = Vec::new();
    push_tmux_dir(&mut dirs, "/home/u/a");
    push_tmux_dir(&mut dirs, "/home/u/b");
    push_tmux_dir(&mut dirs, "/home/u/a");
    assert_eq!(
        dirs,
        vec![
            ("/home/u/a".to_string(), "a".to_string()),
            ("/home/u/b".to_string(), "b".to_string())
        ]
    );
}

#[test]
fn hidden_names() {
    assert!(is_hidden_name(".git"));
    assert!(!is_hidden_name("src"));
    assert!(!is_hidden_name(""));
}

#[test]
fn permissions_strings() {
    assert_eq!(format_permissions(0o040755), "drwxr-xr-x");
    assert_eq!(format_permissions(0o100644), "-rw-r--r--");
    assert_eq!(format_permissions(0o120777), "lrwxrwxrwx");
    assert_eq!(format_permissions(0o000000), "----------");
}

#[test]
fn listing_sorted_case_insensitively_and_stably() {
    let entries = vec![
        ("b.txt".to_string(), 0o100644, "1K".to_string()),
        ("Apple".to_string(), 0o040755, "4.0K".to_string()),
        ("apple".to_string(), 0o100600, "2B".to_string()),
        ("Cat".to_string(), 0o100644, "3M".to_string()),
    ];
    assert_eq!(
        ls_preview_text(&entries),
        "drwxr-xr-x Apple 4.0K\n-rw------- apple 2B\n-rw-r--r-- b.txt 1K\n-rw-r--r-- Cat 3M"
    );
    assert_eq!(ls_preview_text(&vec![]), "");
}
