use allmux::model::{join_search_fields, DockerContainer, Entry, SshHost, TmuxSession};

fn host(alias: &str, hostname: &str, user: &str, description: Option<&str>) -> SshHost {
    SshHost {
        alias: alias.to_string(),
        hostname: hostname.to_string(),
        user: user.to_string(),
        description: description.map(|d| d.to_string()),
        is_active_tmux: false,
    }
}

fn container(name: &str, status: bool) -> DockerContainer {
    DockerContainer {
        id: "abc123".to_string(),
        name: name.to_string(),
        image: "nginx".to_string(),
        command: "\"nginx -g\"".to_string(),
        created_at: "2 days ago".to_string(),
        status_text: "Up 2 days".to_string(),
        ports: "80/tcp".to_string(),
        status,
        is_active_tmux: false,
    }
}

fn session(full_path: Option<&str>, name: &str, active: bool) -> TmuxSession {
    TmuxSession {
        full_path: full_path.map(|p| p.to_string()),
        session_name: name.to_string(),
        is_active: active,
        preview: None,
    }
}

#[test]
fn ssh_search_fields_list_alias_hostname_user_description() {
    let h = host("web", "10.0.0.1", "root", Some("prod box\n"));
    assert_eq!(h.search_fields(), vec!["web", "10.0.0.1", "root", "prod box\n"]);
    let h = host("db", "", "", None);
    assert_eq!(h.search_fields(), vec!["db", "", "", ""]);
}

#[test]
fn docker_search_fields_and_status_label() {
    let c = container("api", true);
    assert_eq!(c.status_label(), "running");
    assert_eq!(container("api", false).status_label(), "stopped");
    assert_eq!(
        c.search_fields(),
        vec!["api", "running", "Up 2 days", "abc123", "nginx", "\"nginx -g\"", "2 days ago", "80/tcp"]
    );
}

#[test]
fn tmux_display_text() {
    assert_eq!(session(Some("/home/u/proj"), "proj", true).display_text(), "proj");
    assert_eq!(session(Some("/home/u/proj"), "proj", false).display_text(), "/home/u/proj");
    assert_eq!(session(None, "scratch", false).display_text(), "scratch");
}

#[test]
fn tmux_search_fields() {
    // Inactive directory: the path already holds the name.
    assert_eq!(
        session(Some("/home/u/proj"), "proj", false).search_fields(),
        vec!["/home/u/proj"]
    );
    // Active: the name is shown, the path follows.
    assert_eq!(
        session(Some("/home/u/proj"), "proj", true).search_fields(),
        vec!["proj", "/home/u/proj"]
    );
    // The name is not part of the path.
    assert_eq!(
        session(Some("/srv/x"), "other", false).search_fields(),
        vec!["/srv/x", "other"]
    );
    assert_eq!(session(None, "solo", true).search_fields(), vec!["solo"]);
}

#[test]
fn entry_fields_texts_and_ranks() {
    let s = Entry::Ssh(host("web", "h", "u", None));
    assert_eq!(s.search_fields(), vec!["web", "h", "u", "", "ssh"]);
    assert_eq!(s.display_search_fields(), vec!["web", "h"]);
    assert_eq!(s.search_text(), "web h u  ssh");
    assert_eq!(s.display_search_text(), "web h");
    assert_eq!(s.type_rank(), 2);

    let d = Entry::Docker(container("api", false));
    assert_eq!(d.search_fields().len(), 10);
    assert_eq!(&d.search_fields()[8..], &["docker", "doc"]);
    assert_eq!(d.display_search_text(), "api stopped");
    assert_eq!(d.type_rank(), 1);

    let t = Entry::Tmux(session(None, "solo", true));
    assert_eq!(t.search_fields(), vec!["solo", "tmux", "mux"]);
    assert_eq!(t.display_search_fields(), vec!["solo"]);
    assert_eq!(t.type_rank(), 3);
    assert!(t.is_active_tmux());
    assert!(!s.is_active_tmux());
}

#[test]
fn history_keys() {
    assert_eq!(Entry::Ssh(host("web", "", "", None)).history_key(), "ssh:web");
    assert_eq!(Entry::Docker(container("api", true)).history_key(), "docker:api");
    assert_eq!(Entry::Tmux(session(Some("/p"), "p", false)).history_key(), "tmux:/p");
    assert_eq!(Entry::Tmux(session(None, "s", true)).history_key(), "tmux-session:s");
}

#[test]
fn history_keys_of_different_kinds_differ_even_for_equal_names() {
    let keys = [
        Entry::Ssh(host("x", "", "", None)).history_key(),
        Entry::Docker(container("x", true)).history_key(),
        Entry::Tmux(session(Some("x"), "x", false)).history_key(),
        Entry::Tmux(session(None, "x", true)).history_key(),
    ];
    for i in 0..keys.len() {
        for j in 0..keys.len() {
            if i != j {
                assert_ne!(keys[i], keys[j]);
            }
        }
    }
}

#[test]
fn joining_search_fields() {
    assert_eq!(join_search_fields(&vec!["a", "b"]), "a b");
    assert_eq!(join_search_fields(&vec![]), "");
}
