//! The entries the picker offers: SSH hosts, Docker containers and tmux sessions
//! or directories, with the texts that search matches against and the keys under
//! which access history is kept.
use vstd::prelude::*;

use crate::text::{append_str, contains_seq, join, join_strs, str_contains, str_eq, to_owned_string};

verus! {

/// A host of the SSH configuration.
#[derive(Debug, Clone)]
pub struct SshHost {
    pub alias: String,
    pub hostname: String,
    pub user: String,
    pub description: Option<String>,
    pub is_active_tmux: bool,
}

/// A Docker container as `docker ps -a` lists it.
#[derive(Debug, Clone)]
pub struct DockerContainer {
    pub id: String,
    pub name: String,
    pub image: String,
    pub command: String,
    pub created_at: String,
    pub status_text: String,
    pub ports: String,
    pub status: bool,
    pub is_active_tmux: bool,
}

/// A running tmux session, or a configured directory that can become one.
#[derive(Debug, Clone)]
pub struct TmuxSession {
    pub full_path: Option<String>,
    pub session_name: String,
    pub is_active: bool,
    pub preview: Option<String>,
}

/// One selectable entry.
#[derive(Debug, Clone)]
pub enum Entry {
    Ssh(SshHost),
    Docker(DockerContainer),
    Tmux(TmuxSession),
}

/// The characters of an optional string, empty where there is none.
pub open spec fn opt_text(s: Option<String>) -> Seq<char> {
    match s {
        Some(t) => t@,
        None => Seq::<char>::empty(),
    }
}

/// The label of a container's state.
pub open spec fn status_label_view(running: bool) -> Seq<char> {
    if running {
        seq!['r', 'u', 'n', 'n', 'i', 'n', 'g']
    } else {
        seq!['s', 't', 'o', 'p', 'p', 'e', 'd']
    }
}

impl SshHost {
    /// Alias, hostname, user and description (empty when absent).
    pub open spec fn search_fields_view(self) -> Seq<Seq<char>> {
        seq![self.alias@, self.hostname@, self.user@, opt_text(self.description)]
    }

    /// The texts that a search matches against.
    pub fn search_fields(&self) -> (r: Vec<&str>)
        ensures
            r.deep_view() == self.search_fields_view(),
    {
        let description: &str = match &self.description {
            Some(d) => d.as_str(),
            None => "",
        };
        proof {
            reveal_strlit("");
        }
        let r = vec![self.alias.as_str(), self.hostname.as_str(), self.user.as_str(), description];
        assert(r.deep_view()[3] == opt_text(self.description));
        assert(r.deep_view() =~= self.search_fields_view());
        r
    }
}

impl DockerContainer {
    /// Name, state label, status text, id, image, command, creation time and ports.
    pub open spec fn search_fields_view(self) -> Seq<Seq<char>> {
        seq![
            self.name@,
            status_label_view(self.status),
            self.status_text@,
            self.id@,
            self.image@,
            self.command@,
            self.created_at@,
            self.ports@,
        ]
    }

    /// The texts that a search matches against.
    pub fn search_fields(&self) -> (r: Vec<&str>)
        ensures
            r.deep_view() == self.search_fields_view(),
    {
        let r = vec![
            self.name.as_str(),
            self.status_label(),
            self.status_text.as_str(),
            self.id.as_str(),
            self.image.as_str(),
            self.command.as_str(),
            self.created_at.as_str(),
            self.ports.as_str(),
        ];
        assert(r.deep_view()[1] == status_label_view(self.status));
        assert(r.deep_view() =~= self.search_fields_view());
        r
    }

    /// `"running"` or `"stopped"`.
    pub fn status_label(&self) -> (r: &'static str)
        ensures
            r@ == status_label_view(self.status),
    {
        proof {
            reveal_strlit("running");
            reveal_strlit("stopped");
        }
        if self.status {
            "running"
        } else {
            "stopped"
        }
    }
}

impl TmuxSession {
    /// The session name for a running session, else the directory (or the name when
    /// there is no directory).
    pub open spec fn display_text_view(self) -> Seq<char> {
        if self.is_active {
            self.session_name@
        } else {
            match self.full_path {
                Some(p) => p@,
                None => self.session_name@,
            }
        }
    }

    /// The displayed text, then the session name where the displayed text does not
    /// already hold it, then the directory where it differs from the displayed text.
    pub open spec fn search_fields_view(self) -> Seq<Seq<char>> {
        let d = self.display_text_view();
        let first = seq![d];
        let named = if d != self.session_name@ && !contains_seq(d, self.session_name@) {
            first.push(self.session_name@)
        } else {
            first
        };
        match self.full_path {
            Some(p) => if p@ != d {
                named.push(p@)
            } else {
                named
            },
            None => named,
        }
    }

    /// The texts that a search matches against.
    pub fn search_fields(&self) -> (r: Vec<&str>)
        ensures
            r.deep_view() == self.search_fields_view(),
    {
        let display_text = self.display_text();
        let mut fields = vec![display_text];
        assert(fields.deep_view() =~= seq![self.display_text_view()]);
        if !str_eq(display_text, self.session_name.as_str()) && !str_contains(
            display_text,
            self.session_name.as_str(),
        ) {
            let ghost before = fields.deep_view();
            fields.push(self.session_name.as_str());
            assert(fields.deep_view() =~= before.push(self.session_name@));
        }
        if let Some(full_path) = &self.full_path {
            if !str_eq(full_path.as_str(), display_text) {
                let ghost before = fields.deep_view();
                fields.push(full_path.as_str());
                assert(fields.deep_view() =~= before.push(full_path@));
            }
        }
        fields
    }

    /// The text shown for this entry.
    pub fn display_text(&self) -> (r: &str)
        ensures
            r@ == self.display_text_view(),
    {
        if self.is_active {
            self.session_name.as_str()
        } else {
            match &self.full_path {
                Some(p) => p.as_str(),
                None => self.session_name.as_str(),
            }
        }
    }
}

/// `"ssh:"`
pub open spec fn ssh_key_prefix() -> Seq<char> {
    seq!['s', 's', 'h', ':']
}

/// `"docker:"`
pub open spec fn docker_key_prefix() -> Seq<char> {
    seq!['d', 'o', 'c', 'k', 'e', 'r', ':']
}

/// `"tmux:"`
pub open spec fn tmux_path_key_prefix() -> Seq<char> {
    seq!['t', 'm', 'u', 'x', ':']
}

/// `"tmux-session:"`
pub open spec fn tmux_session_key_prefix() -> Seq<char> {
    seq!['t', 'm', 'u', 'x', '-', 's', 'e', 's', 's', 'i', 'o', 'n', ':']
}

impl Entry {
    /// Whether a tmux session of this entry's name is running.
    pub open spec fn is_active_tmux_view(self) -> bool {
        match self {
            Entry::Tmux(session) => session.is_active,
            Entry::Ssh(host) => host.is_active_tmux,
            Entry::Docker(container) => container.is_active_tmux,
        }
    }

    /// Tmux entries rank above SSH hosts, which rank above containers.
    pub open spec fn type_rank_view(self) -> u8 {
        match self {
            Entry::Tmux(_) => 3,
            Entry::Ssh(_) => 2,
            Entry::Docker(_) => 1,
        }
    }

    /// The entry's own fields followed by the names of its kind.
    pub open spec fn search_fields_view(self) -> Seq<Seq<char>> {
        match self {
            Entry::Ssh(host) => host.search_fields_view().push(seq!['s', 's', 'h']),
            Entry::Docker(container) => container.search_fields_view().push(
                seq!['d', 'o', 'c', 'k', 'e', 'r'],
            ).push(seq!['d', 'o', 'c']),
            Entry::Tmux(session) => session.search_fields_view().push(
                seq!['t', 'm', 'u', 'x'],
            ).push(seq!['m', 'u', 'x']),
        }
    }

    /// The fields that the list shows: the first two of a host or a container, the
    /// first of a tmux entry.
    pub open spec fn display_search_fields_view(self) -> Seq<Seq<char>> {
        match self {
            Entry::Ssh(host) => host.search_fields_view().take(2),
            Entry::Docker(container) => container.search_fields_view().take(2),
            Entry::Tmux(session) => session.search_fields_view().take(1),
        }
    }

    /// The search fields joined by single spaces.
    pub open spec fn search_text_view(self) -> Seq<char> {
        join(self.search_fields_view(), seq![' '])
    }

    /// The displayed fields joined by single spaces.
    pub open spec fn display_search_text_view(self) -> Seq<char> {
        join(self.display_search_fields_view(), seq![' '])
    }

    /// The key under which the access history of this entry is kept.
    pub open spec fn history_key_view(self) -> Seq<char> {
        match self {
            Entry::Ssh(host) => ssh_key_prefix() + host.alias@,
            Entry::Docker(container) => docker_key_prefix() + container.name@,
            Entry::Tmux(session) => match session.full_path {
                Some(path) => tmux_path_key_prefix() + path@,
                None => tmux_session_key_prefix() + session.session_name@,
            },
        }
    }

    pub fn is_active_tmux(&self) -> (r: bool)
        ensures
            r == self.is_active_tmux_view(),
    {
        match self {
            Entry::Tmux(session) => session.is_active,
            Entry::Ssh(host) => host.is_active_tmux,
            Entry::Docker(container) => container.is_active_tmux,
        }
    }

    pub fn type_rank(&self) -> (r: u8)
        ensures
            r == self.type_rank_view(),
    {
        match self {
            Entry::Tmux(_) => 3,
            Entry::Ssh(_) => 2,
            Entry::Docker(_) => 1,
        }
    }

    /// The texts that a search matches against.
    pub fn search_fields(&self) -> (r: Vec<&str>)
        ensures
            r.deep_view() == self.search_fields_view(),
    {
        proof {
            reveal_strlit("ssh");
            reveal_strlit("docker");
            reveal_strlit("doc");
            reveal_strlit("tmux");
            reveal_strlit("mux");
        }
        match self {
            Entry::Ssh(host) => {
                let mut fields = host.search_fields();
                let ghost before = fields.deep_view();
                fields.push("ssh");
                assert(fields.deep_view()[before.len() as int] == seq!['s', 's', 'h']);
                assert(fields.deep_view() =~= before.push(seq!['s', 's', 'h']));
                fields
            },
            Entry::Docker(container) => {
                let mut fields = container.search_fields();
                let ghost before = fields.deep_view();
                fields.push("docker");
                fields.push("doc");
                assert(fields.deep_view()[before.len() as int] == seq!['d', 'o', 'c', 'k', 'e', 'r']);
                assert(fields.deep_view()[before.len() as int + 1] == seq!['d', 'o', 'c']);
                assert(fields.deep_view() =~= before.push(seq!['d', 'o', 'c', 'k', 'e', 'r']).push(
                    seq!['d', 'o', 'c'],
                ));
                fields
            },
            Entry::Tmux(session) => {
                let mut fields = session.search_fields();
                let ghost before = fields.deep_view();
                fields.push("tmux");
                fields.push("mux");
                assert(fields.deep_view()[before.len() as int] == seq!['t', 'm', 'u', 'x']);
                assert(fields.deep_view()[before.len() as int + 1] == seq!['m', 'u', 'x']);
                assert(fields.deep_view() =~= before.push(seq!['t', 'm', 'u', 'x']).push(
                    seq!['m', 'u', 'x'],
                ));
                fields
            },
        }
    }

    /// The fields that the list shows.
    pub fn display_search_fields(&self) -> (r: Vec<&str>)
        ensures
            r.deep_view() == self.display_search_fields_view(),
    {
        match self {
            Entry::Ssh(host) => {
                let fields = host.search_fields();
                assert(fields.deep_view().len() == fields@.len());
                let r = vec![fields[0], fields[1]];
                assert(r.deep_view() =~= host.search_fields_view().take(2));
                r
            },
            Entry::Docker(container) => {
                let fields = container.search_fields();
                assert(fields.deep_view().len() == fields@.len());
                let r = vec![fields[0], fields[1]];
                assert(r.deep_view() =~= container.search_fields_view().take(2));
                r
            },
            Entry::Tmux(session) => {
                let fields = session.search_fields();
                assert(fields.deep_view().len() == fields@.len());
                let r = vec![fields[0]];
                assert(r.deep_view() =~= session.search_fields_view().take(1));
                r
            },
        }
    }

    /// The search fields joined by spaces.
    pub fn search_text(&self) -> (r: String)
        ensures
            r@ == self.search_text_view(),
    {
        join_search_fields(&self.search_fields())
    }

    /// The displayed fields joined by spaces.
    pub fn display_search_text(&self) -> (r: String)
        ensures
            r@ == self.display_search_text_view(),
    {
        join_search_fields(&self.display_search_fields())
    }

    /// `ssh:<alias>`, `docker:<name>`, `tmux:<path>` or `tmux-session:<name>`.
    pub fn history_key(&self) -> (r: String)
        ensures
            r@ == self.history_key_view(),
    {
        proof {
            reveal_strlit("ssh:");
            reveal_strlit("docker:");
            reveal_strlit("tmux:");
            reveal_strlit("tmux-session:");
        }
        match self {
            Entry::Ssh(host) => {
                let mut r = to_owned_string("ssh:");
                append_str(&mut r, host.alias.as_str());
                r
            },
            Entry::Docker(container) => {
                let mut r = to_owned_string("docker:");
                append_str(&mut r, container.name.as_str());
                r
            },
            Entry::Tmux(session) => match &session.full_path {
                Some(path) => {
                    let mut r = to_owned_string("tmux:");
                    append_str(&mut r, path.as_str());
                    r
                },
                None => {
                    let mut r = to_owned_string("tmux-session:");
                    append_str(&mut r, session.session_name.as_str());
                    r
                },
            },
        }
    }
}

/// The fields joined by single spaces.
pub fn join_search_fields(fields: &Vec<&str>) -> (r: String)
    ensures
        r@ == join(fields.deep_view(), seq![' ']),
{
    proof {
        reveal_strlit(" ");
        assert(" "@ =~= seq![' ']);
    }
    join_strs(fields, " ")
}

/// The kind of an entry's history key: SSH, Docker, tmux directory, tmux session.
pub open spec fn key_kind(e: Entry) -> int {
    match e {
        Entry::Ssh(_) => 0,
        Entry::Docker(_) => 1,
        Entry::Tmux(session) => if session.full_path is Some {
            2
        } else {
            3
        },
    }
}

/// Law: entries of different kinds never share a history key, so the history of an
/// SSH host, a container, a tmux directory and a tmux session never mix.
pub proof fn lemma_history_keys_separate_kinds(a: Entry, b: Entry)
    requires
        key_kind(a) != key_kind(b),
    ensures
        a.history_key_view() != b.history_key_view(),
{
    let ka = a.history_key_view();
    let kb = b.history_key_view();
    if ka == kb {
        assert(ka[0] == kb[0]);
        assert(ka[4] == kb[4]);
    }
}

} // verus!
