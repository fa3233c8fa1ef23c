//! Building the entries from what the system reports: the SSH configuration, the
//! output of `docker ps -a`, the configured directories and the running tmux
//! sessions, and the file listing shown for a directory.
use vstd::prelude::*;

pub use crate::model::{DockerContainer, SshHost, TmuxSession};

use crate::text::{
    append_str, chars_of, contains_seq, contains_string, lines_of, lowercased, push_char,
    split_lines, split_words, str_contains, str_eq, string_of_range, to_lowercase,
    to_owned_string, trim, trim_str, words,
};
use vstd::string::StringSliceAdditionalSpecFns;
use vstd::utf8::{decode_utf8, encode_utf8, is_char_boundary};

verus! {

// ---------------------------------------------------------------------------
// SSH configuration
// ---------------------------------------------------------------------------

/// What a parsed host holds: alias, hostname, user and description.
#[verifier::ext_equal]
pub struct SshHostView {
    pub alias: Seq<char>,
    pub hostname: Seq<char>,
    pub user: Seq<char>,
    pub description: Option<Seq<char>>,
}

/// The characters of an optional string.
pub open spec fn opt_view(s: Option<String>) -> Option<Seq<char>> {
    match s {
        Some(t) => Some(t@),
        None => None,
    }
}

/// The parsed part of a host.
pub open spec fn ssh_host_view(h: SshHost) -> SshHostView {
    SshHostView {
        alias: h.alias@,
        hostname: h.hostname@,
        user: h.user@,
        description: opt_view(h.description),
    }
}

/// `s` without its leading `'#'` characters.
pub open spec fn trim_start_hashes(s: Seq<char>) -> Seq<char>
    decreases s.len(),
{
    if s.len() > 0 && s[0] == '#' {
        trim_start_hashes(s.skip(1))
    } else {
        s
    }
}

/// `"host"`
pub open spec fn host_keyword() -> Seq<char> {
    seq!['h', 'o', 's', 't']
}

/// `"hostname"`
pub open spec fn hostname_keyword() -> Seq<char> {
    seq!['h', 'o', 's', 't', 'n', 'a', 'm', 'e']
}

/// `"user"`
pub open spec fn user_keyword() -> Seq<char> {
    seq!['u', 's', 'e', 'r']
}

/// The second word of a line, empty where there is none.
pub open spec fn second_word(ws: Seq<Seq<char>>) -> Seq<char> {
    if ws.len() >= 2 {
        ws[1]
    } else {
        Seq::<char>::empty()
    }
}

/// The state of reading a configuration: the hosts so far and the comment text
/// gathered for the next host.
#[verifier::ext_equal]
pub struct SshState {
    pub hosts: Seq<SshHostView>,
    pub description: Option<Seq<char>>,
}

/// One line of the configuration. Blank lines are skipped. A comment line adds its
/// text (without the leading `#`s and surrounding whitespace) and a newline to the
/// pending description. `Host <alias>` starts a host that takes the pending
/// description, except for `Host *` and a `Host` without alias. `HostName` and
/// `User` (in any case) set the field of the last host, if any, to their value or to
/// empty. Anything else is ignored.
pub open spec fn ssh_step(st: SshState, raw: Seq<char>) -> SshState {
    let line = trim(raw);
    if line.len() == 0 {
        st
    } else if line[0] == '#' {
        let before = match st.description {
            Some(d) => d,
            None => Seq::<char>::empty(),
        };
        SshState {
            hosts: st.hosts,
            description: Some(before + trim(trim_start_hashes(line)).push('\n')),
        }
    } else {
        let ws = words(line);
        if ws.len() == 0 {
            st
        } else {
            let key = lowercased(ws[0]);
            if key == host_keyword() {
                if ws.len() < 2 || ws[1] == seq!['*'] {
                    st
                } else {
                    SshState {
                        hosts: st.hosts.push(
                            SshHostView {
                                alias: ws[1],
                                hostname: Seq::<char>::empty(),
                                user: Seq::<char>::empty(),
                                description: st.description,
                            },
                        ),
                        description: None,
                    }
                }
            } else if key == hostname_keyword() && st.hosts.len() > 0 {
                let last = st.hosts.last();
                SshState {
                    hosts: st.hosts.update(
                        st.hosts.len() - 1,
                        SshHostView { hostname: second_word(ws), ..last },
                    ),
                    description: st.description,
                }
            } else if key == user_keyword() && st.hosts.len() > 0 {
                let last = st.hosts.last();
                SshState {
                    hosts: st.hosts.update(
                        st.hosts.len() - 1,
                        SshHostView { user: second_word(ws), ..last },
                    ),
                    description: st.description,
                }
            } else {
                st
            }
        }
    }
}

/// The state after reading the lines in order.
pub open spec fn ssh_read(ls: Seq<Seq<char>>) -> SshState
    decreases ls.len(),
{
    if ls.len() == 0 {
        SshState { hosts: Seq::empty(), description: None }
    } else {
        ssh_step(ssh_read(ls.drop_last()), ls.last())
    }
}

/// The hosts that a configuration text defines, in order.
pub open spec fn ssh_hosts_of(content: Seq<char>) -> Seq<SshHostView> {
    ssh_read(lines_of(content)).hosts
}

/// `line` without leading `'#'`s.
fn strip_leading_hashes(line: &str) -> (r: String)
    ensures
        r@ == trim_start_hashes(line@),
{
    let cs = chars_of(line);
    let mut i: usize = 0;
    assert(cs@.skip(0) =~= cs@);
    while i < cs.len() && cs[i] == '#'
        invariant
            i <= cs.len(),
            cs@ == line@,
            trim_start_hashes(cs@.skip(i as int)) == trim_start_hashes(line@),
        decreases cs.len() - i,
    {
        assert(cs@.skip(i as int).skip(1) =~= cs@.skip(i + 1));
        i = i + 1;
    }
    assert(cs@.skip(i as int) =~= cs@.subrange(i as int, cs.len() as int));
    string_of_range(&cs, i, cs.len())
}

/// The parsed part of the hosts.
pub open spec fn ssh_hosts_view(hs: Seq<SshHost>) -> Seq<SshHostView> {
    hs.map_values(|h: SshHost| ssh_host_view(h))
}

/// The hosts that the configuration text `content` defines, in order; a host is
/// marked as having a running tmux session where `active_sessions` holds its alias.
pub fn parse_ssh_config(content: &str, active_sessions: &Vec<String>) -> (r: Vec<SshHost>)
    ensures
        ssh_hosts_view(r@) == ssh_hosts_of(content@),
        forall|i: int|
            0 <= i < r.len() ==> (#[trigger] r@[i]).is_active_tmux == active_sessions.deep_view().contains(
                r@[i].alias@,
            ),
{
    let lines = split_lines(content);
    let mut hosts: Vec<SshHost> = Vec::new();
    let mut current_description: Option<String> = None;
    let mut i: usize = 0;
    assert(lines.deep_view().take(0) =~= Seq::<Seq<char>>::empty());
    assert(ssh_hosts_view(hosts@) =~= Seq::<SshHostView>::empty());
    while i < lines.len()
        invariant
            i <= lines.len(),
            lines.deep_view() == lines_of(content@),
            ssh_read(lines.deep_view().take(i as int)) == (SshState {
                hosts: ssh_hosts_view(hosts@),
                description: opt_view(current_description),
            }),
        decreases lines.len() - i,
    {
        let ghost st = ssh_read(lines.deep_view().take(i as int));
        proof {
            reveal_strlit("host");
            reveal_strlit("hostname");
            reveal_strlit("user");
            reveal_strlit("*");
            assert("host"@ =~= host_keyword());
            assert("hostname"@ =~= hostname_keyword());
            assert("user"@ =~= user_keyword());
            assert("*"@ =~= seq!['*']);
        }
        assert(lines.deep_view().take(i + 1).drop_last() =~= lines.deep_view().take(i as int));
        let raw = lines[i].as_str();
        assert(lines.deep_view().take(i + 1).last() == raw@);
        let line = trim_str(raw);
        let line_chars = chars_of(line.as_str());
        let ghost next = ssh_step(st, raw@);
        assert(ssh_read(lines.deep_view().take(i + 1)) == next);
        i = i + 1;
        if line_chars.len() == 0 {
            assert(next =~= st);
            continue;
        }
        if line_chars[0] == '#' {
            let mut desc = match current_description {
                Some(d) => d,
                None => String::new(),
            };
            let stripped = strip_leading_hashes(line.as_str());
            let trimmed = trim_str(stripped.as_str());
            append_str(&mut desc, trimmed.as_str());
            push_char(&mut desc, '\n');
            current_description = Some(desc);
            assert(next =~= (SshState {
                hosts: ssh_hosts_view(hosts@),
                description: opt_view(current_description),
            }));
            continue;
        }
        let parts = split_words(line.as_str());
        if parts.len() == 0 {
            continue;
        }
        let key = to_lowercase(parts[0].as_str());
        if str_eq(key.as_str(), "host") {
            if parts.len() < 2 {
                continue;
            }
            if str_eq(parts[1].as_str(), "*") {
                continue;
            }
            let ghost before = ssh_hosts_view(hosts@);
            let alias = parts[1].clone();
            let description = current_description;
            current_description = None;
            let host = SshHost {
                alias,
                hostname: String::new(),
                user: String::new(),
                description,
                is_active_tmux: false,
            };
            hosts.push(host);
            assert(ssh_hosts_view(hosts@) =~= before.push(ssh_host_view(host)));
        } else if str_eq(key.as_str(), "hostname") {
            if hosts.len() > 0 {
                let ghost before = ssh_hosts_view(hosts@);
                let value = if parts.len() >= 2 {
                    parts[1].clone()
                } else {
                    String::new()
                };
                let mut host = hosts.pop().unwrap();
                host.hostname = value;
                hosts.push(host);
                assert(ssh_hosts_view(hosts@) =~= before.update(
                    before.len() - 1,
                    SshHostView { hostname: value@, ..before.last() },
                ));
            }
        } else if str_eq(key.as_str(), "user") {
            if hosts.len() > 0 {
                let ghost before = ssh_hosts_view(hosts@);
                let value = if parts.len() >= 2 {
                    parts[1].clone()
                } else {
                    String::new()
                };
                let mut host = hosts.pop().unwrap();
                host.user = value;
                hosts.push(host);
                assert(ssh_hosts_view(hosts@) =~= before.update(
                    before.len() - 1,
                    SshHostView { user: value@, ..before.last() },
                ));
            }
        }
    }
    assert(lines.deep_view().take(i as int) =~= lines.deep_view());
    let ghost parsed = ssh_hosts_view(hosts@);
    let mut marked: Vec<SshHost> = Vec::new();
    let mut j: usize = 0;
    while j < hosts.len()
        invariant
            j <= hosts.len(),
            parsed == ssh_hosts_view(hosts@),
            ssh_hosts_view(marked@) == parsed.take(j as int),
            marked.len() == j,
            forall|k: int|
                0 <= k < j ==> (#[trigger] marked@[k]).is_active_tmux
                    == active_sessions.deep_view().contains(marked@[k].alias@),
        decreases hosts.len() - j,
    {
        let h = &hosts[j];
        let active = contains_string(active_sessions, h.alias.as_str());
        let ghost before = ssh_hosts_view(marked@);
        let host = SshHost {
            alias: h.alias.clone(),
            hostname: h.hostname.clone(),
            user: h.user.clone(),
            description: match &h.description {
                Some(d) => Some(d.clone()),
                None => None,
            },
            is_active_tmux: active,
        };
        marked.push(host);
        assert(ssh_hosts_view(marked@) =~= parsed.take(j + 1));
        j = j + 1;
    }
    assert(parsed.take(j as int) =~= parsed);
    marked
}

// ---------------------------------------------------------------------------
// Docker containers
// ---------------------------------------------------------------------------

/// The column headings of `docker ps -a`, in order.
pub open spec fn docker_columns() -> Seq<Seq<char>> {
    seq![
        seq!['C', 'O', 'N', 'T', 'A', 'I', 'N', 'E', 'R', ' ', 'I', 'D'],
        seq!['I', 'M', 'A', 'G', 'E'],
        seq!['C', 'O', 'M', 'M', 'A', 'N', 'D'],
        seq!['C', 'R', 'E', 'A', 'T', 'E', 'D'],
        seq!['S', 'T', 'A', 'T', 'U', 'S'],
        seq!['P', 'O', 'R', 'T', 'S'],
        seq!['N', 'A', 'M', 'E', 'S'],
    ]
}

/// The bytes `p` occur in `h` at position `i`.
pub open spec fn bytes_at(h: Seq<u8>, p: Seq<u8>, i: int) -> bool {
    0 <= i && i + p.len() <= h.len() && h.subrange(i, i + p.len()) == p
}

/// `i` is the first position where `p` occurs in `h`.
pub open spec fn first_at(h: Seq<u8>, p: Seq<u8>, i: int) -> bool {
    bytes_at(h, p, i) && forall|j: int| 0 <= j < i ==> !bytes_at(h, p, j)
}

/// The first byte position of `p` in `h` (`str::find`).
pub open spec fn find_first(h: Seq<u8>, p: Seq<u8>) -> Option<usize> {
    if exists|i: int| first_at(h, p, i) {
        Some((choose|i: int| first_at(h, p, i)) as usize)
    } else {
        None
    }
}

/// The byte positions where the headings that occur in the header line start, in
/// column order; a heading that does not occur is left out.
pub open spec fn column_starts(header: Seq<char>) -> Seq<usize> {
    docker_columns().filter_map(|c: Seq<char>| find_first(encode_utf8(header), encode_utf8(c)))
}

/// Field `index` of a row: the bytes from `starts[index]` up to the next start (or
/// the end of the row), trimmed; empty where there is no such start, where the
/// range is reversed or out of the row, or where it does not fall on character
/// boundaries.
pub open spec fn docker_field(line: Seq<char>, starts: Seq<usize>, index: int) -> Seq<char> {
    let b = encode_utf8(line);
    if index >= starts.len() {
        Seq::<char>::empty()
    } else {
        let s = starts[index] as int;
        let e = if index + 1 < starts.len() {
            starts[index + 1] as int
        } else {
            b.len() as usize as int
        };
        if s <= e && is_char_boundary(b, s) && is_char_boundary(b, e) {
            trim(decode_utf8(b.subrange(s, e)))
        } else {
            Seq::<char>::empty()
        }
    }
}

/// What a container row holds.
#[verifier::ext_equal]
pub struct DockerView {
    pub id: Seq<char>,
    pub name: Seq<char>,
    pub image: Seq<char>,
    pub command: Seq<char>,
    pub created_at: Seq<char>,
    pub status_text: Seq<char>,
    pub ports: Seq<char>,
    pub status: bool,
}

/// The parsed part of a container.
pub open spec fn docker_view(c: DockerContainer) -> DockerView {
    DockerView {
        id: c.id@,
        name: c.name@,
        image: c.image@,
        command: c.command@,
        created_at: c.created_at@,
        status_text: c.status_text@,
        ports: c.ports@,
        status: c.status,
    }
}

/// The parsed part of the containers.
pub open spec fn docker_views(cs: Seq<DockerContainer>) -> Seq<DockerView> {
    cs.map_values(|c: DockerContainer| docker_view(c))
}

/// The container of one row; it is running where its status holds `Up`.
pub open spec fn docker_row(line: Seq<char>, starts: Seq<usize>) -> DockerView {
    DockerView {
        id: docker_field(line, starts, 0),
        image: docker_field(line, starts, 1),
        command: docker_field(line, starts, 2),
        created_at: docker_field(line, starts, 3),
        status_text: docker_field(line, starts, 4),
        ports: docker_field(line, starts, 5),
        name: docker_field(line, starts, 6),
        status: contains_seq(docker_field(line, starts, 4), seq!['U', 'p']),
    }
}

/// The containers of the rows, blank rows skipped.
pub open spec fn docker_rows(rows: Seq<Seq<char>>, starts: Seq<usize>) -> Seq<DockerView>
    decreases rows.len(),
{
    if rows.len() == 0 {
        Seq::empty()
    } else {
        let prev = docker_rows(rows.drop_last(), starts);
        if trim(rows.last()).len() == 0 {
            prev
        } else {
            prev.push(docker_row(rows.last(), starts))
        }
    }
}

/// The containers that `docker ps -a` lists in `output`: the first line is the
/// header that places the columns, every further non-blank line a container.
pub open spec fn docker_containers_of(output: Seq<char>) -> Seq<DockerView> {
    let ls = lines_of(output);
    if ls.len() == 0 {
        Seq::empty()
    } else {
        docker_rows(ls.skip(1), column_starts(ls[0]))
    }
}

/// The first position of `pat` in `hay`.
fn find_bytes(hay: &[u8], pat: &[u8]) -> (r: Option<usize>)
    ensures
        r == find_first(hay@, pat@),
{
    if pat.len() > hay.len() {
        assert(!exists|i: int| first_at(hay@, pat@, i));
        return None;
    }
    let mut i: usize = 0;
    while i <= hay.len() - pat.len()
        invariant
            pat.len() <= hay.len(),
            i <= hay.len() - pat.len() + 1,
            forall|k: int| 0 <= k < i ==> !bytes_at(hay@, pat@, k),
        decreases hay.len() - i,
    {
        let mut j: usize = 0;
        while j < pat.len() && hay[i + j] == pat[j]
            invariant
                i + pat.len() <= hay.len(),
                j <= pat.len(),
                forall|m: int| 0 <= m < j ==> hay@[i + m] == pat@[m],
            decreases pat.len() - j,
        {
            j = j + 1;
        }
        if j == pat.len() {
            assert(hay@.subrange(i as int, i + pat.len()) =~= pat@);
            assert(first_at(hay@, pat@, i as int));
            proof {
                let c = choose|c: int| first_at(hay@, pat@, c);
                assert(c == i) by {
                    if c < i {
                    } else if c > i {
                    }
                }
            }
            return Some(i);
        }
        assert(hay@.subrange(i as int, i + pat.len())[j as int] != pat@[j as int]);
        i = i + 1;
    }
    assert(!exists|k: int| first_at(hay@, pat@, k));
    None
}

proof fn lemma_boundary_in_prefix(b: Seq<u8>, s: int, e: int)
    requires
        vstd::utf8::valid_utf8(b),
        0 <= s <= e <= b.len(),
        is_char_boundary(b, s),
        is_char_boundary(b, e),
    ensures
        vstd::utf8::valid_utf8(b.subrange(0, e)),
        is_char_boundary(b.subrange(0, e), s),
{
    let h = b.subrange(0, e);
    vstd::utf8::valid_utf8_split(b, e);
    if s == e {
        vstd::utf8::is_char_boundary_start_end_of_seq(h);
    } else if s > 0 {
        vstd::utf8::is_char_boundary_iff_not_is_continuation_byte(h, s);
        vstd::utf8::is_char_boundary_iff_not_is_continuation_byte(b, s);
    }
}

/// Field `index` of a container row.
fn docker_field_of(line: &str, starts: &Vec<usize>, index: usize) -> (r: String)
    ensures
        r@ == docker_field(line@, starts@, index as int),
{
    if index >= starts.len() {
        return String::new();
    }
    let start = starts[index];
    let end = if index + 1 < starts.len() {
        starts[index + 1]
    } else {
        line.len()
    };
    let ghost b = encode_utf8(line@);
    proof {
        vstd::utf8::encode_utf8_valid_utf8(line@);
    }
    if start <= end && line.is_char_boundary(start) && line.is_char_boundary(end) {
        proof {
            assert(end <= b.len()) by {
                if end > b.len() {
                    assert(!is_char_boundary(b, end as int));
                }
            }
            lemma_boundary_in_prefix(b, start as int, end as int);
        }
        let (head, _) = line.split_at(end);
        assert(head.spec_bytes() =~= b.subrange(0, end as int));
        let (_, mid) = head.split_at(start);
        assert(mid.spec_bytes() =~= b.subrange(start as int, end as int));
        proof {
            vstd::utf8::encode_utf8_decode_utf8(mid@);
        }
        let r = trim_str(mid);
        assert(r@ == docker_field(line@, starts@, index as int));
        r
    } else {
        let r = String::new();
        assert(r@ =~= docker_field(line@, starts@, index as int));
        r
    }
}

/// The container of one row.
fn docker_row_of(line: &str, starts: &Vec<usize>) -> (r: DockerContainer)
    ensures
        docker_view(r) == docker_row(line@, starts@),
        !r.is_active_tmux,
{
    proof {
        reveal_strlit("Up");
        assert("Up"@ =~= seq!['U', 'p']);
    }
    let id = docker_field_of(line, starts, 0);
    let image = docker_field_of(line, starts, 1);
    let command = docker_field_of(line, starts, 2);
    let created_at = docker_field_of(line, starts, 3);
    let status_text = docker_field_of(line, starts, 4);
    let ports = docker_field_of(line, starts, 5);
    let name = docker_field_of(line, starts, 6);
    let status = str_contains(docker_field_of(line, starts, 4).as_str(), "Up");
    let r = DockerContainer {
        id,
        name,
        image,
        command,
        created_at,
        status_text,
        ports,
        status,
        is_active_tmux: false,
    };
    assert(docker_view(r) =~= docker_row(line@, starts@));
    r
}

/// Where the headings start in the header line.
fn column_starts_of(header: &str) -> (r: Vec<usize>)
    ensures
        r@ == column_starts(header@),
{
    let columns: [&str; 7] = ["CONTAINER ID", "IMAGE", "COMMAND", "CREATED", "STATUS", "PORTS", "NAMES"];
    proof {
        reveal_strlit("CONTAINER ID");
        reveal_strlit("IMAGE");
        reveal_strlit("COMMAND");
        reveal_strlit("CREATED");
        reveal_strlit("STATUS");
        reveal_strlit("PORTS");
        reveal_strlit("NAMES");
    }
    let ghost cols = docker_columns();
    assert(columns@.map_values(|c: &str| c@) =~= cols) by {
        assert(columns@[0]@ == cols[0]);
        assert(columns@[1]@ == cols[1]);
        assert(columns@[2]@ == cols[2]);
        assert(columns@[3]@ == cols[3]);
        assert(columns@[4]@ == cols[4]);
        assert(columns@[5]@ == cols[5]);
        assert(columns@[6]@ == cols[6]);
    }
    let ghost f = |c: Seq<char>| find_first(encode_utf8(header@), encode_utf8(c));
    let hay = header.as_bytes();
    let mut r: Vec<usize> = Vec::new();
    let mut i: usize = 0;
    assert(cols.take(0) =~= Seq::<Seq<char>>::empty());
    while i < 7
        invariant
            i <= 7,
            cols == docker_columns(),
            columns@.map_values(|c: &str| c@) == cols,
            hay@ == encode_utf8(header@),
            f == (|c: Seq<char>| find_first(encode_utf8(header@), encode_utf8(c))),
            r@ == cols.take(i as int).filter_map(f),
        decreases 7 - i,
    {
        assert(cols.take(i + 1).drop_last() =~= cols.take(i as int));
        assert(cols.take(i + 1).last() == columns[i as int]@);
        let pat = columns[i].as_bytes();
        match find_bytes(hay, pat) {
            Some(p) => {
                r.push(p);
            },
            None => {},
        }
        i = i + 1;
    }
    assert(cols.take(7) =~= cols);
    r
}

/// The containers that `docker ps -a` lists in `output`; a container is marked as
/// having a running tmux session where `active_sessions` holds its name.
pub fn parse_docker_containers(output: &str, active_sessions: &Vec<String>) -> (r: Vec<
    DockerContainer,
>)
    ensures
        docker_views(r@) == docker_containers_of(output@),
        forall|i: int|
            0 <= i < r.len() ==> (#[trigger] r@[i]).is_active_tmux
                == active_sessions.deep_view().contains(r@[i].name@),
{
    let lines = split_lines(output);
    let mut containers: Vec<DockerContainer> = Vec::new();
    if lines.len() == 0 {
        assert(docker_views(containers@) =~= Seq::<DockerView>::empty());
        return containers;
    }
    let starts = column_starts_of(lines[0].as_str());
    let ghost rows = lines.deep_view().skip(1);
    let mut i: usize = 1;
    assert(rows.take(0) =~= Seq::<Seq<char>>::empty());
    assert(docker_views(containers@) =~= Seq::<DockerView>::empty());
    while i < lines.len()
        invariant
            1 <= i <= lines.len(),
            rows == lines.deep_view().skip(1),
            starts@ == column_starts(lines.deep_view()[0]),
            docker_views(containers@) == docker_rows(rows.take(i - 1), starts@),
            forall|k: int| 0 <= k < containers.len() ==> !(#[trigger] containers@[k]).is_active_tmux,
        decreases lines.len() - i,
    {
        assert(rows.take(i as int).drop_last() =~= rows.take(i - 1));
        assert(rows.take(i as int).last() == lines@[i as int]@);
        let blank = chars_of(trim_str(lines[i].as_str()).as_str()).len() == 0;
        if !blank {
            let ghost before = docker_views(containers@);
            let c = docker_row_of(lines[i].as_str(), &starts);
            containers.push(c);
            assert(docker_views(containers@) =~= before.push(docker_view(c)));
        }
        i = i + 1;
    }
    assert(rows.take(i - 1) =~= rows);
    let ghost parsed = docker_views(containers@);
    let mut marked: Vec<DockerContainer> = Vec::new();
    let mut j: usize = 0;
    while j < containers.len()
        invariant
            j <= containers.len(),
            parsed == docker_views(containers@),
            docker_views(marked@) == parsed.take(j as int),
            marked.len() == j,
            forall|k: int|
                0 <= k < j ==> (#[trigger] marked@[k]).is_active_tmux
                    == active_sessions.deep_view().contains(marked@[k].name@),
        decreases containers.len() - j,
    {
        let c = &containers[j];
        let active = contains_string(active_sessions, c.name.as_str());
        let container = DockerContainer {
            id: c.id.clone(),
            name: c.name.clone(),
            image: c.image.clone(),
            command: c.command.clone(),
            created_at: c.created_at.clone(),
            status_text: c.status_text.clone(),
            ports: c.ports.clone(),
            status: c.status,
            is_active_tmux: active,
        };
        marked.push(container);
        assert(docker_views(marked@) =~= parsed.take(j + 1));
        j = j + 1;
    }
    assert(parsed.take(j as int) =~= parsed);
    marked
}

// ---------------------------------------------------------------------------
// Tmux directories and sessions
// ---------------------------------------------------------------------------

/// What a tmux entry holds: directory, session name, whether a session runs, and the
/// directory listing.
#[verifier::ext_equal]
pub struct TmuxView {
    pub full_path: Option<Seq<char>>,
    pub session_name: Seq<char>,
    pub is_active: bool,
    pub preview: Option<Seq<char>>,
}

/// The view of a tmux entry.
pub open spec fn tmux_view(t: TmuxSession) -> TmuxView {
    TmuxView {
        full_path: opt_view(t.full_path),
        session_name: t.session_name@,
        is_active: t.is_active,
        preview: opt_view(t.preview),
    }
}

/// The views of tmux entries.
pub open spec fn tmux_views(ts: Seq<TmuxSession>) -> Seq<TmuxView> {
    ts.map_values(|t: TmuxSession| tmux_view(t))
}

/// A configured directory: its path, its base name and its listing.
pub open spec fn dir_view(d: (String, String, Option<String>)) -> (Seq<char>, Seq<char>, Option<Seq<char>>) {
    (d.0@, d.1@, opt_view(d.2))
}

/// The entry of a directory: its session is running where a session of its base
/// name runs.
pub open spec fn dir_entry(d: (Seq<char>, Seq<char>, Option<Seq<char>>), active: Seq<Seq<char>>) -> TmuxView {
    TmuxView { full_path: Some(d.0), session_name: d.1, is_active: active.contains(d.1), preview: d.2 }
}

/// The entry of a running session that no directory stands for.
pub open spec fn session_entry(name: Seq<char>) -> TmuxView {
    TmuxView { full_path: None, session_name: name, is_active: true, preview: None }
}

/// One entry per directory, in order, then one per running session whose name is no
/// directory's base name, in order.
pub open spec fn tmux_entries_of(
    dirs: Seq<(Seq<char>, Seq<char>, Option<Seq<char>>)>,
    active: Seq<Seq<char>>,
) -> Seq<TmuxView> {
    let names = dirs.map_values(|d: (Seq<char>, Seq<char>, Option<Seq<char>>)| d.1);
    dirs.map_values(|d: (Seq<char>, Seq<char>, Option<Seq<char>>)| dir_entry(d, active)) + active.filter(
        |s: Seq<char>| !names.contains(s),
    ).map_values(|s: Seq<char>| session_entry(s))
}

fn clone_opt(s: &Option<String>) -> (r: Option<String>)
    ensures
        opt_view(r) == opt_view(*s),
{
    match s {
        Some(t) => Some(t.clone()),
        None => None,
    }
}

/// The tmux entries: `dirs` holds each configured directory as its full path, its
/// base name and its listing; `active_sessions` the running sessions.
pub fn tmux_paths_and_sessions(
    dirs: &Vec<(String, String, Option<String>)>,
    active_sessions: &Vec<String>,
) -> (r: Vec<TmuxSession>)
    ensures
        tmux_views(r@) == tmux_entries_of(
            dirs@.map_values(|d: (String, String, Option<String>)| dir_view(d)),
            active_sessions.deep_view(),
        ),
{
    let ghost ds = dirs@.map_values(|d: (String, String, Option<String>)| dir_view(d));
    let ghost active = active_sessions.deep_view();
    let ghost names = ds.map_values(|d: (Seq<char>, Seq<char>, Option<Seq<char>>)| d.1);
    let ghost first = ds.map_values(
        |d: (Seq<char>, Seq<char>, Option<Seq<char>>)| dir_entry(d, active),
    );
    let mut out: Vec<TmuxSession> = Vec::new();
    let mut path_session_names: Vec<String> = Vec::new();
    let mut i: usize = 0;
    while i < dirs.len()
        invariant
            i <= dirs.len(),
            ds == dirs@.map_values(|d: (String, String, Option<String>)| dir_view(d)),
            active == active_sessions.deep_view(),
            names == ds.map_values(|d: (Seq<char>, Seq<char>, Option<Seq<char>>)| d.1),
            first == ds.map_values(
                |d: (Seq<char>, Seq<char>, Option<Seq<char>>)| dir_entry(d, active),
            ),
            tmux_views(out@) == first.take(i as int),
            path_session_names.deep_view() == names.take(i as int),
        decreases dirs.len() - i,
    {
        let (full_path, basename, preview) = &dirs[i];
        let ghost before = tmux_views(out@);
        let ghost before_names = path_session_names.deep_view();
        path_session_names.push(basename.clone());
        let is_active = contains_string(active_sessions, basename.as_str());
        let entry = TmuxSession {
            full_path: Some(full_path.clone()),
            session_name: basename.clone(),
            is_active,
            preview: clone_opt(preview),
        };
        out.push(entry);
        assert(tmux_views(out@) =~= before.push(tmux_view(entry)));
        assert(first.take(i + 1) =~= first.take(i as int).push(first[i as int]));
        assert(path_session_names.deep_view() =~= before_names.push(basename@));
        assert(names[i as int] == ds[i as int].1);
        assert(ds[i as int] == dir_view(dirs@[i as int]));
        assert(path_session_names.deep_view() =~= names.take(i + 1));
        i = i + 1;
    }
    assert(first.take(i as int) =~= first);
    assert(names.take(i as int) =~= names);
    let ghost pred = |s: Seq<char>| !names.contains(s);
    let mut j: usize = 0;
    assert(active.take(0).filter(pred) =~= Seq::<Seq<char>>::empty());
    assert(tmux_views(out@) =~= first + active.take(0).filter(pred).map_values(
        |s: Seq<char>| session_entry(s),
    ));
    while j < active_sessions.len()
        invariant
            j <= active_sessions.len(),
            active == active_sessions.deep_view(),
            path_session_names.deep_view() == names,
            pred == (|s: Seq<char>| !names.contains(s)),
            tmux_views(out@) == first + active.take(j as int).filter(pred).map_values(
                |s: Seq<char>| session_entry(s),
            ),
        decreases active_sessions.len() - j,
    {
        let ghost before = tmux_views(out@);
        let name = active_sessions[j].as_str();
        assert(active.take(j + 1).drop_last() =~= active.take(j as int));
        assert(active.take(j + 1).last() == name@);
        reveal(Seq::filter);
        if !contains_string(&path_session_names, name) {
            let entry = TmuxSession {
                full_path: None,
                session_name: active_sessions[j].clone(),
                is_active: true,
                preview: None,
            };
            out.push(entry);
            assert(active.take(j + 1).filter(pred) =~= active.take(j as int).filter(pred).push(name@));
            assert(tmux_views(out@) =~= before.push(tmux_view(entry)));
            assert(tmux_views(out@) =~= first + active.take(j + 1).filter(pred).map_values(
                |s: Seq<char>| session_entry(s),
            ));
        } else {
            assert(active.take(j + 1).filter(pred) =~= active.take(j as int).filter(pred));
        }
        j = j + 1;
    }
    assert(active.take(j as int) =~= active);
    out
}

/// The last component of a path: the pieces between `'/'`, without empty pieces and
/// `"."` pieces.
pub open spec fn last_component(pieces: Seq<Seq<char>>) -> Option<Seq<char>>
    decreases pieces.len(),
{
    if pieces.len() == 0 {
        None
    } else if pieces.last().len() == 0 || pieces.last() == seq!['.'] {
        last_component(pieces.drop_last())
    } else {
        Some(pieces.last())
    }
}

/// The file name of a path (`Path::file_name`), empty where the path ends in `".."`
/// or has no name (`"/"`, `"."`, `""`).
pub open spec fn basename_of(path: Seq<char>) -> Seq<char> {
    match last_component(crate::text::split_on(path, '/')) {
        Some(c) => if c == seq!['.', '.'] {
            Seq::<char>::empty()
        } else {
            c
        },
        None => Seq::<char>::empty(),
    }
}

/// The file name of a path.
pub fn basename(path: &str) -> (r: String)
    ensures
        r@ == basename_of(path@),
{
    proof {
        reveal_strlit(".");
        reveal_strlit("..");
        assert("."@ =~= seq!['.']);
        assert(".."@ =~= seq!['.', '.']);
    }
    let pieces = crate::text::split_char(path, '/');
    let ghost ps = pieces.deep_view();
    let mut k: usize = pieces.len();
    assert(ps.take(k as int) =~= ps);
    while k > 0 && (chars_of(pieces[k - 1].as_str()).len() == 0 || str_eq(pieces[k - 1].as_str(), "."))
        invariant
            k <= pieces.len(),
            ps == pieces.deep_view(),
            "."@ == seq!['.'],
            last_component(ps.take(k as int)) == last_component(ps),
        decreases k,
    {
        assert(ps.take(k as int).drop_last() =~= ps.take(k - 1));
        assert(ps.take(k as int).last() == pieces@[k - 1]@);
        k = k - 1;
    }
    if k == 0 {
        assert(ps.take(0) =~= Seq::<Seq<char>>::empty());
        return String::new();
    }
    assert(ps.take(k as int).last() == pieces@[k - 1]@);
    if str_eq(pieces[k - 1].as_str(), "..") {
        String::new()
    } else {
        pieces[k - 1].clone()
    }
}

/// Adds a directory, given by its canonical path, with its base name, unless the path
/// is already there.
pub fn push_tmux_dir(dirs: &mut Vec<(String, String)>, canonical_path: &str)
    ensures
        ({
            let known = old(dirs)@.map_values(|d: (String, String)| d.0@);
            if known.contains(canonical_path@) {
                final(dirs)@ == old(dirs)@
            } else {
                &&& final(dirs)@.len() == old(dirs)@.len() + 1
                &&& final(dirs)@.take(old(dirs)@.len() as int) == old(dirs)@
                &&& final(dirs)@.last().0@ == canonical_path@
                &&& final(dirs)@.last().1@ == basename_of(canonical_path@)
            }
        }),
{
    let ghost known = dirs@.map_values(|d: (String, String)| d.0@);
    let mut i: usize = 0;
    while i < dirs.len()
        invariant
            i <= dirs.len(),
            known == dirs@.map_values(|d: (String, String)| d.0@),
            forall|k: int| 0 <= k < i ==> known[k] != canonical_path@,
        decreases dirs.len() - i,
    {
        if str_eq(dirs[i].0.as_str(), canonical_path) {
            assert(known[i as int] == canonical_path@);
            return;
        }
        i = i + 1;
    }
    let ghost before = dirs@;
    dirs.push((to_owned_string(canonical_path), basename(canonical_path)));
    assert(dirs@.take(before.len() as int) =~= before);
}

/// Law: directories added through `push_tmux_dir` never repeat a path.
pub proof fn lemma_push_tmux_dir_keeps_paths_distinct(
    before: Seq<(String, String)>,
    after: Seq<(String, String)>,
    path: Seq<char>,
)
    requires
        forall|i: int, j: int|
            0 <= i < j < before.len() ==> (#[trigger] before[i]).0@ != (#[trigger] before[j]).0@,
        ({
            let known = before.map_values(|d: (String, String)| d.0@);
            if known.contains(path) {
                after == before
            } else {
                &&& after.len() == before.len() + 1
                &&& after.take(before.len() as int) == before
                &&& after.last().0@ == path
            }
        }),
    ensures
        forall|i: int, j: int|
            0 <= i < j < after.len() ==> (#[trigger] after[i]).0@ != (#[trigger] after[j]).0@,
{
    let known = before.map_values(|d: (String, String)| d.0@);
    if !known.contains(path) {
        assert forall|i: int, j: int| 0 <= i < j < after.len() implies (#[trigger] after[i]).0@
            != (#[trigger] after[j]).0@ by {
            assert(after[i] == after.take(before.len() as int)[i]);
            if j < before.len() {
                assert(after[j] == after.take(before.len() as int)[j]);
            } else {
                assert(known[i] == before[i].0@);
            }
        }
    }
}

/// Whether a directory entry's name marks it hidden (it begins with `'.'`).
pub fn is_hidden_name(name: &str) -> (r: bool)
    ensures
        r == (name@.len() > 0 && name@[0] == '.'),
{
    crate::text::starts_with_char(name, '.')
}

// ---------------------------------------------------------------------------
// Directory listings
// ---------------------------------------------------------------------------

/// The mask of the `k`-th permission bit, owner read first.
pub open spec fn permission_bit(k: int) -> u32 {
    (256u32 >> (k as u32)) as u32
}

/// The character of the `k`-th permission bit: `r`, `w` or `x` where set, `-` where
/// not.
pub open spec fn permission_char(mode: u32, k: int) -> char {
    if mode & permission_bit(k) != 0 {
        if k % 3 == 0 {
            'r'
        } else if k % 3 == 1 {
            'w'
        } else {
            'x'
        }
    } else {
        '-'
    }
}

/// `d` for a directory, `l` for a symbolic link, `-` otherwise.
pub open spec fn file_type_char(mode: u32) -> char {
    if mode & 0o170000u32 == 0o040000u32 {
        'd'
    } else if mode & 0o170000u32 == 0o120000u32 {
        'l'
    } else {
        '-'
    }
}

/// The ten-character permission string of a file mode, as `ls -l` shows it.
pub open spec fn permission_string(mode: u32) -> Seq<char> {
    seq![file_type_char(mode)] + Seq::new(9, |k: int| permission_char(mode, k))
}

/// The permission string of `mode`.
pub fn format_permissions(mode: u32) -> (r: String)
    ensures
        r@ == permission_string(mode),
        r@.len() == 10,
{
    let masked = mode & 0o170000u32;
    let file_type = if masked == 0o040000u32 {
        'd'
    } else if masked == 0o120000u32 {
        'l'
    } else {
        '-'
    };
    let mut permissions = String::new();
    push_char(&mut permissions, file_type);
    let mut k: u32 = 0;
    while k < 9
        invariant
            k <= 9,
            permissions@ == seq![file_type_char(mode)] + Seq::new(
                k as nat,
                |j: int| permission_char(mode, j),
            ),
        decreases 9 - k,
    {
        let bit: u32 = 256u32 >> k;
        let c = if mode & bit != 0 {
            if k % 3 == 0 {
                'r'
            } else if k % 3 == 1 {
                'w'
            } else {
                'x'
            }
        } else {
            '-'
        };
        assert(c == permission_char(mode, k as int));
        push_char(&mut permissions, c);
        k = k + 1;
        assert(permissions@ =~= seq![file_type_char(mode)] + Seq::new(
            k as nat,
            |j: int| permission_char(mode, j),
        ));
    }
    permissions
}

proof fn lemma_permission_masks()
    by (bit_vector)
    ensures
        256u32 >> 0u32 == 0o400u32,
        256u32 >> 1u32 == 0o200u32,
        256u32 >> 2u32 == 0o100u32,
        256u32 >> 3u32 == 0o040u32,
        256u32 >> 4u32 == 0o020u32,
        256u32 >> 5u32 == 0o010u32,
        256u32 >> 6u32 == 0o004u32,
        256u32 >> 7u32 == 0o002u32,
        256u32 >> 8u32 == 0o001u32,
{
}

/// Law: the permission string starts with `d` for a directory (type bits
/// 0o040000), `l` for a symbolic link (0o120000), `-` otherwise; then it shows the
/// owner's, the group's and the others' read, write and execute rights, in that
/// order: `r`, `w` or `x` where the mode has the bit (0o400, 0o200, 0o100; 0o040,
/// 0o020, 0o010; 0o004, 0o002, 0o001), `-` where it has not.
pub proof fn lemma_permission_string_bits(mode: u32)
    ensures
        permission_string(mode).len() == 10,
        permission_string(mode)[0] == (if mode & 0o170000u32 == 0o040000u32 {
            'd'
        } else if mode & 0o170000u32 == 0o120000u32 {
            'l'
        } else {
            '-'
        }),
        permission_string(mode)[1] == (if mode & 0o400u32 != 0 { 'r' } else { '-' }),
        permission_string(mode)[2] == (if mode & 0o200u32 != 0 { 'w' } else { '-' }),
        permission_string(mode)[3] == (if mode & 0o100u32 != 0 { 'x' } else { '-' }),
        permission_string(mode)[4] == (if mode & 0o040u32 != 0 { 'r' } else { '-' }),
        permission_string(mode)[5] == (if mode & 0o020u32 != 0 { 'w' } else { '-' }),
        permission_string(mode)[6] == (if mode & 0o010u32 != 0 { 'x' } else { '-' }),
        permission_string(mode)[7] == (if mode & 0o004u32 != 0 { 'r' } else { '-' }),
        permission_string(mode)[8] == (if mode & 0o002u32 != 0 { 'w' } else { '-' }),
        permission_string(mode)[9] == (if mode & 0o001u32 != 0 { 'x' } else { '-' }),
{
    lemma_permission_masks();
    let s = permission_string(mode);
    assert(permission_bit(0) == 0o400u32);
    assert(permission_bit(1) == 0o200u32);
    assert(permission_bit(2) == 0o100u32);
    assert(permission_bit(3) == 0o040u32);
    assert(permission_bit(4) == 0o020u32);
    assert(permission_bit(5) == 0o010u32);
    assert(permission_bit(6) == 0o004u32);
    assert(permission_bit(7) == 0o002u32);
    assert(permission_bit(8) == 0o001u32);
    assert(s[1] == permission_char(mode, 0));
    assert(s[2] == permission_char(mode, 1));
    assert(s[3] == permission_char(mode, 2));
    assert(s[4] == permission_char(mode, 3));
    assert(s[5] == permission_char(mode, 4));
    assert(s[6] == permission_char(mode, 5));
    assert(s[7] == permission_char(mode, 6));
    assert(s[8] == permission_char(mode, 7));
    assert(s[9] == permission_char(mode, 8));
}

/// What a directory listing line holds: name, mode and size text.
pub open spec fn listing_view(e: (String, u32, String)) -> (Seq<char>, u32, Seq<char>) {
    (e.0@, e.1, e.2@)
}

/// The line of one file: permissions, name and size, separated by single spaces.
pub open spec fn listing_line(e: (Seq<char>, u32, Seq<char>)) -> Seq<char> {
    permission_string(e.1) + seq![' '] + e.0 + seq![' '] + e.2
}

/// Position `a` is listed before position `b`: by lowercased name, ties in the order
/// given (a stable sort by lowercased name).
pub open spec fn name_before(keys: Seq<Seq<char>>, a: int, b: int) -> bool {
    crate::text::lex_lt(keys[a], keys[b]) || (keys[a] == keys[b] && a < b)
}

/// `order` lists every position of `keys` once, by `name_before`.
pub open spec fn is_name_order(keys: Seq<Seq<char>>, order: Seq<int>) -> bool {
    &&& order.len() == keys.len()
    &&& forall|i: int| 0 <= i < order.len() ==> 0 <= #[trigger] order[i] < keys.len()
    &&& forall|i: int, j: int| 0 <= i < j < order.len() ==> name_before(keys, #[trigger] order[i], #[trigger] order[j])
}

/// The lowercased names.
pub open spec fn listing_keys(es: Seq<(Seq<char>, u32, Seq<char>)>) -> Seq<Seq<char>> {
    es.map_values(|e: (Seq<char>, u32, Seq<char>)| lowercased(e.0))
}

/// The listing text: the lines of the files in `order`, joined by newlines.
pub open spec fn listing_text(es: Seq<(Seq<char>, u32, Seq<char>)>, order: Seq<int>) -> Seq<char> {
    crate::text::join(order.map_values(|j: int| listing_line(es[j])), seq!['\n'])
}

proof fn lemma_name_before_order(keys: Seq<Seq<char>>, a: int, b: int, c: int)
    ensures
        a != b ==> (name_before(keys, a, b) || name_before(keys, b, a)),
        !(name_before(keys, a, b) && name_before(keys, b, a)),
        name_before(keys, a, b) && name_before(keys, b, c) ==> name_before(keys, a, c),
        !name_before(keys, a, a),
{
    crate::text::lemma_lex_lt_irreflexive(keys[a]);
    crate::text::lemma_lex_lt_irreflexive(keys[b]);
    if keys[a] != keys[b] {
        crate::text::lemma_lex_lt_total(keys[a], keys[b]);
    }
    if crate::text::lex_lt(keys[a], keys[b]) && crate::text::lex_lt(keys[b], keys[a]) {
        crate::text::lemma_lex_lt_transitive(keys[a], keys[b], keys[a]);
    }
    if name_before(keys, a, b) && name_before(keys, b, c) {
        if crate::text::lex_lt(keys[a], keys[b]) && crate::text::lex_lt(keys[b], keys[c]) {
            crate::text::lemma_lex_lt_transitive(keys[a], keys[b], keys[c]);
        }
    }
}

/// The listing of a directory: one line per file (permissions, name, size), sorted by
/// lowercased name with ties kept in the given order, joined by newlines. Each
/// element of `entries` is a file's name, mode and size text.
pub fn ls_preview_text(entries: &Vec<(String, u32, String)>) -> (r: String)
    ensures
        ({
            let es = entries@.map_values(|e: (String, u32, String)| listing_view(e));
            exists|order: Seq<int>|
                is_name_order(listing_keys(es), order) && r@ == listing_text(es, order)
        }),
{
    let ghost es = entries@.map_values(|e: (String, u32, String)| listing_view(e));
    let ghost keys = listing_keys(es);
    let n = entries.len();
    let mut key_chars: Vec<Vec<char>> = Vec::new();
    let mut j: usize = 0;
    while j < n
        invariant
            j <= n == entries.len(),
            es == entries@.map_values(|e: (String, u32, String)| listing_view(e)),
            keys == listing_keys(es),
            key_chars.len() == j,
            forall|k: int| 0 <= k < j ==> (#[trigger] key_chars@[k])@ == keys[k],
        decreases n - j,
    {
        let lowered = to_lowercase(entries[j].0.as_str());
        key_chars.push(chars_of(lowered.as_str()));
        j = j + 1;
    }
    let mut order: Vec<usize> = Vec::new();
    let mut i: usize = 0;
    while i < n
        invariant
            i <= n == entries.len() == key_chars.len(),
            keys.len() == n,
            forall|k: int| 0 <= k < n ==> (#[trigger] key_chars@[k])@ == keys[k],
            order.len() == i,
            forall|a: int| 0 <= a < i ==> (#[trigger] order@[a]) < i,
            forall|a: int, b: int| 0 <= a < b < i ==> name_before(keys, #[trigger] order@[a] as int, #[trigger] order@[b] as int),
        decreases n - i,
    {
        let mut p: usize = 0;
        while p < order.len() && !(crate::text::lex_less(&key_chars[i], &key_chars[order[p]]))
            invariant
                p <= order.len() == i < n == key_chars.len(),
                forall|a: int| 0 <= a < i ==> (#[trigger] order@[a]) < i,
                forall|k: int| 0 <= k < n ==> (#[trigger] key_chars@[k])@ == keys[k],
                forall|a: int| 0 <= a < p ==> !crate::text::lex_lt(keys[i as int], keys[#[trigger] order@[a] as int]),
            decreases order.len() - p,
        {
            p = p + 1;
        }
        let ghost before = order@;
        proof {
            assert forall|a: int| 0 <= a < p implies name_before(keys, #[trigger] before[a] as int, i as int) by {
                lemma_name_before_order(keys, before[a] as int, i as int, i as int);
                assert(before[a] < i);
            }
            if p < before.len() {
                assert(crate::text::lex_lt(keys[i as int], keys[before[p as int] as int]));
                assert forall|a: int| p <= a < before.len() implies name_before(keys, i as int, #[trigger] before[a] as int) by {
                    if a > p {
                        lemma_name_before_order(keys, i as int, before[p as int] as int, before[a] as int);
                    }
                }
            }
        }
        order.insert(p, i);
        proof {
            before.insert_ensures(p as int, i);
            let after = order@;
            assert forall|a: int, b: int| 0 <= a < b < i + 1 implies name_before(keys, #[trigger] after[a] as int, #[trigger] after[b] as int) by {
                if b < p {
                } else if b == p {
                } else if a < p {
                    assert(after[b] == before[b - 1]);
                    lemma_name_before_order(keys, before[a] as int, i as int, before[b - 1] as int);
                } else if a == p {
                    assert(after[b] == before[b - 1]);
                } else {
                    assert(after[a] == before[a - 1]);
                    assert(after[b] == before[b - 1]);
                }
            }
            assert forall|a: int| 0 <= a < i + 1 implies (#[trigger] after[a]) < i + 1 by {
                if a < p {
                } else if a > p {
                    assert(after[a] == before[a - 1]);
                }
            }
        }
        i = i + 1;
    }
    let ghost ord = order@.map_values(|x: usize| x as int);
    proof {
        assert(is_name_order(keys, ord)) by {
            assert forall|a: int, b: int| 0 <= a < b < ord.len() implies name_before(keys, #[trigger] ord[a], #[trigger] ord[b]) by {
                assert(name_before(keys, order@[a] as int, order@[b] as int));
            }
        }
    }
    let mut lines: Vec<String> = Vec::new();
    let mut k: usize = 0;
    while k < n
        invariant
            k <= n == order.len() == entries.len(),
            es == entries@.map_values(|e: (String, u32, String)| listing_view(e)),
            ord == order@.map_values(|x: usize| x as int),
            forall|a: int| 0 <= a < n ==> (#[trigger] order@[a]) < n,
            lines.deep_view() == ord.take(k as int).map_values(|x: int| listing_line(es[x])),
        decreases n - k,
    {
        let e = &entries[order[k]];
        let mut line = format_permissions(e.1);
        push_char(&mut line, ' ');
        append_str(&mut line, e.0.as_str());
        push_char(&mut line, ' ');
        append_str(&mut line, e.2.as_str());
        let ghost before = lines.deep_view();
        lines.push(line);
        proof {
            assert(es[order@[k as int] as int] == listing_view(entries@[order@[k as int] as int]));
            assert(line@ =~= listing_line(es[ord[k as int]]));
            assert(lines.deep_view() =~= before.push(line@));
            assert(ord.take(k + 1) =~= ord.take(k as int).push(ord[k as int]));
        }
        k = k + 1;
    }
    assert(ord.take(k as int) =~= ord);
    proof {
        reveal_strlit("\n");
        assert("\n"@ =~= seq!['\n']);
    }
    let r = crate::text::join_strings(&lines, "\n");
    assert(is_name_order(listing_keys(es), ord) && r@ == listing_text(es, ord));
    r
}

/// Law: a directory listing has one order only: two orders of the same names by
/// `name_before` are equal, so `ls_preview_text` gives one text for its entries.
pub proof fn lemma_name_order_unique(keys: Seq<Seq<char>>, a: Seq<int>, b: Seq<int>)
    requires
        is_name_order(keys, a),
        is_name_order(keys, b),
    ensures
        a == b,
{
    lemma_name_order_covers(keys, a);
    lemma_name_order_covers(keys, b);
    lemma_name_order_prefix(keys, a, b, a.len() as int);
    assert(a =~= b);
}

proof fn lemma_name_order_covers(keys: Seq<Seq<char>>, order: Seq<int>)
    requires
        is_name_order(keys, order),
    ensures
        forall|x: int| 0 <= x < keys.len() ==> order.contains(x),
{
    assert forall|i: int, j: int| 0 <= i < order.len() && 0 <= j < order.len() && i != j implies order[i]
        != order[j] by {
        lemma_name_before_order(keys, order[i], order[j], order[i]);
        if i < j {
            assert(name_before(keys, order[i], order[j]));
        } else {
            assert(name_before(keys, order[j], order[i]));
        }
    }
    assert(order.no_duplicates());
    order.unique_seq_to_set();
    let r = vstd::set_lib::set_int_range(0, keys.len() as int);
    vstd::set_lib::lemma_int_range(0, keys.len() as int);
    assert forall|x: int| order.to_set().contains(x) implies r.contains(x) by {
        let i = choose|i: int| 0 <= i < order.len() && order[i] == x;
    }
    assert(order.to_set().subset_of(r));
    vstd::set_lib::lemma_subset_equality(order.to_set(), r);
    assert forall|x: int| 0 <= x < keys.len() implies order.contains(x) by {
        assert(r.contains(x));
        assert(order.to_set().contains(x));
    }
}

proof fn lemma_name_order_prefix(keys: Seq<Seq<char>>, a: Seq<int>, b: Seq<int>, n: int)
    requires
        is_name_order(keys, a),
        is_name_order(keys, b),
        forall|x: int| 0 <= x < keys.len() ==> a.contains(x) && b.contains(x),
        0 <= n <= a.len(),
    ensures
        forall|i: int| 0 <= i < n ==> a[i] == b[i],
    decreases n,
{
    if n > 0 {
        lemma_name_order_prefix(keys, a, b, n - 1);
        let i = n - 1;
        if a[i] != b[i] {
            assert(0 <= a[i] < keys.len());
            assert(0 <= b[i] < keys.len());
            assert(b.contains(a[i]));
            assert(a.contains(b[i]));
            let j = choose|j: int| 0 <= j < b.len() && b[j] == a[i];
            let k = choose|k: int| 0 <= k < a.len() && a[k] == b[i];
            lemma_name_before_order(keys, a[i], b[i], a[i]);
            lemma_name_before_order(keys, b[i], a[i], b[i]);
            if j < i {
                assert(a[j] == b[j]);
                assert(name_before(keys, a[j], a[i]));
            }
            if k < i {
                assert(a[k] == b[k]);
                assert(name_before(keys, b[k], b[i]));
            }
            assert(name_before(keys, b[i], b[j]));
            assert(name_before(keys, a[i], a[k]));
        }
    }
}

proof fn lemma_ssh_read_same_after(x: Seq<Seq<char>>, y: Seq<Seq<char>>, r: Seq<Seq<char>>)
    requires
        ssh_read(x) == ssh_read(y),
    ensures
        ssh_read(x + r) == ssh_read(y + r),
    decreases r.len(),
{
    if r.len() == 0 {
        assert(x + r =~= x);
        assert(y + r =~= y);
    } else {
        lemma_ssh_read_same_after(x, y, r.drop_last());
        assert((x + r).drop_last() =~= x + r.drop_last());
        assert((y + r).drop_last() =~= y + r.drop_last());
        assert((x + r).last() == r.last());
        assert((y + r).last() == r.last());
    }
}

/// Law: a blank line changes nothing in a configuration: inserting one after any
/// complete line (or at the start) gives the same hosts, with the same descriptions;
/// a comment followed by a blank line still describes the next host.
pub proof fn lemma_ssh_blank_line_ignored(a: Seq<char>, b: Seq<char>)
    requires
        a.len() == 0 || a.last() == '\n',
    ensures
        ssh_hosts_of(a + seq!['\n'] + b) == ssh_hosts_of(a + b),
        ssh_read(lines_of(a + seq!['\n'] + b)) == ssh_read(lines_of(a + b)),
{
    crate::text::lemma_lines_of_blank_line(a, b);
    let front = crate::text::split_on(a, '\n').drop_last().map_values(
        |l: Seq<char>| crate::text::strip_cr(l),
    );
    let blank = Seq::<char>::empty();
    let with_blank = front.push(blank);
    assert(with_blank.drop_last() =~= front);
    assert(trim(blank).len() == 0);
    assert(ssh_read(with_blank) == ssh_step(ssh_read(front), blank));
    assert(ssh_read(with_blank) == ssh_read(front));
    lemma_ssh_read_same_after(with_blank, front, lines_of(b));
}

/// An alias as a host can have it: not empty, not `*`, without whitespace.
pub open spec fn usable_alias(a: Seq<char>) -> bool {
    &&& a.len() > 0
    &&& a != seq!['*']
    &&& forall|j: int| 0 <= j < a.len() ==> !crate::text::is_ws(#[trigger] a[j])
}

/// Law: every host that a configuration defines has a usable alias; `Host *` and a
/// bare `Host` define none.
pub proof fn lemma_ssh_aliases_usable(content: Seq<char>)
    ensures
        forall|i: int|
            0 <= i < ssh_hosts_of(content).len() ==> usable_alias(
                (#[trigger] ssh_hosts_of(content)[i]).alias,
            ),
{
    lemma_ssh_read_aliases(lines_of(content));
}

proof fn lemma_ssh_read_aliases(ls: Seq<Seq<char>>)
    ensures
        forall|i: int|
            0 <= i < ssh_read(ls).hosts.len() ==> usable_alias(
                (#[trigger] ssh_read(ls).hosts[i]).alias,
            ),
    decreases ls.len(),
{
    if ls.len() > 0 {
        lemma_ssh_read_aliases(ls.drop_last());
        let line = trim(ls.last());
        crate::text::lemma_words_are_words(line);
        let prev = ssh_read(ls.drop_last()).hosts;
        let now = ssh_read(ls).hosts;
        assert forall|i: int| 0 <= i < now.len() implies usable_alias(#[trigger] now[i].alias) by {
            if i < prev.len() {
                assert(now[i].alias == prev[i].alias);
            } else {
                let ws = words(line);
                assert(now[i].alias == ws[1]);
                assert(ws[1].len() > 0);
            }
        }
    }
}

/// Law: every running session is listed, as a running session: either as the
/// session of a directory of that base name or as an entry of its own.
pub proof fn lemma_every_running_session_listed(
    dirs: Seq<(Seq<char>, Seq<char>, Option<Seq<char>>)>,
    active: Seq<Seq<char>>,
    s: Seq<char>,
)
    requires
        active.contains(s),
    ensures
        exists|i: int|
            0 <= i < tmux_entries_of(dirs, active).len() && (#[trigger] tmux_entries_of(
                dirs,
                active,
            )[i]).session_name == s && tmux_entries_of(dirs, active)[i].is_active,
{
    let names = dirs.map_values(|d: (Seq<char>, Seq<char>, Option<Seq<char>>)| d.1);
    let first = dirs.map_values(
        |d: (Seq<char>, Seq<char>, Option<Seq<char>>)| dir_entry(d, active),
    );
    let pred = |t: Seq<char>| !names.contains(t);
    let rest = active.filter(pred).map_values(|t: Seq<char>| session_entry(t));
    let all = tmux_entries_of(dirs, active);
    assert(all == first + rest);
    if names.contains(s) {
        let j = choose|j: int| 0 <= j < names.len() && names[j] == s;
        assert(all[j] == first[j]);
    } else {
        let k = choose|k: int| 0 <= k < active.len() && active[k] == s;
        active.lemma_filter_contains(pred, k);
        let f = active.filter(pred);
        let m = choose|m: int| 0 <= m < f.len() && f[m] == s;
        assert(all[first.len() + m] == rest[m]);
    }
}

proof fn lemma_last_component_in(pieces: Seq<Seq<char>>)
    ensures
        last_component(pieces) matches Some(c) ==> pieces.contains(c),
    decreases pieces.len(),
{
    if pieces.len() > 0 {
        lemma_last_component_in(pieces.drop_last());
        if let Some(c) = last_component(pieces.drop_last()) {
            let k = choose|k: int| 0 <= k < pieces.drop_last().len() && pieces.drop_last()[k] == c;
            assert(pieces[k] == c);
        }
        assert(pieces[pieces.len() - 1] == pieces.last());
    }
}

/// Law: a base name holds no `'/'`.
pub proof fn lemma_basename_has_no_slash(path: Seq<char>)
    ensures
        crate::text::lacks(basename_of(path), '/'),
{
    let pieces = crate::text::split_on(path, '/');
    crate::text::lemma_split_on_pieces_lack(path, '/');
    lemma_last_component_in(pieces);
    if let Some(c) = last_component(pieces) {
        let k = choose|k: int| 0 <= k < pieces.len() && pieces[k] == c;
        assert(crate::text::lacks(pieces[k], '/'));
    }
}

} // verus!
