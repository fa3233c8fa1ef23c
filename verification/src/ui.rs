//! The picker's state and how keys change it: the query, the selection among the
//! matching entries, the status line, the preview pane and the color variant; and
//! the arithmetic of the list window.
use vstd::prelude::*;

use crate::history::{accesses_of, recorded, History};
use crate::model::{status_label_view, Entry};
use crate::search::{
    filtered_matches, listed_matches, match_views, matches_in_order, SearchMatch,
};
use crate::text::{
    append_str, chars_of, is_whitespace, is_ws, lines_of, push_char, split_lines, str_eq,
    string_of_range, to_owned_string, trim, trim_end, trim_end_str, trim_str,
};

verus! {

/// What the picker hands back when an entry is chosen.
pub enum UiAction {
    /// Open the SSH host of this alias.
    LaunchSsh(String),
    /// Open the container of this name.
    LaunchDocker(String),
    /// Open the tmux session of this name, for this directory if any.
    LaunchTmux(String, Option<String>),
}

/// The kind of a status message.
pub enum StatusKind {
    Success,
    Warning,
    Error,
}

/// A message shown in place of the prompt.
pub struct StatusMessage {
    pub text: String,
    pub kind: StatusKind,
}

/// The picker's state.
pub struct App {
    pub entries: Vec<Entry>,
    pub query: String,
    pub selected: usize,
    pub status_message: Option<StatusMessage>,
    pub preview_expanded: bool,
    pub history: History,
    pub color_variant: String,
}

/// `"dark"`
pub open spec fn dark() -> Seq<char> {
    seq!['d', 'a', 'r', 'k']
}

/// `"light"`
pub open spec fn light() -> Seq<char> {
    seq!['l', 'i', 'g', 'h', 't']
}

/// The action that choosing an entry asks for.
pub open spec fn action_of(e: Entry) -> UiAction {
    match e {
        Entry::Tmux(session) => UiAction::LaunchTmux(session.session_name, session.full_path),
        Entry::Ssh(host) => UiAction::LaunchSsh(host.alias),
        Entry::Docker(container) => UiAction::LaunchDocker(container.name),
    }
}

/// The action as plain text: kind, name and directory.
pub open spec fn action_view(a: UiAction) -> (int, Seq<char>, Option<Seq<char>>) {
    match a {
        UiAction::LaunchSsh(n) => (0, n@, None),
        UiAction::LaunchDocker(n) => (1, n@, None),
        UiAction::LaunchTmux(n, p) => (
            2,
            n@,
            match p {
                Some(q) => Some(q@),
                None => None,
            },
        ),
    }
}

/// The text that copying the selected entry puts on the clipboard: the hostname of an
/// SSH host that has one, the directory of a tmux entry that has one.
pub open spec fn copy_text_of(e: Entry) -> Option<Seq<char>> {
    match e {
        Entry::Ssh(host) => if host.hostname@.len() > 0 {
            Some(host.hostname@)
        } else {
            None
        },
        Entry::Tmux(session) => match session.full_path {
            Some(p) => Some(p@),
            None => None,
        },
        Entry::Docker(_) => None,
    }
}

proof fn lemma_matches_len(entries: Seq<Entry>, query: Seq<char>, scores: Seq<i64>, n: int)
    requires
        0 <= n,
    ensures
        matches_in_order(entries, query, scores, n).len() <= n,
    decreases n,
{
    if n > 0 {
        lemma_matches_len(entries, query, scores, n - 1);
    }
}

impl App {
    /// The matching entries, in listing order, for history scores `scores`.
    pub open spec fn matches(self, scores: Seq<i64>) -> Seq<(usize, i64, Seq<usize>)> {
        listed_matches(self.entries@, self.query@, scores)
    }

    /// How many entries match.
    pub open spec fn match_count(self, scores: Seq<i64>) -> int {
        self.matches(scores).len() as int
    }

    /// The position of the entry of the selected match, if a match is selected.
    pub open spec fn selected_index(self, scores: Seq<i64>) -> Option<int> {
        let ms = self.matches(scores);
        if self.selected < ms.len() {
            Some(ms[self.selected as int].0 as int)
        } else {
            None
        }
    }

    /// What copying would put on the clipboard.
    pub open spec fn copy_text(self, scores: Seq<i64>) -> Option<Seq<char>> {
        match self.selected_index(scores) {
            Some(i) => copy_text_of(self.entries@[i]),
            None => None,
        }
    }

    /// The history after choosing entry `i` at `now`.
    pub open spec fn history_after_choosing(self, i: int, now: u64) -> Map<Seq<char>, Seq<u64>> {
        let key = self.entries@[i].history_key_view();
        self.history@.insert(key, recorded(accesses_of(self.history@, key), now))
    }

    /// The selection lies within the entries, and moving it by a page cannot overflow.
    pub open spec fn wf(self) -> bool {
        &&& self.entries.len() <= usize::MAX - 5
        &&& self.selected <= self.entries.len()
    }

    /// A picker over `entries`, with an empty query, the first match selected, no
    /// status message, the preview closed and the dark colors.
    pub fn new(entries: Vec<Entry>, history: History) -> (r: App)
        ensures
            r.entries == entries,
            r.query@ == Seq::<char>::empty(),
            r.selected == 0,
            r.status_message is None,
            !r.preview_expanded,
            r.history == history,
            r.color_variant@ == dark(),
    {
        proof {
            reveal_strlit("dark");
            assert("dark"@ =~= dark());
        }
        App {
            entries,
            query: String::new(),
            selected: 0,
            status_message: None,
            preview_expanded: false,
            history,
            color_variant: to_owned_string("dark"),
        }
    }

    /// Sets the color variant: `"light"` where `color` trimmed is `light`, `"dark"`
    /// otherwise.
    pub fn color(self, color: &str) -> (r: App)
        ensures
            r.color_variant@ == (if trim(color@) == light() {
                light()
            } else {
                dark()
            }),
            r == (App { color_variant: r.color_variant, ..self }),
    {
        proof {
            reveal_strlit("dark");
            reveal_strlit("light");
            assert("dark"@ =~= dark());
            assert("light"@ =~= light());
        }
        let trimmed = trim_str(color);
        let variant = if str_eq(trimmed.as_str(), "light") {
            to_owned_string("light")
        } else {
            to_owned_string("dark")
        };
        App { color_variant: variant, ..self }
    }

    /// The matching entries in listing order.
    pub fn filtered_matches(&self, scores: &Vec<i64>) -> (r: Vec<SearchMatch>)
        requires
            scores.len() == self.entries.len(),
        ensures
            match_views(r@) == self.matches(scores@),
            crate::search::same_matches(
                match_views(r@),
                matches_in_order(self.entries@, self.query@, scores@, self.entries@.len() as int),
            ),
            forall|i: int| 0 <= i < r.len() ==> (#[trigger] r@[i]).index < self.entries.len(),
    {
        filtered_matches(&self.entries, self.query.as_str(), scores)
    }

    fn match_count_exec(&self, scores: &Vec<i64>) -> (r: usize)
        requires
            scores.len() == self.entries.len(),
        ensures
            r == self.match_count(scores@),
            r <= self.entries.len(),
    {
        let m = self.filtered_matches(scores);
        proof {
            lemma_matches_len(self.entries@, self.query@, scores@, self.entries@.len() as int);
        }
        m.len()
    }

    /// Keeps the selection on a match: the last one where it lies beyond them, the
    /// first where there are none.
    pub fn clamp_selection(&mut self, scores: &Vec<i64>)
        requires
            scores.len() == old(self).entries.len(),
        ensures
            old(self).match_count(scores@) <= old(self).entries.len(),
            final(self).selected == clamped_selection(old(self).selected, old(self).match_count(scores@)),
            final(self).selected <= old(self).selected,
            *final(self) == (App { selected: final(self).selected, ..*old(self) }),
    {
        let len = self.match_count_exec(scores);
        if len == 0 {
            self.selected = 0;
        } else if self.selected >= len {
            self.selected = len - 1;
        }
    }

    /// Moves the selection one towards the first match.
    pub fn move_up(&mut self)
        ensures
            *final(self) == (App {
                selected: (if old(self).selected > 0 {
                    old(self).selected - 1
                } else {
                    0
                }) as usize,
                ..*old(self)
            }),
    {
        self.selected = self.selected.saturating_sub(1);
    }

    /// Moves the selection `count` towards the first match, stopping at it.
    pub fn move_up_by(&mut self, count: usize)
        ensures
            *final(self) == (App {
                selected: (if old(self).selected >= count {
                    old(self).selected - count
                } else {
                    0
                }) as usize,
                ..*old(self)
            }),
    {
        self.selected = self.selected.saturating_sub(count);
    }

    /// Moves the selection one towards the last match, if there is one further.
    pub fn move_down(&mut self, scores: &Vec<i64>)
        requires
            scores.len() == old(self).entries.len(),
            old(self).selected < usize::MAX,
        ensures
            old(self).match_count(scores@) <= old(self).entries.len(),
            *final(self) == (App {
                selected: (if old(self).selected + 1 < old(self).match_count(scores@) {
                    old(self).selected + 1
                } else {
                    old(self).selected as int
                }) as usize,
                ..*old(self)
            }),
    {
        let len = self.match_count_exec(scores);
        if self.selected + 1 < len {
            self.selected = self.selected + 1;
        }
    }

    /// Moves the selection `count` towards the last match, stopping at it; nothing
    /// changes where nothing matches.
    pub fn move_down_by(&mut self, count: usize, scores: &Vec<i64>)
        requires
            scores.len() == old(self).entries.len(),
            old(self).selected + count <= usize::MAX,
        ensures
            old(self).match_count(scores@) <= old(self).entries.len(),
            *final(self) == (App {
                selected: (if old(self).match_count(scores@) == 0 {
                    old(self).selected as int
                } else if old(self).selected + count < old(self).match_count(scores@) - 1 {
                    old(self).selected + count
                } else {
                    old(self).match_count(scores@) - 1
                }) as usize,
                ..*old(self)
            }),
    {
        let len = self.match_count_exec(scores);
        if len > 0 {
            let target = self.selected + count;
            self.selected = if target < len - 1 {
                target
            } else {
                len - 1
            };
        }
    }

    /// The action of the selected match, recording an access to its entry at `now`;
    /// `None`, with nothing changed, where no match is selected.
    pub fn selected_action(&mut self, scores: &Vec<i64>, now: u64) -> (r: Option<UiAction>)
        requires
            scores.len() == old(self).entries.len(),
        ensures
            match old(self).selected_index(scores@) {
                Some(i) => {
                    &&& r matches Some(a) && action_view(a) == action_view(
                        action_of(old(self).entries@[i]),
                    )
                    &&& final(self).history@ == old(self).history_after_choosing(i, now)
                    &&& final(self).entries == old(self).entries
                    &&& final(self).query == old(self).query
                    &&& final(self).selected == old(self).selected
                    &&& final(self).status_message == old(self).status_message
                    &&& final(self).preview_expanded == old(self).preview_expanded
                    &&& final(self).color_variant == old(self).color_variant
                },
                None => r is None && *final(self) == *old(self),
            },
    {
        let filtered = self.filtered_matches(scores);
        if self.selected >= filtered.len() {
            return None;
        }
        let ghost ms = self.matches(scores@);
        let index = filtered[self.selected].index;
        let entry = &self.entries[index];
        let key = entry.history_key();
        let action = match entry {
            Entry::Tmux(session) => UiAction::LaunchTmux(
                session.session_name.clone(),
                match &session.full_path {
                    Some(p) => Some(p.clone()),
                    None => None,
                },
            ),
            Entry::Ssh(host) => UiAction::LaunchSsh(host.alias.clone()),
            Entry::Docker(container) => UiAction::LaunchDocker(container.name.clone()),
        };
        self.history.record_access(key.as_str(), now);
        proof {
            let k = self.selected as int;
            assert(match_views(filtered@)[k] == filtered@[k]@);
        }
        Some(action)
    }

    /// What copying the selected match puts on the clipboard, if anything.
    pub fn selected_entry(&self, scores: &Vec<i64>) -> (r: Option<String>)
        requires
            scores.len() == self.entries.len(),
        ensures
            match self.copy_text(scores@) {
                Some(t) => r matches Some(s) && s@ == t,
                None => r is None,
            },
    {
        let filtered = self.filtered_matches(scores);
        if self.selected >= filtered.len() {
            return None;
        }
        proof {
            let k = self.selected as int;
            assert(match_views(filtered@)[k] == filtered@[k]@);
        }
        match &self.entries[filtered[self.selected].index] {
            Entry::Ssh(host) => {
                if chars_of(host.hostname.as_str()).len() > 0 {
                    Some(host.hostname.clone())
                } else {
                    None
                }
            },
            Entry::Tmux(session) => match &session.full_path {
                Some(p) => Some(p.clone()),
                None => None,
            },
            _ => None,
        }
    }

    /// Opens or closes the preview pane and clears the status message.
    pub fn toggle_preview(&mut self)
        ensures
            *final(self) == (App {
                preview_expanded: !old(self).preview_expanded,
                status_message: None,
                ..*old(self)
            }),
    {
        self.preview_expanded = !self.preview_expanded;
        self.status_message = None;
    }
}

/// The selection kept on one of `count` matches: the last where it lies beyond them,
/// the first where there are none.
pub open spec fn clamped_selection(selected: usize, count: int) -> usize {
    if count == 0 {
        0
    } else if selected >= count {
        (count - 1) as usize
    } else {
        selected
    }
}

/// The variant that switching the colors writes and takes: `"light"` after `"dark"`,
/// `"dark"` after `"light"`, nothing after any other.
pub open spec fn switched_variant(v: Seq<char>) -> Option<Seq<char>> {
    if v == dark() {
        Some(light())
    } else if v == light() {
        Some(dark())
    } else {
        None
    }
}

/// The color variant that switching goes to from `variant`.
pub fn switched_color_variant(variant: &str) -> (r: Option<String>)
    ensures
        match switched_variant(variant@) {
            Some(v) => r matches Some(s) && s@ == v,
            None => r is None,
        },
{
    proof {
        reveal_strlit("dark");
        reveal_strlit("light");
        assert("dark"@ =~= dark());
        assert("light"@ =~= light());
    }
    if str_eq(variant, "dark") {
        Some(to_owned_string("light"))
    } else if str_eq(variant, "light") {
        Some(to_owned_string("dark"))
    } else {
        None
    }
}

/// Law: switching the colors twice comes back to the variant one started from.
pub proof fn lemma_switch_twice(v: Seq<char>)
    requires
        switched_variant(v) is Some,
    ensures
        switched_variant(switched_variant(v)->0) == Some(v),
{
    assert(dark() != light());
}

// ---------------------------------------------------------------------------
// Keys
// ---------------------------------------------------------------------------

/// The key codes that the picker tells apart.
pub enum KeyCode {
    Char(char),
    Esc,
    Enter,
    Up,
    Down,
    PageUp,
    PageDown,
    Backspace,
    Other,
}

/// A key press: its code and whether Control was held.
pub struct KeyInput {
    pub code: KeyCode,
    pub ctrl: bool,
}

/// What a key press asks for.
pub enum KeyCommand {
    Quit,
    Choose,
    ClearQuery,
    DeleteWord,
    SwitchTheme,
    Copy,
    TogglePreview,
    MoveDown,
    MoveDownPage,
    MoveUp,
    MoveUpPage,
    Backspace,
    Insert(char),
    Ignore,
}

/// The keymap: Ctrl-C, Esc, and `q` on an empty query quit; Enter chooses; Ctrl-U
/// clears the query; Ctrl-W deletes the last word; Ctrl-T switches the colors;
/// Ctrl-Y copies; Ctrl-S toggles the preview; Up, Ctrl-K and PageUp (by five) move
/// towards the last match; Down, Ctrl-J and PageDown (by five) towards the first;
/// Backspace deletes a character; any other character is typed into the query.
pub open spec fn key_command(key: KeyInput, query_empty: bool) -> KeyCommand {
    match key.code {
        KeyCode::Char(c) => if c == 'c' && key.ctrl {
            KeyCommand::Quit
        } else if c == 'q' && query_empty {
            KeyCommand::Quit
        } else if c == 'u' && key.ctrl {
            KeyCommand::ClearQuery
        } else if c == 'w' && key.ctrl {
            KeyCommand::DeleteWord
        } else if c == 't' && key.ctrl {
            KeyCommand::SwitchTheme
        } else if c == 'y' && key.ctrl {
            KeyCommand::Copy
        } else if (c == 's' || c == 'S') && key.ctrl {
            KeyCommand::TogglePreview
        } else if c == 'k' && key.ctrl {
            KeyCommand::MoveDown
        } else if c == 'j' && key.ctrl {
            KeyCommand::MoveUp
        } else {
            KeyCommand::Insert(c)
        },
        KeyCode::Esc => KeyCommand::Quit,
        KeyCode::Enter => KeyCommand::Choose,
        KeyCode::Up => KeyCommand::MoveDown,
        KeyCode::PageUp => KeyCommand::MoveDownPage,
        KeyCode::Down => KeyCommand::MoveUp,
        KeyCode::PageDown => KeyCommand::MoveUpPage,
        KeyCode::Backspace => KeyCommand::Backspace,
        KeyCode::Other => KeyCommand::Ignore,
    }
}

/// What a key press asks for.
pub fn classify_key(key: &KeyInput, query_empty: bool) -> (r: KeyCommand)
    ensures
        r == key_command(*key, query_empty),
{
    match key.code {
        KeyCode::Char(c) => if c == 'c' && key.ctrl {
            KeyCommand::Quit
        } else if c == 'q' && query_empty {
            KeyCommand::Quit
        } else if c == 'u' && key.ctrl {
            KeyCommand::ClearQuery
        } else if c == 'w' && key.ctrl {
            KeyCommand::DeleteWord
        } else if c == 't' && key.ctrl {
            KeyCommand::SwitchTheme
        } else if c == 'y' && key.ctrl {
            KeyCommand::Copy
        } else if (c == 's' || c == 'S') && key.ctrl {
            KeyCommand::TogglePreview
        } else if c == 'k' && key.ctrl {
            KeyCommand::MoveDown
        } else if c == 'j' && key.ctrl {
            KeyCommand::MoveUp
        } else {
            KeyCommand::Insert(c)
        },
        KeyCode::Esc => KeyCommand::Quit,
        KeyCode::Enter => KeyCommand::Choose,
        KeyCode::Up => KeyCommand::MoveDown,
        KeyCode::PageUp => KeyCommand::MoveDownPage,
        KeyCode::Down => KeyCommand::MoveUp,
        KeyCode::PageDown => KeyCommand::MoveUpPage,
        KeyCode::Backspace => KeyCommand::Backspace,
        KeyCode::Other => KeyCommand::Ignore,
    }
}

/// Law: Ctrl-K does what Up does and Ctrl-J what Down does, whatever the query: Up
/// and Ctrl-K give `MoveDown`, which `handle_key` carries out by moving the selection
/// to the next later match (the list is drawn bottom-up), and Down and Ctrl-J give
/// `MoveUp`, which moves it to the next earlier one.
pub proof fn lemma_ctrl_keys_follow_arrows(ctrl: bool, query_empty: bool)
    ensures
        key_command(KeyInput { code: KeyCode::Char('k'), ctrl: true }, query_empty) == key_command(
            KeyInput { code: KeyCode::Up, ctrl },
            query_empty,
        ),
        key_command(KeyInput { code: KeyCode::Char('j'), ctrl: true }, query_empty) == key_command(
            KeyInput { code: KeyCode::Down, ctrl },
            query_empty,
        ),
        key_command(KeyInput { code: KeyCode::Up, ctrl }, query_empty) is MoveDown,
        key_command(KeyInput { code: KeyCode::Down, ctrl }, query_empty) is MoveUp,
{
}

/// Law: choosing an entry opens the tmux session under the name that the entry is
/// known by in its running-session mark and its history key: a host's alias, a
/// container's name (not its id), a tmux entry's session name, with its directory.
pub proof fn lemma_action_opens_entry_name(e: Entry)
    ensures
        match e {
            Entry::Ssh(h) => {
                &&& action_view(action_of(e)) == (0int, h.alias@, None::<Seq<char>>)
                &&& e.history_key_view() == crate::model::ssh_key_prefix() + h.alias@
            },
            Entry::Docker(c) => {
                &&& action_view(action_of(e)) == (1int, c.name@, None::<Seq<char>>)
                &&& e.history_key_view() == crate::model::docker_key_prefix() + c.name@
            },
            Entry::Tmux(t) => {
                &&& action_view(action_of(e)).0 == 2
                &&& action_view(action_of(e)).1 == t.session_name@
                &&& action_view(action_of(e)).2 == match t.full_path {
                    Some(p) => Some(p@),
                    None => None::<Seq<char>>,
                }
            },
        },
{
}

/// What the caller is to do after a key press.
pub enum KeyAction {
    /// Keep going.
    Continue,
    /// Leave without choosing.
    Quit,
    /// Leave, opening this.
    Select(UiAction),
    /// Switch the color variant (write the new one, then take it).
    SwitchTheme,
    /// Put this text on the clipboard, then report with `App::copy_finished`.
    Copy(String),
}

/// `s` without trailing non-whitespace characters.
pub open spec fn strip_word_end(s: Seq<char>) -> Seq<char>
    decreases s.len(),
{
    if s.len() > 0 && !is_ws(s.last()) {
        strip_word_end(s.drop_last())
    } else {
        s
    }
}

/// The query after deleting its last word: trailing whitespace, then the
/// non-whitespace characters before it.
pub open spec fn without_last_word(s: Seq<char>) -> Seq<char> {
    strip_word_end(trim_end(s))
}

/// Deletes trailing whitespace, then the word before it.
pub fn delete_previous_word(query: &mut String)
    ensures
        final(query)@ == without_last_word(old(query)@),
{
    let cs = chars_of(query.as_str());
    let mut n = cs.len();
    assert(cs@.take(n as int) =~= cs@);
    while n > 0 && is_whitespace(cs[n - 1])
        invariant
            n <= cs.len(),
            cs@ == old(query)@,
            trim_end(cs@.take(n as int)) == trim_end(cs@),
        decreases n,
    {
        assert(cs@.take(n as int).drop_last() =~= cs@.take(n - 1));
        n = n - 1;
    }
    assert(trim_end(cs@) == cs@.take(n as int));
    while n > 0 && !is_whitespace(cs[n - 1])
        invariant
            n <= cs.len(),
            cs@ == old(query)@,
            strip_word_end(cs@.take(n as int)) == without_last_word(cs@),
        decreases n,
    {
        assert(cs@.take(n as int).drop_last() =~= cs@.take(n - 1));
        n = n - 1;
    }
    assert(cs@.subrange(0, n as int) =~= cs@.take(n as int));
    *query = string_of_range(&cs, 0, n);
}

/// Law: deleting the last word leaves a prefix of the query that is empty or ends in
/// whitespace.
pub proof fn lemma_without_last_word_prefix(s: Seq<char>)
    ensures
        without_last_word(s).is_prefix_of(s),
        without_last_word(s).len() == 0 || is_ws(without_last_word(s).last()),
{
    lemma_trim_end_prefix(s);
    lemma_strip_word_end_prefix(trim_end(s));
}

proof fn lemma_trim_end_prefix(s: Seq<char>)
    ensures
        trim_end(s).is_prefix_of(s),
    decreases s.len(),
{
    if s.len() > 0 && is_ws(s.last()) {
        lemma_trim_end_prefix(s.drop_last());
    }
}

proof fn lemma_strip_word_end_prefix(s: Seq<char>)
    ensures
        strip_word_end(s).is_prefix_of(s),
        strip_word_end(s).len() == 0 || is_ws(strip_word_end(s).last()),
    decreases s.len(),
{
    if s.len() > 0 && !is_ws(s.last()) {
        lemma_strip_word_end_prefix(s.drop_last());
    }
}

/// The warning shown where there is nothing to copy.
pub open spec fn copy_refused_text_view() -> Seq<char> {
    "Ctrl-Y only copies SSH entries with a hostname, and session full paths"@
}

/// `"Ctrl-Y only copies SSH entries with a hostname, and session full paths"`
pub fn copy_refused_text() -> (r: String)
    ensures
        r@ == copy_refused_text_view(),
{
    to_owned_string("Ctrl-Y only copies SSH entries with a hostname, and session full paths")
}

impl App {
    /// Reports how copying `copied` went: `Copied: <text>` where it worked,
    /// `Failed to copy: <error>` where it did not.
    pub fn copy_finished(&mut self, copied: &str, error: Option<String>)
        ensures
            ({
                let expected = match error {
                    None => ("Copied: "@ + copied@, 0int),
                    Some(e) => ("Failed to copy: "@ + e@, 2int),
                };
                final(self).status_message matches Some(m) && m.text@ == expected.0 && match m.kind {
                    StatusKind::Success => expected.1 == 0,
                    StatusKind::Warning => expected.1 == 1,
                    StatusKind::Error => expected.1 == 2,
                }
            }),
            *final(self) == (App { status_message: final(self).status_message, ..*old(self) }),
    {
        match error {
            None => {
                let mut text = to_owned_string("Copied: ");
                append_str(&mut text, copied);
                self.status_message = Some(StatusMessage { text, kind: StatusKind::Success });
            },
            Some(e) => {
                let mut text = to_owned_string("Failed to copy: ");
                append_str(&mut text, e.as_str());
                self.status_message = Some(StatusMessage { text, kind: StatusKind::Error });
            },
        }
    }
}

/// Handles one key press at time `now`, with `scores` the history scores of the
/// entries. Quitting, choosing, switching colors and copying are handed back; every
/// other key changes the state here: see `key_command` for the keymap.
pub fn handle_key(key: &KeyInput, app: &mut App, scores: &Vec<i64>, now: u64) -> (r: KeyAction)
    requires
        scores.len() == old(app).entries.len(),
        old(app).wf(),
    ensures
        final(app).wf(),
        final(app).entries == old(app).entries,
        match key_command(*key, old(app).query@.len() == 0) {
            KeyCommand::Quit => r is Quit && *final(app) == *old(app),
            KeyCommand::Choose => match old(app).selected_index(scores@) {
                Some(i) => {
                    &&& r matches KeyAction::Select(a) && action_view(a) == action_view(
                        action_of(old(app).entries@[i]),
                    )
                    &&& final(app).history@ == old(app).history_after_choosing(i, now)
                    &&& final(app).query == old(app).query
                    &&& final(app).selected == old(app).selected
                    &&& final(app).status_message == old(app).status_message
                    &&& final(app).preview_expanded == old(app).preview_expanded
                    &&& final(app).color_variant == old(app).color_variant
                },
                None => r is Continue && *final(app) == *old(app),
            },
            KeyCommand::SwitchTheme => r is SwitchTheme && *final(app) == *old(app),
            KeyCommand::Copy => match old(app).copy_text(scores@) {
                Some(t) => r matches KeyAction::Copy(s) && s@ == t && *final(app) == *old(app),
                None => {
                    &&& r is Continue
                    &&& *final(app) == (App {
                        status_message: final(app).status_message,
                        ..*old(app)
                    })
                    &&& final(app).status_message matches Some(m) && m.kind is Warning
                        && m.text@ == copy_refused_text_view()
                },
            },
            KeyCommand::ClearQuery => {
                &&& r is Continue
                &&& final(app).query@.len() == 0
                &&& *final(app) == (App {
                    query: final(app).query,
                    selected: clamped_selection(
                        old(app).selected,
                        (App { query: final(app).query, ..*old(app) }).match_count(scores@),
                    ),
                    ..*old(app)
                })
            },
            KeyCommand::DeleteWord => {
                &&& r is Continue
                &&& final(app).query@ == without_last_word(old(app).query@)
                &&& *final(app) == (App {
                    query: final(app).query,
                    selected: clamped_selection(
                        old(app).selected,
                        (App { query: final(app).query, ..*old(app) }).match_count(scores@),
                    ),
                    ..*old(app)
                })
            },
            KeyCommand::TogglePreview => r is Continue && *final(app) == (App {
                preview_expanded: !old(app).preview_expanded,
                status_message: None,
                ..*old(app)
            }),
            KeyCommand::MoveDown => r is Continue && *final(app) == (App {
                selected: (if old(app).selected + 1 < old(app).match_count(scores@) {
                    old(app).selected + 1
                } else {
                    old(app).selected as int
                }) as usize,
                ..*old(app)
            }),
            KeyCommand::MoveDownPage => r is Continue && *final(app) == (App {
                selected: (if old(app).match_count(scores@) == 0 {
                    old(app).selected as int
                } else if old(app).selected + 5 < old(app).match_count(scores@) - 1 {
                    old(app).selected + 5
                } else {
                    old(app).match_count(scores@) - 1
                }) as usize,
                ..*old(app)
            }),
            KeyCommand::MoveUp => r is Continue && *final(app) == (App {
                selected: (if old(app).selected > 0 {
                    old(app).selected - 1
                } else {
                    0
                }) as usize,
                ..*old(app)
            }),
            KeyCommand::MoveUpPage => r is Continue && *final(app) == (App {
                selected: (if old(app).selected >= 5 {
                    old(app).selected - 5
                } else {
                    0
                }) as usize,
                ..*old(app)
            }),
            KeyCommand::Backspace => {
                &&& r is Continue
                &&& final(app).query@ == (if old(app).query@.len() > 0 {
                    old(app).query@.drop_last()
                } else {
                    old(app).query@
                })
                &&& *final(app) == (App {
                    query: final(app).query,
                    selected: clamped_selection(
                        old(app).selected,
                        (App { query: final(app).query, ..*old(app) }).match_count(scores@),
                    ),
                    status_message: None,
                    ..*old(app)
                })
            },
            KeyCommand::Insert(c) => r is Continue && final(app).query@ == old(app).query@.push(c)
                && *final(app) == (App {
                query: final(app).query,
                selected: 0,
                status_message: None,
                ..*old(app)
            }),
            KeyCommand::Ignore => r is Continue && *final(app) == *old(app),
        },
{
    proof {
        lemma_matches_len(old(app).entries@, old(app).query@, scores@, old(app).entries@.len() as int);
    }
    let query_empty = chars_of(app.query.as_str()).len() == 0;
    match classify_key(key, query_empty) {
        KeyCommand::Quit => KeyAction::Quit,
        KeyCommand::Choose => match app.selected_action(scores, now) {
            Some(action) => KeyAction::Select(action),
            None => KeyAction::Continue,
        },
        KeyCommand::ClearQuery => {
            app.query = String::new();
            app.clamp_selection(scores);
            KeyAction::Continue
        },
        KeyCommand::DeleteWord => {
            delete_previous_word(&mut app.query);
            app.clamp_selection(scores);
            KeyAction::Continue
        },
        KeyCommand::SwitchTheme => KeyAction::SwitchTheme,
        KeyCommand::Copy => match app.selected_entry(scores) {
            Some(info) => KeyAction::Copy(info),
            None => {
                app.status_message = Some(
                    StatusMessage { text: copy_refused_text(), kind: StatusKind::Warning },
                );
                KeyAction::Continue
            },
        },
        KeyCommand::TogglePreview => {
            app.toggle_preview();
            KeyAction::Continue
        },
        KeyCommand::MoveDown => {
            app.move_down(scores);
            KeyAction::Continue
        },
        KeyCommand::MoveDownPage => {
            app.move_down_by(5, scores);
            KeyAction::Continue
        },
        KeyCommand::MoveUp => {
            app.move_up();
            KeyAction::Continue
        },
        KeyCommand::MoveUpPage => {
            app.move_up_by(5);
            KeyAction::Continue
        },
        KeyCommand::Backspace => {
            let cs = chars_of(app.query.as_str());
            if cs.len() > 0 {
                app.query = string_of_range(&cs, 0, cs.len() - 1);
                assert(cs@.subrange(0, cs.len() - 1) =~= cs@.drop_last());
            }
            app.clamp_selection(scores);
            app.status_message = None;
            KeyAction::Continue
        },
        KeyCommand::Insert(c) => {
            push_char(&mut app.query, c);
            app.selected = 0;
            app.status_message = None;
            KeyAction::Continue
        },
        KeyCommand::Ignore => KeyAction::Continue,
    }
}

// ---------------------------------------------------------------------------
// The list window
// ---------------------------------------------------------------------------

/// The rows the list takes: the area's height less two reserved rows, at most the
/// number of items (that number taken modulo 2^16, as a cast to `u16` does).
pub open spec fn list_height(area_height: u16, item_count: usize) -> int {
    let available: int = if area_height >= 2 {
        area_height - 2
    } else {
        0
    };
    let count = (item_count as u16) as int;
    if available < count {
        available
    } else {
        count
    }
}

/// The rows the list takes.
pub fn visible_list_height(area_height: u16, item_count: usize) -> (r: u16)
    ensures
        r == list_height(area_height, item_count),
{
    let available_rows = area_height.saturating_sub(2);
    let count = item_count as u16;
    if available_rows < count {
        available_rows
    } else {
        count
    }
}

/// The visual row of a list position: the list is drawn bottom-up, the first match
/// on the last row.
pub open spec fn flip_index(len: usize, i: usize) -> usize {
    let top = if len >= 1 {
        (len - 1) as usize
    } else {
        0usize
    };
    if top >= i {
        (top - i) as usize
    } else {
        0
    }
}

/// The visual row of list position `logical_index`.
pub fn logical_to_visual_index(len: usize, logical_index: usize) -> (r: usize)
    ensures
        r == flip_index(len, logical_index),
{
    len.saturating_sub(1).saturating_sub(logical_index)
}

/// The list position of visual row `visual_index`.
pub fn visual_to_logical_index(len: usize, visual_index: usize) -> (r: usize)
    ensures
        r == flip_index(len, visual_index),
{
    len.saturating_sub(1).saturating_sub(visual_index)
}

/// Law: within a list, turning a position into its visual row and back gives the
/// position again.
pub proof fn lemma_flip_index_round_trip(len: usize, i: usize)
    requires
        i < len,
    ensures
        flip_index(len, flip_index(len, i)) == i,
        flip_index(len, i) < len,
{
}

/// The visual rows shown: none where there is nothing to show or no room, all where
/// they fit, else `height` rows starting at the selected row, or the last `height`
/// rows where the selected row lies among them.
pub open spec fn window_of(len: usize, selected_visual: usize, height: usize) -> (usize, usize) {
    if len == 0 || height == 0 {
        (0, 0)
    } else if len <= height {
        (0, len)
    } else if selected_visual >= len - height {
        ((len - height) as usize, len)
    } else {
        (selected_visual, (selected_visual + height) as usize)
    }
}

/// The visual rows shown.
pub fn visible_visual_window(len: usize, selected_visual: usize, height: usize) -> (r:
    std::ops::Range<usize>)
    ensures
        (r.start, r.end) == window_of(len, selected_visual, height),
{
    if len == 0 || height == 0 {
        return 0..0;
    }
    if len <= height {
        return 0..len;
    }
    let bottom_start = len - height;
    if selected_visual >= bottom_start {
        return bottom_start..len;
    }
    selected_visual..selected_visual + height
}

/// Law: the window lies within the list, holds `min(len, height)` rows, and holds
/// the selected row whenever that row is in the list and there is room.
pub proof fn lemma_window_shows_selection(len: usize, selected_visual: usize, height: usize)
    ensures
        ({
            let w = window_of(len, selected_visual, height);
            &&& w.0 <= w.1 <= len
            &&& w.1 - w.0 == (if len <= height {
                len as int
            } else {
                height as int
            })
            &&& (selected_visual < len && height > 0) ==> w.0 <= selected_visual < w.1
        }),
{
}

/// `"-"` for an empty value, the value otherwise.
pub fn value_or_dash(value: &str) -> (r: &str)
    ensures
        r@ == (if value@.len() == 0 {
            seq!['-']
        } else {
            value@
        }),
{
    proof {
        reveal_strlit("-");
    }
    if chars_of(value).len() == 0 {
        "-"
    } else {
        value
    }
}

/// The character offset of field `k` in the fields joined by single spaces.
pub open spec fn field_offset(fields: Seq<Seq<char>>, k: int) -> int
    decreases k,
{
    if k <= 0 || fields.len() == 0 {
        0
    } else if k > fields.len() {
        field_offset(fields, fields.len() as int)
    } else {
        field_offset(fields, k - 1) + fields[k - 1].len() + 1
    }
}

/// The character offset of field `field_index` in the fields joined by single spaces.
pub fn search_field_offset(fields: &Vec<&str>, field_index: usize) -> (r: usize)
    requires
        field_offset(fields.deep_view(), field_index as int) <= usize::MAX,
    ensures
        r == field_offset(fields.deep_view(), field_index as int),
{
    let ghost fs = fields.deep_view();
    let end = if field_index < fields.len() {
        field_index
    } else {
        fields.len()
    };
    assert(field_offset(fs, field_index as int) == field_offset(fs, end as int));
    proof {
        lemma_field_offset_monotone(fs, end as int);
    }
    let mut total: usize = 0;
    let mut i: usize = 0;
    while i < end
        invariant
            i <= end <= fields.len(),
            fs == fields.deep_view(),
            field_offset(fs, end as int) <= usize::MAX,
            forall|a: int, b: int| 0 <= a <= b <= end ==> field_offset(fs, a) <= field_offset(fs, b),
            total == field_offset(fs, i as int),
        decreases end - i,
    {
        let n = chars_of(fields[i]).len();
        assert(field_offset(fs, i + 1) == field_offset(fs, i as int) + fs[i as int].len() + 1);
        total = total + n + 1;
        i = i + 1;
    }
    total
}

proof fn lemma_field_offset_monotone(fs: Seq<Seq<char>>, end: int)
    requires
        0 <= end <= fs.len(),
    ensures
        forall|a: int, b: int| 0 <= a <= b <= end ==> field_offset(fs, a) <= field_offset(fs, b),
    decreases end,
{
    if end > 0 {
        lemma_field_offset_monotone(fs, end - 1);
        assert(field_offset(fs, end) == field_offset(fs, end - 1) + fs[end - 1].len() + 1);
    }
}

/// For each character of `text`, whether its position plus `offset` is among the
/// matched positions.
pub fn highlight_mask(text: &str, matched: &Vec<usize>, offset: usize) -> (r: Vec<bool>)
    requires
        offset + text@.len() <= usize::MAX,
    ensures
        r@.len() == text@.len(),
        forall|i: int| 0 <= i < r@.len() ==> r@[i] == matched@.contains((i + offset) as usize),
{
    let cs = chars_of(text);
    let mut r: Vec<bool> = Vec::new();
    let mut i: usize = 0;
    while i < cs.len()
        invariant
            i <= cs.len() == text@.len(),
            offset + text@.len() <= usize::MAX,
            r@.len() == i,
            forall|k: int| 0 <= k < i ==> r@[k] == matched@.contains((k + offset) as usize),
        decreases cs.len() - i,
    {
        let target = i + offset;
        let mut found = false;
        let mut j: usize = 0;
        while j < matched.len()
            invariant
                j <= matched.len(),
                found == (exists|m: int| 0 <= m < j && matched@[m] == target),
            decreases matched.len() - j,
        {
            if matched[j] == target {
                found = true;
            }
            j = j + 1;
        }
        r.push(found);
        i = i + 1;
    }
    r
}

/// The name column width of a file listing line.
pub open spec fn name_width() -> int {
    24
}

/// The spaces after a file name: what fills the name to 24 characters, at least one.
pub fn name_padding(name: &str) -> (r: usize)
    ensures
        r == (if name@.len() + 1 < name_width() {
            name_width() - name@.len()
        } else {
            1
        }),
{
    let n = chars_of(name).len();
    let pad: usize = if n < 24 {
        24 - n
    } else {
        0
    };
    if pad < 1 {
        1
    } else {
        pad
    }
}

/// The first position of `c` in `s`, if any.
pub open spec fn first_index_of(s: Seq<char>, c: char) -> Option<int> {
    if exists|i: int| 0 <= i < s.len() && s[i] == c && forall|j: int| 0 <= j < i ==> s[j] != c {
        Some(choose|i: int| 0 <= i < s.len() && s[i] == c && forall|j: int| 0 <= j < i ==> s[j] != c)
    } else {
        None
    }
}

/// The last position of `c` in `s`, if any.
pub open spec fn last_index_of(s: Seq<char>, c: char) -> Option<int> {
    if exists|i: int| 0 <= i < s.len() && s[i] == c && forall|j: int| i < j < s.len() ==> s[j] != c {
        Some(choose|i: int| 0 <= i < s.len() && s[i] == c && forall|j: int| i < j < s.len() ==> s[j] != c)
    } else {
        None
    }
}

/// A file listing line cut into permissions, name and size: at its first space and,
/// in what follows, at its last space; `None` where either space is missing.
pub open spec fn preview_line_parts(line: Seq<char>) -> Option<(Seq<char>, Seq<char>, Seq<char>)> {
    match first_index_of(line, ' ') {
        None => None,
        Some(a) => {
            let rest = line.skip(a + 1);
            match last_index_of(rest, ' ') {
                None => None,
                Some(b) => Some((line.take(a), rest.take(b), rest.skip(b + 1))),
            }
        },
    }
}

/// Cuts a file listing line into permissions, name and size.
pub fn split_preview_line(line: &str) -> (r: Option<(String, String, String)>)
    ensures
        match preview_line_parts(line@) {
            Some(p) => r matches Some(q) && q.0@ == p.0 && q.1@ == p.1 && q.2@ == p.2,
            None => r is None,
        },
{
    let cs = chars_of(line);
    let mut a: usize = 0;
    while a < cs.len() && cs[a] != ' '
        invariant
            a <= cs.len(),
            cs@ == line@,
            forall|j: int| 0 <= j < a ==> cs@[j] != ' ',
        decreases cs.len() - a,
    {
        a = a + 1;
    }
    if a == cs.len() {
        assert(!exists|i: int| 0 <= i < line@.len() && line@[i] == ' ' && forall|j: int| 0 <= j < i ==> line@[j] != ' ');
        return None;
    }
    proof {
        let c = choose|i: int| 0 <= i < line@.len() && line@[i] == ' ' && forall|j: int| 0 <= j < i ==> line@[j] != ' ';
        assert(c == a as int) by {
            if c < a {
            } else if c > a {
            }
        }
    }
    let ghost rest = line@.skip(a + 1);
    let mut b: usize = cs.len();
    while b > a + 1 && cs[b - 1] != ' '
        invariant
            a + 1 <= b <= cs.len(),
            cs@ == line@,
            rest == line@.skip(a + 1),
            forall|j: int| b <= j < cs.len() ==> cs@[j] != ' ',
        decreases b,
    {
        b = b - 1;
    }
    if b == a + 1 {
        assert(!exists|i: int| 0 <= i < rest.len() && rest[i] == ' ' && forall|j: int| i < j < rest.len() ==> rest[j] != ' ') by {
            assert forall|i: int| 0 <= i < rest.len() implies rest[i] != ' ' by {
                assert(rest[i] == cs@[a + 1 + i]);
            }
        }
        return None;
    }
    let bi = b - 1 - (a + 1);
    proof {
        assert(rest[bi as int] == ' ');
        assert forall|j: int| bi < j < rest.len() implies rest[j] != ' ' by {
            assert(rest[j] == cs@[a + 1 + j]);
        }
        let c = choose|i: int| 0 <= i < rest.len() && rest[i] == ' ' && forall|j: int| i < j < rest.len() ==> rest[j] != ' ';
        assert(c == bi as int) by {
            if c < bi {
            } else if c > bi {
            }
        }
    }
    let permissions = string_of_range(&cs, 0, a);
    let name = string_of_range(&cs, a + 1, b - 1);
    let size = string_of_range(&cs, b, cs.len());
    assert(permissions@ =~= line@.take(a as int));
    assert(name@ =~= rest.take(bi as int));
    assert(size@ =~= rest.skip(bi + 1));
    Some((permissions, name, size))
}

/// The lines of a host's description without trailing whitespace, `"-"` where it
/// has none.
pub fn description_lines(description: &Option<String>) -> (r: Vec<String>)
    ensures
        r.deep_view() == lines_of(
            trim_end(
                match description {
                    Some(d) => d@,
                    None => seq!['-'],
                },
            ),
        ),
{
    proof {
        reveal_strlit("-");
        assert("-"@ =~= seq!['-']);
    }
    let text: &str = match description {
        Some(d) => d.as_str(),
        None => "-",
    };
    let trimmed = trim_end_str(text);
    split_lines(trimmed.as_str())
}

/// The most lines of a directory listing that the preview shows.
pub const PREVIEW_LINES: usize = 30;

/// The first 30 lines of a directory listing, `None` where there is no listing or it
/// is blank.
pub fn preview_file_lines(preview: &Option<String>) -> (r: Option<Vec<String>>)
    ensures
        match preview {
            Some(p) => if trim(p@).len() > 0 {
                r matches Some(ls) && ls.deep_view() == lines_of(p@).take(
                    if lines_of(p@).len() < 30 {
                        lines_of(p@).len() as int
                    } else {
                        30
                    },
                )
            } else {
                r is None
            },
            None => r is None,
        },
{
    match preview {
        None => None,
        Some(p) => {
            let trimmed = trim_str(p.as_str());
            if chars_of(trimmed.as_str()).len() == 0 {
                return None;
            }
            let all = split_lines(p.as_str());
            let n = if all.len() < PREVIEW_LINES {
                all.len()
            } else {
                PREVIEW_LINES
            };
            let mut r: Vec<String> = Vec::new();
            let mut i: usize = 0;
            while i < n
                invariant
                    i <= n <= all.len(),
                    r.deep_view() == all.deep_view().take(i as int),
                decreases n - i,
            {
                let ghost before = r.deep_view();
                let line = all[i].clone();
                assert(line@ == all.deep_view()[i as int]);
                r.push(line);
                assert(r.deep_view() =~= before.push(line@));
                assert(r.deep_view() =~= all.deep_view().take(i + 1));
                i = i + 1;
            }
            Some(r)
        },
    }
}

// ---------------------------------------------------------------------------
// The preview pane
// ---------------------------------------------------------------------------

/// A colour of the preview pane, by name; `Plain` is the terminal's own.
#[derive(PartialEq, Eq, Structural)]
pub enum Tint {
    Plain,
    Cyan,
    Green,
    Magenta,
    Yellow,
    Blue,
}

/// One line of the preview pane.
pub enum PreviewLine {
    /// A bold heading in this colour.
    Heading(String, Tint),
    /// An empty line.
    Blank,
    /// A bold blue label, a space, and the value in this colour.
    Field(String, String, Tint),
    /// Text in this colour.
    Text(String, Tint),
    /// A line of a directory listing, drawn by its parts.
    File(String),
    /// The bold label `Status`, two spaces, and the container's state: `running` in
    /// green where it runs, `stopped` in red where not.
    Status(bool),
}

/// A preview line as plain text.
pub enum PreviewLineView {
    Heading(Seq<char>, Tint),
    Blank,
    Field(Seq<char>, Seq<char>, Tint),
    Text(Seq<char>, Tint),
    File(Seq<char>),
    Status(bool),
}

/// The view of a preview line.
pub open spec fn preview_line_view(l: PreviewLine) -> PreviewLineView {
    match l {
        PreviewLine::Heading(t, c) => PreviewLineView::Heading(t@, c),
        PreviewLine::Blank => PreviewLineView::Blank,
        PreviewLine::Field(a, b, c) => PreviewLineView::Field(a@, b@, c),
        PreviewLine::Text(t, c) => PreviewLineView::Text(t@, c),
        PreviewLine::File(t) => PreviewLineView::File(t@),
        PreviewLine::Status(b) => PreviewLineView::Status(b),
    }
}

/// The views of preview lines.
pub open spec fn preview_views(s: Seq<PreviewLine>) -> Seq<PreviewLineView> {
    s.map_values(|l: PreviewLine| preview_line_view(l))
}

/// `"-"` for an empty value, the value otherwise.
pub open spec fn or_dash(s: Seq<char>) -> Seq<char> {
    if s.len() == 0 {
        seq!['-']
    } else {
        s
    }
}

/// The file lines of a tmux entry's preview: the first 30 lines of its listing, or a
/// note where it has none or it is blank.
pub open spec fn files_section(preview: Option<String>) -> Seq<PreviewLineView> {
    let none = seq![PreviewLineView::Text("No preview available."@, Tint::Plain)];
    match preview {
        Some(p) => if trim(p@).len() > 0 {
            let ls = lines_of(p@);
            ls.take(
                if ls.len() < 30 {
                    ls.len() as int
                } else {
                    30
                },
            ).map_values(|l: Seq<char>| PreviewLineView::File(l))
        } else {
            none
        },
        None => none,
    }
}

/// The description lines of an SSH host: its description without trailing
/// whitespace, line by line, in green; `-` where it has none.
pub open spec fn description_section(description: Option<String>) -> Seq<PreviewLineView> {
    lines_of(
        trim_end(
            match description {
                Some(d) => d@,
                None => seq!['-'],
            },
        ),
    ).map_values(|l: Seq<char>| PreviewLineView::Text(l, Tint::Green))
}

/// What the preview pane shows of an entry.
pub open spec fn preview_of(e: Entry) -> Seq<PreviewLineView> {
    match e {
        Entry::Tmux(t) => seq![
            PreviewLineView::Heading("Tmux Session"@, Tint::Cyan),
            PreviewLineView::Blank,
            PreviewLineView::Field("Name:"@, t.session_name@, Tint::Green),
            PreviewLineView::Field(
                "Path:"@,
                match t.full_path {
                    Some(p) => p@,
                    None => seq!['-'],
                },
                Tint::Plain,
            ),
            PreviewLineView::Blank,
            PreviewLineView::Heading("Files"@, Tint::Magenta),
        ] + files_section(t.preview),
        Entry::Ssh(h) => seq![
            PreviewLineView::Heading("SSH Host"@, Tint::Cyan),
            PreviewLineView::Blank,
            PreviewLineView::Field("Host:"@, or_dash(h.alias@), Tint::Plain),
            PreviewLineView::Field("User:"@, or_dash(h.user@), Tint::Plain),
            PreviewLineView::Field("Hostname:"@, or_dash(h.hostname@), Tint::Plain),
            PreviewLineView::Blank,
            PreviewLineView::Heading("Description:"@, Tint::Magenta),
        ] + description_section(h.description),
        Entry::Docker(c) => seq![
            PreviewLineView::Heading("Docker Container"@, Tint::Magenta),
            PreviewLineView::Blank,
            PreviewLineView::Field("Name"@, c.name@, Tint::Yellow),
            PreviewLineView::Field("ID"@, c.id@, Tint::Cyan),
            PreviewLineView::Field("Image"@, c.image@, Tint::Green),
            PreviewLineView::Field("Command"@, or_dash(c.command@), Tint::Plain),
            PreviewLineView::Blank,
            PreviewLineView::Field("Created"@, or_dash(c.created_at@), Tint::Blue),
            PreviewLineView::Field("Ports"@, or_dash(c.ports@), Tint::Magenta),
            PreviewLineView::Blank,
            PreviewLineView::Status(c.status),
            PreviewLineView::Field("Details"@, or_dash(c.status_text@), Tint::Plain),
        ],
    }
}

fn heading(text: &str, tint: Tint) -> (r: PreviewLine)
    ensures
        preview_line_view(r) == PreviewLineView::Heading(text@, tint),
{
    PreviewLine::Heading(to_owned_string(text), tint)
}

fn field(label: &str, value: &str, tint: Tint) -> (r: PreviewLine)
    ensures
        preview_line_view(r) == PreviewLineView::Field(label@, value@, tint),
{
    PreviewLine::Field(to_owned_string(label), to_owned_string(value), tint)
}

/// The preview line of a text: a listing line, or green text.
pub open spec fn text_line(l: Seq<char>, as_file: bool) -> PreviewLineView {
    if as_file {
        PreviewLineView::File(l)
    } else {
        PreviewLineView::Text(l, Tint::Green)
    }
}

/// Appends one line per text, each made by `File`, or by `Text` in green.
fn push_texts(out: &mut Vec<PreviewLine>, texts: Vec<String>, as_files: bool)
    ensures
        preview_views(final(out)@) == preview_views(old(out)@) + texts.deep_view().map_values(
            |l: Seq<char>| text_line(l, as_files),
        ),
{
    let ghost start = preview_views(out@);
    let ghost ts = texts.deep_view();
    let mut i: usize = 0;
    while i < texts.len()
        invariant
            i <= texts.len(),
            ts == texts.deep_view(),
            preview_views(out@) == start + ts.take(i as int).map_values(
                |l: Seq<char>| text_line(l, as_files),
            ),
        decreases texts.len() - i,
    {
        let ghost before = out@;
        let t = texts[i].clone();
        let ghost tv = ts[i as int];
        assert(t@ == tv);
        if as_files {
            out.push(PreviewLine::File(t));
        } else {
            out.push(PreviewLine::Text(t, Tint::Green));
        }
        assert(preview_views(out@) =~= preview_views(before).push(text_line(tv, as_files)));
        assert(ts.take(i + 1).map_values(|l: Seq<char>| text_line(l, as_files)) =~= ts.take(
            i as int,
        ).map_values(|l: Seq<char>| text_line(l, as_files)).push(text_line(tv, as_files)));
        i = i + 1;
    }
    assert(ts.take(i as int) =~= ts);
}

/// The lines that the preview pane shows of an entry.
pub fn preview_lines(entry: &Entry) -> (r: Vec<PreviewLine>)
    ensures
        preview_views(r@) == preview_of(*entry),
{
    proof {
        reveal_strlit("-");
        assert("-"@ =~= seq!['-']);
    }
    let mut out: Vec<PreviewLine> = Vec::new();
    match entry {
        Entry::Tmux(t) => {
            out.push(heading("Tmux Session", Tint::Cyan));
            out.push(PreviewLine::Blank);
            out.push(field("Name:", t.session_name.as_str(), Tint::Green));
            let path: &str = match &t.full_path {
                Some(p) => p.as_str(),
                None => "-",
            };
            out.push(field("Path:", path, Tint::Plain));
            out.push(PreviewLine::Blank);
            out.push(heading("Files", Tint::Magenta));
            let ghost head = preview_views(out@);
            match preview_file_lines(&t.preview) {
                Some(ls) => {
                    push_texts(&mut out, ls, true);
                },
                None => {
                    out.push(PreviewLine::Text(to_owned_string("No preview available."), Tint::Plain));
                    assert(preview_views(out@) =~= head + seq![
                        PreviewLineView::Text("No preview available."@, Tint::Plain),
                    ]);
                },
            }
            assert(head =~= seq![
                PreviewLineView::Heading("Tmux Session"@, Tint::Cyan),
                PreviewLineView::Blank,
                PreviewLineView::Field("Name:"@, t.session_name@, Tint::Green),
                PreviewLineView::Field("Path:"@, path@, Tint::Plain),
                PreviewLineView::Blank,
                PreviewLineView::Heading("Files"@, Tint::Magenta),
            ]);
            assert(preview_views(out@) =~= preview_of(*entry));
        },
        Entry::Ssh(h) => {
            out.push(heading("SSH Host", Tint::Cyan));
            out.push(PreviewLine::Blank);
            out.push(field("Host:", value_or_dash(h.alias.as_str()), Tint::Plain));
            out.push(field("User:", value_or_dash(h.user.as_str()), Tint::Plain));
            out.push(field("Hostname:", value_or_dash(h.hostname.as_str()), Tint::Plain));
            out.push(PreviewLine::Blank);
            out.push(heading("Description:", Tint::Magenta));
            let ghost head = preview_views(out@);
            push_texts(&mut out, description_lines(&h.description), false);
            assert(head =~= seq![
                PreviewLineView::Heading("SSH Host"@, Tint::Cyan),
                PreviewLineView::Blank,
                PreviewLineView::Field("Host:"@, or_dash(h.alias@), Tint::Plain),
                PreviewLineView::Field("User:"@, or_dash(h.user@), Tint::Plain),
                PreviewLineView::Field("Hostname:"@, or_dash(h.hostname@), Tint::Plain),
                PreviewLineView::Blank,
                PreviewLineView::Heading("Description:"@, Tint::Magenta),
            ]);
            assert(preview_views(out@) =~= preview_of(*entry));
        },
        Entry::Docker(c) => {
            out.push(heading("Docker Container", Tint::Magenta));
            out.push(PreviewLine::Blank);
            out.push(field("Name", c.name.as_str(), Tint::Yellow));
            out.push(field("ID", c.id.as_str(), Tint::Cyan));
            out.push(field("Image", c.image.as_str(), Tint::Green));
            out.push(field("Command", value_or_dash(c.command.as_str()), Tint::Plain));
            out.push(PreviewLine::Blank);
            out.push(field("Created", value_or_dash(c.created_at.as_str()), Tint::Blue));
            out.push(field("Ports", value_or_dash(c.ports.as_str()), Tint::Magenta));
            out.push(PreviewLine::Blank);
            out.push(PreviewLine::Status(c.status));
            out.push(field("Details", value_or_dash(c.status_text.as_str()), Tint::Plain));
            assert(preview_views(out@) =~= preview_of(*entry));
        },
    }
    out
}

// ---------------------------------------------------------------------------
// The lines of the list
// ---------------------------------------------------------------------------

/// The colour of a list text where it is not highlighted: bright for names, dim
/// for hostnames, green for a running container's state, red for a stopped one's.
#[derive(PartialEq, Eq, Structural)]
pub enum ListTint {
    Bright,
    Dim,
    Running,
    Stopped,
}

/// A piece of an entry's line in the list.
pub enum ListPiece {
    /// The icon of the entry's kind.
    Icon,
    /// This many spaces.
    Gap(usize),
    /// A text, with for each of its characters whether the query matched it.
    Text(String, Vec<bool>, ListTint),
    /// The `*` that marks an entry with a running tmux session.
    ActiveMark,
}

/// A list piece as plain values.
pub enum ListPieceView {
    Icon,
    Gap(usize),
    Text(Seq<char>, Seq<bool>, ListTint),
    ActiveMark,
}

/// The view of a list piece.
pub open spec fn list_piece_view(p: ListPiece) -> ListPieceView {
    match p {
        ListPiece::Icon => ListPieceView::Icon,
        ListPiece::Gap(n) => ListPieceView::Gap(n),
        ListPiece::Text(t, m, c) => ListPieceView::Text(t@, m@, c),
        ListPiece::ActiveMark => ListPieceView::ActiveMark,
    }
}

/// The views of list pieces.
pub open spec fn list_piece_views(s: Seq<ListPiece>) -> Seq<ListPieceView> {
    s.map_values(|p: ListPiece| list_piece_view(p))
}

/// For each character of `text`, whether its position plus `offset` is among the
/// matched positions.
pub open spec fn match_mask(text: Seq<char>, matched: Seq<usize>, offset: int) -> Seq<bool> {
    Seq::new(
        text.len(),
        |i: int| exists|m: int| 0 <= m < matched.len() && matched[m] as int == i + offset,
    )
}

/// `*` where a tmux session of the entry runs, nothing otherwise.
pub open spec fn active_mark(active: bool) -> Seq<ListPieceView> {
    if active {
        seq![ListPieceView::ActiveMark]
    } else {
        Seq::empty()
    }
}

/// An entry's line in the list, for the matched character positions `matched` (in
/// the entry's shown fields joined by spaces): the icon, a space, the first shown
/// field, the `*` of a running session, two spaces, and for a host or a container
/// the second shown field (the hostname, or the state label).
pub open spec fn list_line_of(e: Entry, matched: Seq<usize>) -> Seq<ListPieceView> {
    match e {
        Entry::Tmux(t) => {
            let d = t.search_fields_view()[0];
            seq![
                ListPieceView::Icon,
                ListPieceView::Gap(1),
                ListPieceView::Text(d, match_mask(d, matched, 0), ListTint::Bright),
            ] + active_mark(t.is_active) + seq![ListPieceView::Gap(2)]
        },
        Entry::Ssh(h) => seq![
            ListPieceView::Icon,
            ListPieceView::Gap(1),
            ListPieceView::Text(h.alias@, match_mask(h.alias@, matched, 0), ListTint::Bright),
        ] + active_mark(h.is_active_tmux) + seq![
            ListPieceView::Gap(2),
            ListPieceView::Text(
                h.hostname@,
                match_mask(h.hostname@, matched, (h.alias@.len() + 1) as int),
                ListTint::Dim,
            ),
        ],
        Entry::Docker(c) => seq![
            ListPieceView::Icon,
            ListPieceView::Gap(1),
            ListPieceView::Text(c.name@, match_mask(c.name@, matched, 0), ListTint::Bright),
        ] + active_mark(c.is_active_tmux) + seq![
            ListPieceView::Gap(2),
            ListPieceView::Text(
                status_label_view(c.status),
                match_mask(status_label_view(c.status), matched, (c.name@.len() + 1) as int),
                if c.status {
                    ListTint::Running
                } else {
                    ListTint::Stopped
                },
            ),
        ],
    }
}

/// The mask of `text` for the matched positions, the text starting at `offset`.
fn mask_at(text: &str, matched: &Vec<usize>, offset: u128) -> (r: Vec<bool>)
    requires
        offset <= 0x1_0000_0000_0000_0000u128,
    ensures
        r@ == match_mask(text@, matched@, offset as int),
{
    let cs = chars_of(text);
    let mut r: Vec<bool> = Vec::new();
    let mut i: usize = 0;
    while i < cs.len()
        invariant
            i <= cs.len() == text@.len(),
            r@ =~= match_mask(text@, matched@, offset as int).take(i as int),
            offset <= 0x1_0000_0000_0000_0000u128,
        decreases cs.len() - i,
    {
        let target: u128 = i as u128 + offset;
        let mut found = false;
        let mut j: usize = 0;
        while j < matched.len()
            invariant
                j <= matched.len(),
                target == i + offset,
                offset <= 0x1_0000_0000_0000_0000u128,
                found == (exists|m: int| 0 <= m < j && matched@[m] as int == target as int),
            decreases matched.len() - j,
        {
            if matched[j] as u128 == target {
                found = true;
            }
            j = j + 1;
        }
        r.push(found);
        i = i + 1;
    }
    r
}

/// The pieces of an entry's line in the list, for the matched character positions.
pub fn list_pieces(entry: &Entry, matched: &Vec<usize>) -> (r: Vec<ListPiece>)
    ensures
        list_piece_views(r@) == list_line_of(*entry, matched@),
{
    let mut out: Vec<ListPiece> = Vec::new();
    out.push(ListPiece::Icon);
    out.push(ListPiece::Gap(1));
    let (first, active): (&str, bool) = match entry {
        Entry::Tmux(t) => {
            let fields = t.search_fields();
            assert(t.search_fields_view().len() >= 1);
            assert(fields.deep_view().len() == fields@.len());
            assert(fields.deep_view()[0] == fields@[0]@);
            (fields[0], t.is_active)
        },
        Entry::Ssh(h) => (h.alias.as_str(), h.is_active_tmux),
        Entry::Docker(c) => (c.name.as_str(), c.is_active_tmux),
    };
    let first_mask = mask_at(first, matched, 0);
    out.push(ListPiece::Text(to_owned_string(first), first_mask, ListTint::Bright));
    if active {
        out.push(ListPiece::ActiveMark);
    }
    out.push(ListPiece::Gap(2));
    let ghost head = list_piece_views(out@);
    assert(head =~= seq![
        ListPieceView::Icon,
        ListPieceView::Gap(1),
        ListPieceView::Text(first@, match_mask(first@, matched@, 0), ListTint::Bright),
    ] + active_mark(active) + seq![ListPieceView::Gap(2)]);
    let offset: u128 = chars_of(first).len() as u128 + 1;
    match entry {
        Entry::Tmux(_) => {},
        Entry::Ssh(h) => {
            let mask = mask_at(h.hostname.as_str(), matched, offset);
            out.push(ListPiece::Text(to_owned_string(h.hostname.as_str()), mask, ListTint::Dim));
            assert(list_piece_views(out@) =~= head.push(
                ListPieceView::Text(h.hostname@, match_mask(h.hostname@, matched@, (h.alias@.len() + 1) as int), ListTint::Dim),
            ));
        },
        Entry::Docker(c) => {
            let label = c.status_label();
            let mask = mask_at(label, matched, offset);
            let tint = if c.status {
                ListTint::Running
            } else {
                ListTint::Stopped
            };
            out.push(ListPiece::Text(to_owned_string(label), mask, tint));
            assert(list_piece_views(out@) =~= head.push(
                ListPieceView::Text(
                    status_label_view(c.status),
                    match_mask(status_label_view(c.status), matched@, (c.name@.len() + 1) as int),
                    if c.status {
                        ListTint::Running
                    } else {
                        ListTint::Stopped
                    },
                ),
            ));
        },
    }
    assert(list_piece_views(out@) =~= list_line_of(*entry, matched@));
    out
}

} // verus!
