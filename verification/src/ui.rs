//! The interactive terminal interface's state and how keys change it.
//!
//! Drawing and reading the terminal are left to the caller; a key handled
//! here may ask the caller to add a domain to the blocking backend or to
//! remove one from it.
use vstd::prelude::*;
use crate::strset::views;
use crate::text::push_char;

verus! {

/// The most log lines kept.
pub const MAX_LOGS: usize = 100;

/// Whether keys edit the domain being entered.
#[derive(PartialEq, Eq, Structural)]
pub enum InputMode {
    Normal,
    Editing,
}

/// A key press, as far as the interface tells keys apart.
pub enum Key {
    Char(char),
    Enter,
    Backspace,
    Esc,
    Other,
}

/// What the caller does with the blocking backend after a key.
pub enum UiAction {
    Nothing,
    /// Block this domain.
    AddDomain(String),
    /// Unblock this domain.
    RemoveDomain(String),
}

/// The interface state.
pub struct App {
    pub protection_active: bool,
    /// The blocked domains, in the order they were added.
    pub blocklist: Vec<String>,
    /// The most recent log lines, oldest first.
    pub logs: Vec<String>,
    pub should_quit: bool,
    /// The domain being entered.
    pub input: String,
    pub input_mode: InputMode,
}

/// The log lines after appending `line`: the last `MAX_LOGS` of them.
pub open spec fn logs_after(logs: Seq<Seq<char>>, line: Seq<char>) -> Seq<Seq<char>> {
    let all = logs.push(line);
    if all.len() > MAX_LOGS {
        all.drop_first()
    } else {
        all
    }
}

/// Removes the last character of a string: calls `String::pop`, which (as
/// its documentation says) takes off and returns the last character, or
/// returns `None` and leaves an empty string as it is. Trusted, not proved.
#[verifier::external_body]
fn pop_char(s: &mut String) -> (c: Option<char>)
    ensures
        match c {
            Some(ch) => old(s)@.len() > 0 && ch == old(s)@.last() && final(s)@ == old(s)@.drop_last(),
            None => old(s)@.len() == 0 && final(s)@ == old(s)@,
        },
{
    s.pop()
}

impl App {
    /// The state at start: protection on, the two main domains blocked, one
    /// log line.
    pub fn new() -> (app: App)
        ensures
            app.protection_active,
            views(app.blocklist@) == seq!["www.bilibili.com"@, "bilibili.com"@],
            views(app.logs@) == seq!["System started."@],
            !app.should_quit,
            app.input@ == Seq::<char>::empty(),
            app.input_mode == InputMode::Normal,
    {
        let mut blocklist: Vec<String> = Vec::new();
        blocklist.push(String::from_str("www.bilibili.com"));
        blocklist.push(String::from_str("bilibili.com"));
        let mut logs: Vec<String> = Vec::new();
        logs.push(String::from_str("System started."));
        let app = App {
            protection_active: true,
            blocklist,
            logs,
            should_quit: false,
            input: String::new(),
            input_mode: InputMode::Normal,
        };
        assert(views(app.blocklist@) =~= seq!["www.bilibili.com"@, "bilibili.com"@]);
        assert(views(app.logs@) =~= seq!["System started."@]);
        app
    }

    /// Adds a domain to the list.
    pub fn add_domain(&mut self, domain: String)
        ensures
            views(final(self).blocklist@) == views(old(self).blocklist@).push(domain@),
            final(self).logs == old(self).logs,
            final(self).input == old(self).input,
            final(self).input_mode == old(self).input_mode,
            final(self).protection_active == old(self).protection_active,
            final(self).should_quit == old(self).should_quit,
    {
        let ghost before = views(self.blocklist@);
        let ghost d = domain@;
        self.blocklist.push(domain);
        assert(views(self.blocklist@) =~= before.push(d));
    }

    /// Removes the last domain of the list and gives it back.
    pub fn remove_domain(&mut self) -> (removed: Option<String>)
        ensures
            match removed {
                Some(d) => old(self).blocklist@.len() > 0 && d@ == views(old(self).blocklist@).last()
                    && views(final(self).blocklist@) == views(old(self).blocklist@).drop_last(),
                None => old(self).blocklist@.len() == 0 && final(self).blocklist@ == old(self).blocklist@,
            },
            final(self).logs == old(self).logs,
            final(self).input == old(self).input,
            final(self).input_mode == old(self).input_mode,
            final(self).protection_active == old(self).protection_active,
            final(self).should_quit == old(self).should_quit,
    {
        let ghost before = views(self.blocklist@);
        let r = self.blocklist.pop();
        if r.is_some() {
            assert(views(self.blocklist@) =~= before.drop_last());
        }
        r
    }

    /// Appends a log line, keeping the last 100.
    pub fn push_log(&mut self, line: String)
        ensures
            views(final(self).logs@) == logs_after(views(old(self).logs@), line@),
            final(self).blocklist == old(self).blocklist,
            final(self).input == old(self).input,
            final(self).input_mode == old(self).input_mode,
            final(self).protection_active == old(self).protection_active,
            final(self).should_quit == old(self).should_quit,
    {
        let ghost before = views(self.logs@);
        let ghost l = line@;
        self.logs.push(line);
        assert(views(self.logs@) =~= before.push(l));
        if self.logs.len() > MAX_LOGS {
            let ghost all = views(self.logs@);
            self.logs.remove(0);
            assert(views(self.logs@) =~= all.drop_first());
        }
    }

    /// Takes in the log lines that arrived, oldest first.
    pub fn update_logs(&mut self, lines: Vec<String>)
        ensures
            final(self).blocklist == old(self).blocklist,
            final(self).input == old(self).input,
            final(self).input_mode == old(self).input_mode,
            final(self).protection_active == old(self).protection_active,
            final(self).should_quit == old(self).should_quit,
            views(final(self).logs@) == logs_after_all(views(old(self).logs@), views(lines@)),
    {
        let mut i: usize = 0;
        while i < lines.len()
            invariant
                i <= lines@.len(),
                self.blocklist == old(self).blocklist,
                self.input == old(self).input,
                self.input_mode == old(self).input_mode,
                self.protection_active == old(self).protection_active,
                self.should_quit == old(self).should_quit,
                views(self.logs@) == logs_after_all(views(old(self).logs@), views(lines@).take(i as int)),
            decreases lines.len() - i,
        {
            assert(views(lines@).take(i + 1).drop_last() =~= views(lines@).take(i as int));
            self.push_log(lines[i].clone());
            i = i + 1;
        }
        assert(views(lines@).take(i as int) =~= views(lines@));
    }

    /// Handles one key and says what the blocking backend must do.
    ///
    /// In normal mode: 'q' quits, 'a' starts entering a domain, 'd' removes
    /// the last domain, 'p' toggles protection. While entering: Enter adds
    /// the domain entered (if any) and ends entering, a character is typed,
    /// Backspace deletes the last one, Esc ends entering.
    pub fn handle_key(&mut self, key: Key) -> (action: UiAction)
        ensures
            key_effect(*old(self), key, *final(self), action),
    {
        match self.input_mode {
            InputMode::Normal => match key {
                Key::Char('q') => {
                    self.should_quit = true;
                    UiAction::Nothing
                },
                Key::Char('a') => {
                    self.input_mode = InputMode::Editing;
                    UiAction::Nothing
                },
                Key::Char('d') => match self.remove_domain() {
                    Some(d) => UiAction::RemoveDomain(d),
                    None => UiAction::Nothing,
                },
                Key::Char('p') => {
                    self.protection_active = !self.protection_active;
                    UiAction::Nothing
                },
                _ => UiAction::Nothing,
            },
            InputMode::Editing => match key {
                Key::Enter => {
                    let mut domain = String::new();
                    std::mem::swap(&mut domain, &mut self.input);
                    self.input_mode = InputMode::Normal;
                    if domain.unicode_len() > 0 {
                        let copy = domain.clone();
                        self.add_domain(domain);
                        UiAction::AddDomain(copy)
                    } else {
                        UiAction::Nothing
                    }
                },
                Key::Char(c) => {
                    push_char(&mut self.input, c);
                    UiAction::Nothing
                },
                Key::Backspace => {
                    pop_char(&mut self.input);
                    UiAction::Nothing
                },
                Key::Esc => {
                    self.input_mode = InputMode::Normal;
                    UiAction::Nothing
                },
                Key::Other => UiAction::Nothing,
            },
        }
    }
}

/// The log lines after appending each of `lines` in turn.
pub open spec fn logs_after_all(logs: Seq<Seq<char>>, lines: Seq<Seq<char>>) -> Seq<Seq<char>>
    decreases lines.len(),
{
    if lines.len() == 0 {
        logs
    } else {
        logs_after(logs_after_all(logs, lines.drop_last()), lines.last())
    }
}

/// `b` is `a` with `blocklist`, `input`, the mode, protection and quitting
/// changed as given, and the logs kept.
pub open spec fn same_but(
    a: App,
    b: App,
    blocklist: Seq<Seq<char>>,
    input: Seq<char>,
    mode: InputMode,
    protection: bool,
    quit: bool,
) -> bool {
    &&& views(b.blocklist@) == blocklist
    &&& b.input@ == input
    &&& b.input_mode == mode
    &&& b.protection_active == protection
    &&& b.should_quit == quit
    &&& b.logs == a.logs
}

/// What handling `key` in state `a` leads to: state `b` and `action`.
pub open spec fn key_effect(a: App, key: Key, b: App, action: UiAction) -> bool {
    let bl = views(a.blocklist@);
    match a.input_mode {
        InputMode::Normal => match key {
            Key::Char('q') => same_but(a, b, bl, a.input@, InputMode::Normal, a.protection_active, true)
                && action is Nothing,
            Key::Char('a') => same_but(a, b, bl, a.input@, InputMode::Editing, a.protection_active, a.should_quit)
                && action is Nothing,
            Key::Char('d') => if bl.len() > 0 {
                same_but(a, b, bl.drop_last(), a.input@, InputMode::Normal, a.protection_active, a.should_quit)
                    && (action matches UiAction::RemoveDomain(d) && d@ == bl.last())
            } else {
                same_but(a, b, bl, a.input@, InputMode::Normal, a.protection_active, a.should_quit)
                    && action is Nothing
            },
            Key::Char('p') => same_but(a, b, bl, a.input@, InputMode::Normal, !a.protection_active, a.should_quit)
                && action is Nothing,
            _ => same_but(a, b, bl, a.input@, InputMode::Normal, a.protection_active, a.should_quit)
                && action is Nothing,
        },
        InputMode::Editing => match key {
            Key::Enter => if a.input@.len() > 0 {
                same_but(a, b, bl.push(a.input@), Seq::empty(), InputMode::Normal, a.protection_active, a.should_quit)
                    && (action matches UiAction::AddDomain(d) && d@ == a.input@)
            } else {
                same_but(a, b, bl, Seq::empty(), InputMode::Normal, a.protection_active, a.should_quit)
                    && action is Nothing
            },
            Key::Char(c) => same_but(a, b, bl, a.input@.push(c), InputMode::Editing, a.protection_active, a.should_quit)
                && action is Nothing,
            Key::Backspace => same_but(
                a,
                b,
                bl,
                if a.input@.len() > 0 { a.input@.drop_last() } else { a.input@ },
                InputMode::Editing,
                a.protection_active,
                a.should_quit,
            ) && action is Nothing,
            Key::Esc => same_but(a, b, bl, a.input@, InputMode::Normal, a.protection_active, a.should_quit)
                && action is Nothing,
            Key::Other => same_but(a, b, bl, a.input@, InputMode::Editing, a.protection_active, a.should_quit)
                && action is Nothing,
        },
    }
}

/// The title line: the program, its mode and whether protection is on.
pub fn title_text(protection_active: bool) -> (t: String)
    ensures
        t@ == "Antidistractor (eBPF Trace Mode) ["@ + (if protection_active { "ACTIVE"@ } else { "PAUSED"@ })
            + "]"@,
{
    let mut t = String::from_str("Antidistractor (eBPF Trace Mode) [");
    if protection_active {
        t.append("ACTIVE");
    } else {
        t.append("PAUSED");
    }
    t.append("]");
    t
}

/// The share (in percent) left on each side of a centred box that takes
/// `percent` of the space.
pub fn centered_margin(percent: u16) -> (m: u16)
    requires
        percent <= 100,
    ensures
        m == (100 - percent) / 2,
{
    (100 - percent) / 2
}

/// The log never holds more than the last 100 lines, and a line taken in
/// is the newest.
pub proof fn lemma_logs_bounded(logs: Seq<Seq<char>>, line: Seq<char>)
    requires
        logs.len() <= MAX_LOGS,
    ensures
        logs_after(logs, line).len() <= MAX_LOGS,
        logs_after(logs, line).last() == line,
{
}

/// Entering a domain and then pressing 'd' blocks and then unblocks that
/// domain, and leaves the list as it was.
pub proof fn lemma_delete_undoes_enter(a: App, b: App, c: App, act1: UiAction, act2: UiAction)
    requires
        a.input_mode == InputMode::Editing,
        a.input@.len() > 0,
        key_effect(a, Key::Enter, b, act1),
        key_effect(b, Key::Char('d'), c, act2),
    ensures
        act1 matches UiAction::AddDomain(d) && d@ == a.input@,
        act2 matches UiAction::RemoveDomain(d) && d@ == a.input@,
        views(c.blocklist@) == views(a.blocklist@),
        c.input_mode == InputMode::Normal,
{
    assert(views(b.blocklist@) == views(a.blocklist@).push(a.input@));
    assert(views(b.blocklist@).drop_last() =~= views(a.blocklist@));
}

/// Esc while a domain is being entered ends entering: the interface goes
/// back to normal mode with the list, the text typed, protection and
/// quitting as they were, and asks the backend for nothing.
pub proof fn lemma_esc_ends_editing(a: App, b: App, act: UiAction)
    requires
        a.input_mode == InputMode::Editing,
        key_effect(a, Key::Esc, b, act),
    ensures
        b.input_mode == InputMode::Normal,
        views(b.blocklist@) == views(a.blocklist@),
        b.input@ == a.input@,
        b.protection_active == a.protection_active,
        b.should_quit == a.should_quit,
        act is Nothing,
{
}

/// After Esc ends entering a domain, 'q' quits and leaves the list as it
/// was before entering began.
pub proof fn lemma_esc_then_quit(a: App, b: App, c: App, act1: UiAction, act2: UiAction)
    requires
        a.input_mode == InputMode::Editing,
        key_effect(a, Key::Esc, b, act1),
        key_effect(b, Key::Char('q'), c, act2),
    ensures
        c.should_quit,
        views(c.blocklist@) == views(a.blocklist@),
        act2 is Nothing,
{
}

} // verus!
