//! The interactive shell.
//!
//! Scancodes are decoded into keys, and keys edit a line, which is echoed and
//! can be recalled from a history. When Enter is pressed, the line is parsed
//! into a [`Command`], for which [`execute`] decides what is to be done. The
//! texts that commands print are made here too; what a command does beyond
//! printing is left to the kernel binary.

use vstd::prelude::*;
use vstd::string::StringExecFns;

use crate::fat::Info;
use crate::rtc::DateTime;
use crate::task::keyboard::{Decoder, Key, ARROW_DOWN, ARROW_UP, PAGE_DOWN, PAGE_UP};
use crate::text::{
    after_space, after_word, chars_of, is_control, is_text, parse_number, push_decimal, push_padded,
    text_of, trim,
};
use crate::threads::{SpawnError, State};

verus! {

/// What the shell prints before each line.
pub const PROMPT: &'static str = "> ";

/// What the shell prints when it starts.
pub const GREETING: &'static str = "\nrust-os shell -- type `help` for a list of commands.\n";

/// How many lines the history holds.
pub const HISTORY_CAP: usize = 50;

/// What `help` prints.
pub const HELP: &'static str = "available commands:\n  help          show this message\n  clear         clear the screen\n  echo <text>   print <text> back\n  date          show the current date and time (UTC)\n  uptime        show time since boot\n  sleep <ms>    pause for <ms> milliseconds\n  spawn         start a busy-loop kernel thread\n  threads       list kernel threads\n  user          run the embedded ring-3 demo program\n  ls [path]     list a directory on the disk\n  cat <path>    print a file from the disk\n  disk          show mounted volume info\n  about         show kernel info\nkeys: up/down browse history, PgUp/PgDn scroll output\n";

/// What `sleep` prints when it is not given a number.
pub const SLEEP_USAGE: &'static str = "usage: sleep <milliseconds>\n";

/// What `cat` prints when it is not given a path.
pub const CAT_USAGE: &'static str = "usage: cat <path>\n";

/// Past commands, browsable with the up/down arrow keys.
pub struct History {
    pub entries: Vec<String>,
    /// Index into `entries` while browsing; `None` when typing a fresh line.
    pub browse: Option<usize>,
    /// The unfinished line stashed away when browsing began, restored by
    /// arrowing down past the newest entry.
    pub stash: String,
}

/// What a [`History`] stands for.
#[verifier::ext_equal]
pub ghost struct HistoryModel {
    pub entries: Seq<Seq<char>>,
    pub browse: Option<int>,
    pub stash: Seq<char>,
}

impl View for History {
    type V = HistoryModel;

    open spec fn view(&self) -> HistoryModel {
        HistoryModel {
            entries: Seq::new(self.entries@.len(), |i: int| self.entries@[i]@),
            browse: match self.browse {
                None => None,
                Some(i) => Some(i as int),
            },
            stash: self.stash@,
        }
    }
}

impl HistoryModel {
    /// There are no more entries than the history holds, and browsing points at
    /// one of them.
    pub open spec fn wf(self) -> bool {
        &&& self.entries.len() <= HISTORY_CAP
        &&& self.browse matches Some(i) ==> 0 <= i < self.entries.len()
    }

    /// Once a line was executed. Empty lines and immediate repeats are not
    /// recorded; the oldest entry makes room where there is none.
    pub open spec fn recorded(self, line: Seq<char>) -> HistoryModel {
        if line.len() == 0 || (self.entries.len() > 0 && self.entries.last() == line) {
            HistoryModel { browse: None, ..self }
        } else {
            HistoryModel {
                entries: if self.entries.len() == HISTORY_CAP {
                    self.entries.drop_first().push(line)
                } else {
                    self.entries.push(line)
                },
                browse: None,
                ..self
            }
        }
    }

    /// A step to an older entry, when `current` is being typed: the line to show
    /// and the history after it.
    pub open spec fn older(self, current: Seq<char>) -> (Option<Seq<char>>, HistoryModel) {
        match self.browse {
            None => if self.entries.len() == 0 {
                (None, self)
            } else {
                let newest = self.entries.len() - 1;
                (
                    Some(self.entries[newest]),
                    HistoryModel { browse: Some(newest), stash: current, ..self },
                )
            },
            Some(i) => if i == 0 {
                (None, self)
            } else {
                (Some(self.entries[i - 1]), HistoryModel { browse: Some(i - 1), ..self })
            },
        }
    }

    /// A step back toward the present: past the newest entry lies the line that
    /// was being typed.
    pub open spec fn newer(self) -> (Option<Seq<char>>, HistoryModel) {
        match self.browse {
            None => (None, self),
            Some(i) => if i + 1 < self.entries.len() {
                (Some(self.entries[i + 1]), HistoryModel { browse: Some(i + 1), ..self })
            } else {
                (
                    Some(self.stash),
                    HistoryModel { browse: None, stash: Seq::empty(), ..self },
                )
            },
        }
    }
}

/// An optional line as a value.
pub open spec fn line_view(line: Option<String>) -> Option<Seq<char>> {
    match line {
        None => None,
        Some(line) => Some(line@),
    }
}

impl History {
    /// An empty history.
    pub fn new() -> (history: History)
        ensures
            history@.wf(),
            history@ == (HistoryModel {
                entries: Seq::empty(),
                browse: None,
                stash: Seq::empty(),
            }),
    {
        let history = History { entries: Vec::new(), browse: None, stash: String::new() };
        assert(history@.entries =~= Seq::<Seq<char>>::empty());
        history
    }

    /// Saves an executed command and leaves browse mode. Empty lines and
    /// immediate repeats are not recorded.
    pub fn record(&mut self, line: String)
        requires
            old(self)@.wf(),
        ensures
            final(self)@.wf(),
            final(self)@ == old(self)@.recorded(line@),
    {
        self.browse = None;
        let len: usize = self.entries.len();
        if line.as_str().is_empty() || (len > 0 && self.entries[len - 1] == line) {
            assert(self@ =~= old(self)@.recorded(line@));
            return ;
        }
        if len == HISTORY_CAP {
            self.entries.remove(0);
        }
        self.entries.push(line);
        assert(self@.entries =~= old(self)@.recorded(line@).entries);
        assert(self@ =~= old(self)@.recorded(line@));
    }

    /// Steps to an older entry, stashing the in-progress line on first press.
    /// Returns the line the prompt should now show.
    pub fn older(&mut self, current: &String) -> (line: Option<String>)
        requires
            old(self)@.wf(),
        ensures
            final(self)@.wf(),
            (line_view(line), final(self)@) == old(self)@.older(current@),
    {
        let index: usize = match self.browse {
            None => {
                let len: usize = self.entries.len();
                if len == 0 {
                    return None;
                }
                self.stash = current.clone();
                len - 1
            },
            Some(i) => {
                if i == 0 {
                    return None;  // already at the oldest entry
                }
                i - 1
            },
        };
        self.browse = Some(index);
        assert(self@.entries =~= old(self)@.entries);
        assert(self@ =~= old(self)@.older(current@).1);
        Some(self.entries[index].clone())
    }

    /// Steps back toward the present; past the newest entry, restores the
    /// stashed in-progress line.
    pub fn newer(&mut self) -> (line: Option<String>)
        requires
            old(self)@.wf(),
        ensures
            final(self)@.wf(),
            (line_view(line), final(self)@) == old(self)@.newer(),
    {
        match self.browse {
            None => None,
            Some(i) => {
                if i + 1 < self.entries.len() {
                    self.browse = Some(i + 1);
                    assert(self@.entries =~= old(self)@.entries);
                    assert(self@ =~= old(self)@.newer().1);
                    Some(self.entries[i + 1].clone())
                } else {
                    self.browse = None;
                    let mut line = String::new();
                    core::mem::swap(&mut line, &mut self.stash);
                    assert(self@.entries =~= old(self)@.entries);
                    assert(self@ =~= old(self)@.newer().1);
                    Some(line)
                }
            },
        }
    }
}

/// Browsing loses nothing: a step to an older entry and back shows the line
/// that was shown before it, be it an entry or the line that was being typed,
/// and the entries stay as they are.
pub proof fn law_browsing_returns(history: HistoryModel, current: Seq<char>)
    requires
        history.wf(),
        history.older(current).0 is Some,
    ensures
        ({
            let (back, after) = history.older(current).1.newer();
            &&& after.entries == history.entries
            &&& after.browse == history.browse
            &&& back == Some(
                match history.browse {
                    None => current,
                    Some(i) => history.entries[i],
                },
            )
        }),
{
}

/// The history never outgrows its capacity, and the latest line is its newest
/// entry.
pub proof fn law_history_is_bounded(history: HistoryModel, line: Seq<char>)
    requires
        history.wf(),
    ensures
        history.recorded(line).wf(),
        line.len() > 0 ==> history.recorded(line).entries.len() > 0 && history.recorded(
            line,
        ).entries.last() == line,
{
}

/// The history after `n` steps to an older entry.
pub open spec fn stepped_back(history: HistoryModel, current: Seq<char>, n: nat) -> HistoryModel
    decreases n,
{
    if n == 0 {
        history
    } else {
        stepped_back(history, current, (n - 1) as nat).older(current).1
    }
}

/// Every line that the history holds can be recalled: after `n` steps, another
/// one shows the line that was recorded before the `n` latest. Beyond the oldest
/// line there is nothing.
pub proof fn law_history_is_recalled(history: HistoryModel, current: Seq<char>, n: nat)
    requires
        history.wf(),
        history.browse is None,
        n <= history.entries.len(),
    ensures
        stepped_back(history, current, n).older(current).0 == (if n < history.entries.len() {
            Some(history.entries[history.entries.len() - 1 - n])
        } else {
            None
        }),
        stepped_back(history, current, n).entries == history.entries,
        stepped_back(history, current, n).browse == (if n == 0 {
            None
        } else {
            Some(history.entries.len() - n)
        }),
    decreases n,
{
    if n > 0 {
        law_history_is_recalled(history, current, (n - 1) as nat);
    }
}

/// The history after lines were recorded, one after another.
pub open spec fn all_recorded(history: HistoryModel, lines: Seq<Seq<char>>) -> HistoryModel
    decreases lines.len(),
{
    if lines.len() == 0 {
        history
    } else {
        all_recorded(history, lines.drop_last()).recorded(lines.last())
    }
}

/// The lines that are worth keeping: all but empty lines and immediate repeats.
pub open spec fn kept_lines(lines: Seq<Seq<char>>) -> Seq<Seq<char>>
    decreases lines.len(),
{
    if lines.len() == 0 {
        Seq::empty()
    } else {
        let earlier = kept_lines(lines.drop_last());
        let line = lines.last();
        if line.len() == 0 || (earlier.len() > 0 && earlier.last() == line) {
            earlier
        } else {
            earlier.push(line)
        }
    }
}

/// The last lines, as many as the history holds.
pub open spec fn latest(lines: Seq<Seq<char>>) -> Seq<Seq<char>> {
    if lines.len() <= HISTORY_CAP {
        lines
    } else {
        lines.skip(lines.len() - HISTORY_CAP)
    }
}

/// Whatever lines are recorded in an empty history, its entries are the latest
/// of those worth keeping, in their order.
pub proof fn law_history_keeps_the_latest_lines(lines: Seq<Seq<char>>)
    ensures
        ({
            let empty = HistoryModel { entries: Seq::empty(), browse: None, stash: Seq::empty() };
            let history = all_recorded(empty, lines);
            &&& history.entries == latest(kept_lines(lines))
            &&& history.browse is None
            &&& history.wf()
        }),
    decreases lines.len(),
{
    let empty = HistoryModel { entries: Seq::empty(), browse: None, stash: Seq::empty() };
    if lines.len() > 0 {
        let earlier = lines.drop_last();
        let line = lines.last();
        law_history_keeps_the_latest_lines(earlier);
        let kept = kept_lines(earlier);
        let entries = all_recorded(empty, earlier).entries;
        assert(kept.len() > 0 ==> entries.len() > 0 && entries.last() == kept.last());
        if !(line.len() == 0 || (kept.len() > 0 && kept.last() == line)) {
            if kept.len() < HISTORY_CAP {
                assert(latest(kept.push(line)) =~= entries.push(line));
            } else {
                assert(latest(kept.push(line)) =~= entries.drop_first().push(line));
            }
        }
    }
}

/// The history after `n` steps toward the present.
pub open spec fn stepped_forward(history: HistoryModel, n: nat) -> HistoryModel
    decreases n,
{
    if n == 0 {
        history
    } else {
        stepped_forward(history, (n - 1) as nat).newer().1
    }
}

/// As many steps forward as were made back lead to the line that was being
/// typed, which the last of them shows; each step before it shows the line that
/// was shown on the way back. The entries stay as they are.
pub proof fn law_steps_back_are_taken_back(
    history: HistoryModel,
    current: Seq<char>,
    k: nat,
    n: nat,
)
    requires
        history.wf(),
        history.browse is None,
        1 <= k <= history.entries.len(),
        n < k,
    ensures
        ({
            let len = history.entries.len();
            let here = stepped_forward(stepped_back(history, current, k), n);
            let (line, next) = here.newer();
            &&& here.entries == history.entries
            &&& here.browse == Some(len - k + n)
            &&& if n + 1 == k {
                &&& line == Some(current)
                &&& next == (HistoryModel { browse: None, stash: Seq::empty(), ..history })
            } else {
                line == Some(history.entries[len - k + n + 1])
            }
        }),
    decreases n,
{
    lemma_stash_is_kept(history, current, k);
    lemma_steps_forward(history, current, k, n);
}

proof fn lemma_stash_is_kept(history: HistoryModel, current: Seq<char>, k: nat)
    requires
        history.wf(),
        history.browse is None,
        1 <= k <= history.entries.len(),
    ensures
        stepped_back(history, current, k).stash == current,
    decreases k,
{
    law_history_is_recalled(history, current, (k - 1) as nat);
    if k > 1 {
        lemma_stash_is_kept(history, current, (k - 1) as nat);
    } else {
        reveal_with_fuel(stepped_back, 2);
    }
}

proof fn lemma_steps_forward(history: HistoryModel, current: Seq<char>, k: nat, n: nat)
    requires
        history.wf(),
        history.browse is None,
        1 <= k <= history.entries.len(),
        n < k,
    ensures
        stepped_forward(stepped_back(history, current, k), n) == (HistoryModel {
            entries: history.entries,
            browse: Some(history.entries.len() - k + n),
            stash: stepped_back(history, current, k).stash,
        }),
    decreases n,
{
    law_history_is_recalled(history, current, k);
    if n > 0 {
        lemma_steps_forward(history, current, k, (n - 1) as nat);
    }
}

/// A command line, parsed.
pub enum Command {
    /// Nothing but white space.
    Empty,
    Help,
    Clear,
    /// Print this text.
    Echo(String),
    Date,
    Uptime,
    /// Pause for this many milliseconds; nothing if it was not given a number.
    Sleep(Option<u64>),
    Spawn,
    Threads,
    User,
    /// List this directory.
    Ls(String),
    /// Print this file; nothing if no path was given.
    Cat(Option<String>),
    Disk,
    About,
    /// A word that is no command.
    Unknown(String),
}

/// What a [`Command`] stands for.
pub ghost enum CommandModel {
    Empty,
    Help,
    Clear,
    Echo(Seq<char>),
    Date,
    Uptime,
    Sleep(Option<u64>),
    Spawn,
    Threads,
    User,
    Ls(Seq<char>),
    Cat(Option<Seq<char>>),
    Disk,
    About,
    Unknown(Seq<char>),
}

impl View for Command {
    type V = CommandModel;

    open spec fn view(&self) -> CommandModel {
        match self {
            Command::Empty => CommandModel::Empty,
            Command::Help => CommandModel::Help,
            Command::Clear => CommandModel::Clear,
            Command::Echo(text) => CommandModel::Echo(text@),
            Command::Date => CommandModel::Date,
            Command::Uptime => CommandModel::Uptime,
            Command::Sleep(ms) => CommandModel::Sleep(*ms),
            Command::Spawn => CommandModel::Spawn,
            Command::Threads => CommandModel::Threads,
            Command::User => CommandModel::User,
            Command::Ls(path) => CommandModel::Ls(path@),
            Command::Cat(path) => CommandModel::Cat(line_view(*path)),
            Command::Disk => CommandModel::Disk,
            Command::About => CommandModel::About,
            Command::Unknown(word) => CommandModel::Unknown(word@),
        }
    }
}

/// The first word of a line.
pub open spec fn first_word(line: Seq<char>) -> Seq<char> {
    let start = crate::text::skip_space(line, 0);
    line.subrange(start, crate::text::word_end(line, start))
}

/// What follows the first white space of a line.
pub open spec fn argument(line: Seq<char>) -> Seq<char> {
    let end = crate::text::word_end(line, 0);
    if end < line.len() {
        line.skip(end + 1)
    } else {
        Seq::empty()
    }
}

/// The command that a line is.
pub open spec fn command_of(line: Seq<char>) -> CommandModel {
    let word = first_word(line);
    let rest = argument(line);
    let trimmed = crate::text::trimmed(rest);
    if word.len() == 0 {
        CommandModel::Empty
    } else if word == "help"@ {
        CommandModel::Help
    } else if word == "clear"@ {
        CommandModel::Clear
    } else if word == "echo"@ {
        CommandModel::Echo(crate::text::trimmed_start(rest))
    } else if word == "date"@ {
        CommandModel::Date
    } else if word == "uptime"@ {
        CommandModel::Uptime
    } else if word == "sleep"@ {
        CommandModel::Sleep(crate::text::number(trimmed))
    } else if word == "spawn"@ {
        CommandModel::Spawn
    } else if word == "threads"@ {
        CommandModel::Threads
    } else if word == "user"@ {
        CommandModel::User
    } else if word == "ls"@ {
        CommandModel::Ls(trimmed)
    } else if word == "cat"@ {
        CommandModel::Cat(
            if trimmed.len() == 0 {
                None
            } else {
                Some(trimmed)
            },
        )
    } else if word == "disk"@ {
        CommandModel::Disk
    } else if word == "about"@ {
        CommandModel::About
    } else {
        CommandModel::Unknown(word)
    }
}

/// Parses a command line.
pub fn parse_command(line: &[char]) -> (command: Command)
    ensures
        command@ == command_of(line@),
{
    let start: usize = after_space(line, 0);
    let end: usize = after_word(line, start);
    let word: &[char] = vstd::slice::slice_subrange(line, start, end);
    if word.len() == 0 {
        return Command::Empty;
    }
    // Everything after the first whitespace-delimited token.
    let split: usize = after_word(line, 0);
    let rest: &[char] = if split < line.len() {
        vstd::slice::slice_subrange(line, split + 1, line.len())
    } else {
        vstd::slice::slice_subrange(line, 0, 0)
    };
    assert(rest@ =~= argument(line@));
    let trimmed: &[char] = trim(rest);

    if is_text(word, "help") {
        Command::Help
    } else if is_text(word, "clear") {
        Command::Clear
    } else if is_text(word, "echo") {
        let from: usize = after_space(rest, 0);
        let text: &[char] = vstd::slice::slice_subrange(rest, from, rest.len());
        assert(text@ =~= crate::text::trimmed_start(rest@));
        Command::Echo(text_of(text))
    } else if is_text(word, "date") {
        Command::Date
    } else if is_text(word, "uptime") {
        Command::Uptime
    } else if is_text(word, "sleep") {
        Command::Sleep(parse_number(trimmed))
    } else if is_text(word, "spawn") {
        Command::Spawn
    } else if is_text(word, "threads") {
        Command::Threads
    } else if is_text(word, "user") {
        Command::User
    } else if is_text(word, "ls") {
        Command::Ls(text_of(trimmed))
    } else if is_text(word, "cat") {
        Command::Cat(
            if trimmed.len() == 0 {
                None
            } else {
                Some(text_of(trimmed))
            },
        )
    } else if is_text(word, "disk") {
        Command::Disk
    } else if is_text(word, "about") {
        Command::About
    } else {
        Command::Unknown(text_of(word))
    }
}

/// What a key press leads to on the screen.
pub enum Effect {
    /// No key was pressed.
    Nothing,
    /// The key has no effect, but the view goes back to the live screen.
    Live,
    /// The last character is erased.
    Erase,
    /// A character is printed.
    Echo(char),
    /// The last `erase` characters are erased, and `text` is printed.
    Replace { erase: usize, text: String },
    /// A new line is started, the command is run, and the prompt is printed.
    Run(Command),
    PageUp,
    PageDown,
}

/// What an [`Effect`] stands for.
pub ghost enum EffectModel {
    Nothing,
    Live,
    Erase,
    Echo(char),
    Replace(int, Seq<char>),
    Run(CommandModel),
    PageUp,
    PageDown,
}

impl View for Effect {
    type V = EffectModel;

    open spec fn view(&self) -> EffectModel {
        match self {
            Effect::Nothing => EffectModel::Nothing,
            Effect::Live => EffectModel::Live,
            Effect::Erase => EffectModel::Erase,
            Effect::Echo(c) => EffectModel::Echo(*c),
            Effect::Replace { erase, text } => EffectModel::Replace(*erase as int, text@),
            Effect::Run(command) => EffectModel::Run(command@),
            Effect::PageUp => EffectModel::PageUp,
            Effect::PageDown => EffectModel::PageDown,
        }
    }
}

/// The line that is being edited, and the history.
pub struct Editor {
    pub line: String,
    pub history: History,
}

/// What an [`Editor`] stands for.
#[verifier::ext_equal]
pub ghost struct EditorModel {
    pub line: Seq<char>,
    pub history: HistoryModel,
}

impl View for Editor {
    type V = EditorModel;

    open spec fn view(&self) -> EditorModel {
        EditorModel { line: self.line@, history: self.history@ }
    }
}

impl EditorModel {
    /// Once another line is shown, or none.
    pub open spec fn showing(self, step: (Option<Seq<char>>, HistoryModel)) -> (
        EffectModel,
        EditorModel,
    ) {
        match step.0 {
            None => (EffectModel::Live, EditorModel { history: step.1, ..self }),
            Some(line) => (
                EffectModel::Replace(self.line.len() as int, line),
                EditorModel { line, history: step.1 },
            ),
        }
    }

    /// What a key leads to, and the editor after it. Enter runs the line,
    /// backspace and delete remove its last character, any other character that
    /// is no control character is added to it; the arrows browse the history,
    /// and the page keys scroll.
    pub open spec fn after_key(self, key: Key) -> (EffectModel, EditorModel) {
        match key {
            Key::Unicode(c) => if c == '\n' {
                let line = crate::text::trimmed(self.line);
                (
                    EffectModel::Run(command_of(line)),
                    EditorModel { line: Seq::empty(), history: self.history.recorded(line) },
                )
            } else if c as u32 == 0x08 || c as u32 == 0x7F {
                if self.line.len() > 0 {
                    (EffectModel::Erase, EditorModel { line: self.line.drop_last(), ..self })
                } else {
                    (EffectModel::Live, self)
                }
            } else if crate::text::is_control_char(c) {
                (EffectModel::Live, self)
            } else {
                (EffectModel::Echo(c), EditorModel { line: self.line.push(c), ..self })
            },
            Key::Raw(code) => if code == ARROW_UP {
                self.showing(self.history.older(self.line))
            } else if code == ARROW_DOWN {
                self.showing(self.history.newer())
            } else if code == PAGE_UP {
                (EffectModel::PageUp, self)
            } else if code == PAGE_DOWN {
                (EffectModel::PageDown, self)
            } else {
                (EffectModel::Live, self)
            },
        }
    }
}

impl Editor {
    /// An empty line, and an empty history.
    pub fn new() -> (editor: Editor)
        ensures
            editor@.history.wf(),
            editor@ == (EditorModel {
                line: Seq::empty(),
                history: HistoryModel {
                    entries: Seq::empty(),
                    browse: None,
                    stash: Seq::empty(),
                },
            }),
    {
        Editor { line: String::new(), history: History::new() }
    }

    /// Swaps the line for another one, if there is another one to show.
    fn show(&mut self, other: Option<String>) -> (effect: Effect)
        ensures
            final(self).history == old(self).history,
            (effect@, final(self)@) == old(self)@.showing(
                (line_view(other), old(self)@.history),
            ),
    {
        match other {
            None => Effect::Live,
            Some(text) => {
                let erase: usize = chars_of(self.line.as_str()).len();
                self.line = text.clone();
                Effect::Replace { erase, text }
            },
        }
    }

    /// Goes on with a key.
    pub fn press(&mut self, key: Key) -> (effect: Effect)
        requires
            old(self)@.history.wf(),
        ensures
            final(self)@.history.wf(),
            (effect@, final(self)@) == old(self)@.after_key(key),
    {
        match key {
            Key::Unicode(c) => {
                if c == '\n' {
                    let chars: Vec<char> = chars_of(self.line.as_str());
                    let line: &[char] = trim(chars.as_slice());
                    self.history.record(text_of(line));
                    let command = parse_command(line);
                    self.line = String::new();
                    Effect::Run(command)
                } else if c as u32 == 0x08 || c as u32 == 0x7F {
                    // Backspace (0x08) or Delete (0x7f): remove the last char.
                    match self.line.pop() {
                        Some(_) => Effect::Erase,
                        None => Effect::Live,
                    }
                } else if is_control(c) {
                    // Ignore other control chars; echo everything printable.
                    Effect::Live
                } else {
                    self.line.push(c);
                    Effect::Echo(c)
                }
            },
            Key::Raw(code) => {
                if code == ARROW_UP {
                    let older = self.history.older(&self.line);
                    self.show(older)
                } else if code == ARROW_DOWN {
                    let newer = self.history.newer();
                    self.show(newer)
                } else if code == PAGE_UP {
                    Effect::PageUp
                } else if code == PAGE_DOWN {
                    Effect::PageDown
                } else {
                    Effect::Live
                }
            },
        }
    }
}

/// A character that was typed is removed by backspace.
pub proof fn law_backspace_removes_what_was_typed(editor: EditorModel, c: char)
    requires
        !crate::text::is_control_char(c),
    ensures
        editor.after_key(Key::Unicode(c)).1.line == editor.line.push(c),
        editor.after_key(Key::Unicode(c)).1.after_key(Key::Unicode('\x7f')).1 == editor,
{
    assert(editor.line.push(c).drop_last() =~= editor.line);
}

/// The shell: a decoder for scancodes, and an editor for the keys.
pub struct Shell {
    pub decoder: Decoder,
    pub editor: Editor,
}

/// Starts the shell.
///
/// The shell takes ownership of the scancodes: only one consumer of them can
/// exist.
pub fn run_shell() -> (shell: Shell)
    ensures
        shell.editor@.history.wf(),
        crate::task::keyboard::fed(shell.decoder) == Seq::<u8>::empty(),
        shell.editor@ == (EditorModel {
            line: Seq::empty(),
            history: HistoryModel { entries: Seq::empty(), browse: None, stash: Seq::empty() },
        }),
{
    Shell { decoder: Decoder::new(), editor: Editor::new() }
}

impl Shell {
    /// Goes on with a scancode.
    pub fn scancode(&mut self, byte: u8) -> (effect: Effect)
        requires
            old(self).editor@.history.wf(),
        ensures
            final(self).editor@.history.wf(),
            ({
                let bytes = crate::task::keyboard::fed(old(self).decoder).push(byte);
                &&& crate::task::keyboard::fed(final(self).decoder) == bytes
                &&& match crate::task::keyboard::decoded_key(bytes) {
                    None => effect@ == EffectModel::Nothing && final(self).editor@ == old(
                        self,
                    ).editor@,
                    Some(key) => (effect@, final(self).editor@) == old(self).editor@.after_key(key),
                }
            }),
    {
        match self.decoder.feed(byte) {
            None => Effect::Nothing,
            Some(key) => self.editor.press(key),
        }
    }
}

/// What `echo` prints.
pub fn echo_text(arg: &String) -> (text: String)
    ensures
        text@ == arg@ + "\n"@,
{
    let mut text = String::new();
    text.append(arg.as_str());
    text.append("\n");
    assert(text@ =~= arg@ + "\n"@);
    text
}

/// What `date` prints.
pub fn date_text(now: DateTime) -> (text: String)
    ensures
        text@ == crate::rtc::time_text(now) + " UTC\n"@,
{
    let mut text = String::new();
    now.push_to(&mut text);
    text.append(" UTC\n");
    assert(text@ =~= crate::rtc::time_text(now) + " UTC\n"@);
    text
}

/// What `uptime` prints.
pub open spec fn uptime_line(ms: u64) -> Seq<char> {
    "up "@ + crate::text::decimal((ms / 1000) as nat) + "."@ + crate::text::padded(
        (ms % 1000) as nat,
        3,
        '0',
    ) + " s\n"@
}

/// What `uptime` prints.
pub fn uptime_text(ms: u64) -> (text: String)
    ensures
        text@ == "up "@ + crate::text::decimal((ms / 1000) as nat) + "."@ + crate::text::padded(
            (ms % 1000) as nat,
            3,
            '0',
        ) + " s\n"@,
        text@ == uptime_line(ms),
{
    let mut text = String::new();
    text.append("up ");
    push_decimal(&mut text, ms / 1000);
    text.append(".");
    push_padded(&mut text, ms % 1000, 3, '0');
    text.append(" s\n");
    assert(text@ =~= "up "@ + crate::text::decimal((ms / 1000) as nat) + "."@ + crate::text::padded(
            (ms % 1000) as nat,
            3,
            '0',
        ) + " s\n"@);
    text
}

/// What `sleep` prints once it is over.
pub fn slept_text(ms: u64) -> (text: String)
    ensures
        text@ == "slept "@ + crate::text::decimal(ms as nat) + " ms\n"@,
{
    let mut text = String::new();
    text.append("slept ");
    push_decimal(&mut text, ms);
    text.append(" ms\n");
    assert(text@ =~= "slept "@ + crate::text::decimal(ms as nat) + " ms\n"@);
    text
}

/// What `spawn` prints.
pub open spec fn spawned(result: Result<u64, SpawnError>) -> Seq<char> {
    match result {
        Ok(id) => "spawned thread "@ + crate::text::decimal(id as nat)
            + " (busy loop; watch `threads`)\n"@,
        Err(SpawnError::NotInitialized) => "spawn failed: NotInitialized\n"@,
        Err(SpawnError::TooManyThreads) => "spawn failed: TooManyThreads\n"@,
    }
}

/// What `spawn` prints.
pub fn spawn_text(result: Result<u64, SpawnError>) -> (text: String)
    ensures
        text@ == spawned(result),
{
    let mut text = String::new();
    match result {
        Ok(id) => {
            text.append("spawned thread ");
            push_decimal(&mut text, id);
            text.append(" (busy loop; watch `threads`)\n");
        },
        Err(SpawnError::NotInitialized) => {
            text.append("spawn failed: NotInitialized\n");
        },
        Err(SpawnError::TooManyThreads) => {
            text.append("spawn failed: TooManyThreads\n");
        },
    }
    assert(text@ =~= spawned(result));
    text
}

/// How a thread's state is put.
pub open spec fn state_label(state: State) -> Seq<char> {
    match state {
        State::Running => "running (shell/executor)"@,
        State::Ready => "ready"@,
        State::Finished => "finished (awaiting reap)"@,
    }
}

/// The line that lists a thread.
pub open spec fn thread_line(thread: crate::threads::Listed) -> Seq<char> {
    "  "@ + crate::text::padded(thread.0 as nat, 2, ' ') + "  "@ + state_label(thread.1) + "\n"@
}

/// The lines that list threads.
pub open spec fn thread_lines(threads: Seq<crate::threads::Listed>) -> Seq<char>
    decreases threads.len(),
{
    if threads.len() == 0 {
        Seq::empty()
    } else {
        thread_lines(threads.drop_last()) + thread_line(threads.last())
    }
}

/// What `threads` prints: the threads in the order in which they are listed,
/// and how far the busy threads have counted.
pub fn threads_text(threads: &[(u64, State)], work_counter: u64) -> (text: String)
    ensures
        text@ == thread_lines(threads@) + "work counter: "@ + crate::text::decimal(
            work_counter as nat,
        ) + "\n"@,
{
    let mut text = String::new();
    let mut i: usize = 0;
    assert(threads@.take(0) =~= Seq::<(u64, State)>::empty());
    while i < threads.len()
        invariant
            i <= threads@.len(),
            text@ == thread_lines(threads@.take(i as int)),
        decreases threads@.len() - i,
    {
        let ghost before = text@;
        let (id, state): (u64, State) = threads[i];
        text.append("  ");
        push_padded(&mut text, id, 2, ' ');
        text.append("  ");
        match state {
            State::Running => {
                text.append("running (shell/executor)");
            },
            State::Ready => {
                text.append("ready");
            },
            State::Finished => {
                text.append("finished (awaiting reap)");
            },
        }
        text.append("\n");
        assert(text@ =~= before + thread_line(threads@[i as int]));
        assert(threads@.take(i + 1).drop_last() =~= threads@.take(i as int));
        i = i + 1;
    }
    assert(threads@.take(i as int) =~= threads@);
    let ghost lines = text@;
    text.append("work counter: ");
    push_decimal(&mut text, work_counter);
    text.append("\n");
    assert(text@ =~= lines + "work counter: "@ + crate::text::decimal(work_counter as nat)
        + "\n"@);
    text
}

/// What `user` prints once the program has exited.
pub fn user_text(code: u64) -> (text: String)
    ensures
        text@ == "user program exited with code "@ + crate::text::decimal(code as nat) + "\n"@,
{
    let mut text = String::new();
    text.append("user program exited with code ");
    push_decimal(&mut text, code);
    text.append("\n");
    assert(text@ =~= "user program exited with code "@ + crate::text::decimal(code as nat) + "\n"@);
    text
}

/// A name, filled up on the right to at least `width` characters.
pub open spec fn left_aligned(name: Seq<char>, width: nat) -> Seq<char> {
    if name.len() < width {
        name + Seq::new((width - name.len()) as nat, |i: int| ' ')
    } else {
        name
    }
}

/// The line that lists a directory entry: its name, and its size or a mark that
/// it is a directory.
pub open spec fn entry_line(name: Seq<char>, is_dir: bool, size: u32) -> Seq<char> {
    "  "@ + left_aligned(name, 12) + " "@ + (if is_dir {
        "   <DIR>"@
    } else {
        crate::text::padded(size as nat, 8, ' ')
    }) + "\n"@
}

/// The line that `ls` prints for an entry.
pub fn entry_text(name: &str, is_dir: bool, size: u32) -> (text: String)
    ensures
        text@ == entry_line(name@, is_dir, size),
{
    let mut text = String::new();
    text.append("  ");
    text.append(name);
    let len: usize = chars_of(name).len();
    let mut i: usize = len;
    while i < 12
        invariant
            len <= i,
            i <= 12 || i == len,
            len == name@.len(),
            text@ =~= "  "@ + name@ + Seq::new((i - len) as nat, |k: int| ' '),
        decreases 12 - i,
    {
        text.push(' ');
        i = i + 1;
    }
    text.append(" ");
    if is_dir {
        text.append("   <DIR>");
    } else {
        push_padded(&mut text, size as u64, 8, ' ');
    }
    text.append("\n");
    assert(text@ =~= entry_line(name@, is_dir, size));
    text
}

/// What `ls` prints behind the entries.
pub fn entries_text(count: u32) -> (text: String)
    ensures
        text@ == crate::text::decimal(count as nat) + " entries\n"@,
{
    let mut text = String::new();
    push_decimal(&mut text, count as u64);
    text.append(" entries\n");
    assert(text@ =~= crate::text::decimal(count as nat) + " entries\n"@);
    text
}

/// What `disk` prints.
pub fn disk_text(info: &Info) -> (text: String)
    ensures
        text@ == "drive "@ + crate::text::decimal(info.drive as nat) + ": FAT16, "@ + crate::text::decimal(
            info.cluster_count as nat,
        ) + " clusters of "@ + crate::text::decimal(info.bytes_per_cluster as nat) + " bytes\n"@,
{
    let mut text = String::new();
    text.append("drive ");
    push_decimal(&mut text, info.drive as u64);
    text.append(": FAT16, ");
    push_decimal(&mut text, info.cluster_count as u64);
    text.append(" clusters of ");
    push_decimal(&mut text, info.bytes_per_cluster as u64);
    text.append(" bytes\n");
    assert(text@ =~= "drive "@ + crate::text::decimal(info.drive as nat) + ": FAT16, "@ + crate::text::decimal(
            info.cluster_count as nat,
        ) + " clusters of "@ + crate::text::decimal(info.bytes_per_cluster as nat) + " bytes\n"@);
    text
}

/// What `about` prints.
pub fn about_text(version: &str) -> (text: String)
    ensures
        text@ == "rust-os v"@ + version@ + " -- a hobby kernel built on blog_os, then extended.\n"@,
{
    let mut text = String::new();
    text.append("rust-os v");
    text.append(version);
    text.append(" -- a hobby kernel built on blog_os, then extended.\n");
    assert(text@ =~= "rust-os v"@ + version@ + " -- a hobby kernel built on blog_os, then extended.\n"@);
    text
}

/// What an unknown command prints.
pub fn unknown_text(word: &String) -> (text: String)
    ensures
        text@ == "unknown command: `"@ + word@ + "` (try `help`)\n"@,
{
    let mut text = String::new();
    text.append("unknown command: `");
    text.append(word.as_str());
    text.append("` (try `help`)\n");
    assert(text@ =~= "unknown command: `"@ + word@ + "` (try `help`)\n"@);
    text
}

/// What is to be done for a command.
pub enum Action {
    Nothing,
    /// Print this text.
    Print(String),
    /// Clear the screen.
    Clear,
    /// Print the time; see [`date_text`].
    TellTime,
    /// Print the time since boot; see [`uptime_text`].
    TellUptime,
    /// Wait for this many milliseconds, then say so; see [`slept_text`].
    Sleep(u64),
    /// Start a busy thread and tell how that went; see [`spawn_text`].
    Spawn,
    /// List the threads; see [`threads_text`].
    ListThreads,
    /// Run the embedded program and tell its exit code; see [`user_text`].
    RunUser,
    /// List this directory; see [`entry_text`] and [`entries_text`].
    ListDirectory(String),
    /// Print this file.
    PrintFile(String),
    /// Describe the mounted volume; see [`disk_text`].
    DescribeDisk,
}

/// What an [`Action`] stands for.
pub ghost enum ActionModel {
    Nothing,
    Print(Seq<char>),
    Clear,
    TellTime,
    TellUptime,
    Sleep(u64),
    Spawn,
    ListThreads,
    RunUser,
    ListDirectory(Seq<char>),
    PrintFile(Seq<char>),
    DescribeDisk,
}

impl View for Action {
    type V = ActionModel;

    open spec fn view(&self) -> ActionModel {
        match self {
            Action::Nothing => ActionModel::Nothing,
            Action::Print(text) => ActionModel::Print(text@),
            Action::Clear => ActionModel::Clear,
            Action::TellTime => ActionModel::TellTime,
            Action::TellUptime => ActionModel::TellUptime,
            Action::Sleep(ms) => ActionModel::Sleep(*ms),
            Action::Spawn => ActionModel::Spawn,
            Action::ListThreads => ActionModel::ListThreads,
            Action::RunUser => ActionModel::RunUser,
            Action::ListDirectory(path) => ActionModel::ListDirectory(path@),
            Action::PrintFile(path) => ActionModel::PrintFile(path@),
            Action::DescribeDisk => ActionModel::DescribeDisk,
        }
    }
}

/// What is to be done for a command, in this version of the kernel.
pub open spec fn action_of(command: CommandModel, version: Seq<char>) -> ActionModel {
    match command {
        CommandModel::Empty => ActionModel::Nothing,
        CommandModel::Help => ActionModel::Print(HELP@),
        CommandModel::Clear => ActionModel::Clear,
        CommandModel::Echo(arg) => ActionModel::Print(arg + "\n"@),
        CommandModel::Date => ActionModel::TellTime,
        CommandModel::Uptime => ActionModel::TellUptime,
        CommandModel::Sleep(None) => ActionModel::Print(SLEEP_USAGE@),
        CommandModel::Sleep(Some(ms)) => ActionModel::Sleep(ms),
        CommandModel::Spawn => ActionModel::Spawn,
        CommandModel::Threads => ActionModel::ListThreads,
        CommandModel::User => ActionModel::RunUser,
        CommandModel::Ls(path) => ActionModel::ListDirectory(path),
        CommandModel::Cat(None) => ActionModel::Print(CAT_USAGE@),
        CommandModel::Cat(Some(path)) => ActionModel::PrintFile(path),
        CommandModel::Disk => ActionModel::DescribeDisk,
        CommandModel::About => ActionModel::Print(
            "rust-os v"@ + version + " -- a hobby kernel built on blog_os, then extended.\n"@,
        ),
        CommandModel::Unknown(word) => ActionModel::Print(
            "unknown command: `"@ + word + "` (try `help`)\n"@,
        ),
    }
}

/// A text of its own.
fn owned_text(text: &str) -> (owned: String)
    ensures
        owned@ == text@,
{
    let mut owned = String::new();
    owned.append(text);
    assert(owned@ =~= text@);
    owned
}

/// Decides what is to be done for a command.
pub fn execute(command: Command, version: &str) -> (action: Action)
    ensures
        action@ == action_of(command@, version@),
{
    match command {
        Command::Empty => Action::Nothing,
        Command::Help => Action::Print(owned_text(HELP)),
        Command::Clear => Action::Clear,
        Command::Echo(arg) => Action::Print(echo_text(&arg)),
        Command::Date => Action::TellTime,
        Command::Uptime => Action::TellUptime,
        Command::Sleep(None) => Action::Print(owned_text(SLEEP_USAGE)),
        Command::Sleep(Some(ms)) => Action::Sleep(ms),
        Command::Spawn => Action::Spawn,
        Command::Threads => Action::ListThreads,
        Command::User => Action::RunUser,
        Command::Ls(path) => Action::ListDirectory(path),
        Command::Cat(None) => Action::Print(owned_text(CAT_USAGE)),
        Command::Cat(Some(path)) => Action::PrintFile(path),
        Command::Disk => Action::DescribeDisk,
        Command::About => Action::Print(about_text(version)),
        Command::Unknown(word) => Action::Print(unknown_text(&word)),
    }
}

/// A word: something, without white space in it.
pub open spec fn is_word(word: Seq<char>) -> bool {
    word.len() > 0 && forall|i: int|
        0 <= i < word.len() ==> !crate::text::is_space(#[trigger] word[i])
}

/// The line is this word, followed by white space and `rest`, or by nothing at all,
/// in which case there is no `rest` either.
pub open spec fn is_line(line: Seq<char>, word: Seq<char>, space: char, rest: Seq<char>) -> bool {
    ||| line == word && rest.len() == 0
    ||| crate::text::is_space(space) && line == word.push(space) + rest
}

proof fn lemma_first_word(line: Seq<char>, word: Seq<char>, space: char, rest: Seq<char>)
    requires
        is_word(word),
        is_line(line, word, space, rest),
    ensures
        first_word(line) == word,
        argument(line) == rest,
{
    assert(line[0] == word[0]);
    assert(crate::text::skip_space(line, 0) == 0);
    crate::text::lemma_word_end(line, 0);
    let end = crate::text::word_end(line, 0);
    let n = word.len() as int;
    assert(end == n) by {
        if end < n {
            assert(line[end] == word[end]);
        }
        if end > n {
            assert(line[n] == space);
        }
    }
    assert(line.subrange(0, n) =~= word);
    assert(argument(line) =~= rest);
}

/// The words that the shell knows differ from one another.
proof fn lemma_words_differ()
    ensures
        "help"@.len() == 4 && "help"@[0] == 'h',
        "clear"@.len() == 5 && "clear"@[0] == 'c',
        "echo"@.len() == 4 && "echo"@[0] == 'e',
        "date"@.len() == 4 && "date"@[0] == 'd' && "date"@[1] == 'a',
        "uptime"@.len() == 6,
        "sleep"@.len() == 5 && "sleep"@[0] == 's' && "sleep"@[1] == 'l',
        "spawn"@.len() == 5 && "spawn"@[0] == 's' && "spawn"@[1] == 'p',
        "threads"@.len() == 7,
        "user"@.len() == 4 && "user"@[0] == 'u',
        "ls"@.len() == 2,
        "cat"@.len() == 3,
        "disk"@.len() == 4 && "disk"@[0] == 'd' && "disk"@[1] == 'i',
        "about"@.len() == 5 && "about"@[0] == 'a',
{
    reveal_strlit("help");
    reveal_strlit("clear");
    reveal_strlit("echo");
    reveal_strlit("date");
    reveal_strlit("uptime");
    reveal_strlit("sleep");
    reveal_strlit("spawn");
    reveal_strlit("threads");
    reveal_strlit("user");
    reveal_strlit("ls");
    reveal_strlit("cat");
    reveal_strlit("disk");
    reveal_strlit("about");
}

/// What a line leads to, by its first word: each command does what it is for, with
/// what follows the word, freed of white space at its ends where that does not
/// belong to it. A word that is no command is named in the answer.
pub proof fn law_lines_do_what_their_word_says(
    line: Seq<char>,
    word: Seq<char>,
    space: char,
    rest: Seq<char>,
    version: Seq<char>,
)
    requires
        is_word(word),
        is_line(line, word, space, rest),
    ensures
        ({
            let action = action_of(command_of(line), version);
            let arg = crate::text::trimmed(rest);
            &&& word == "help"@ ==> action == ActionModel::Print(HELP@)
            &&& word == "clear"@ ==> action == ActionModel::Clear
            &&& word == "echo"@ ==> action == ActionModel::Print(
                crate::text::trimmed_start(rest) + "\n"@,
            )
            &&& word == "date"@ ==> action == ActionModel::TellTime
            &&& word == "uptime"@ ==> action == ActionModel::TellUptime
            &&& word == "sleep"@ ==> action == (match crate::text::number(arg) {
                Some(ms) => ActionModel::Sleep(ms),
                None => ActionModel::Print(SLEEP_USAGE@),
            })
            &&& word == "spawn"@ ==> action == ActionModel::Spawn
            &&& word == "threads"@ ==> action == ActionModel::ListThreads
            &&& word == "user"@ ==> action == ActionModel::RunUser
            &&& word == "ls"@ ==> action == ActionModel::ListDirectory(arg)
            &&& word == "cat"@ ==> action == (if arg.len() > 0 {
                ActionModel::PrintFile(arg)
            } else {
                ActionModel::Print(CAT_USAGE@)
            })
            &&& word == "disk"@ ==> action == ActionModel::DescribeDisk
            &&& word == "about"@ ==> action == ActionModel::Print(
                "rust-os v"@ + version + " -- a hobby kernel built on blog_os, then extended.\n"@,
            )
            &&& word != "help"@ && word != "clear"@ && word != "echo"@ && word != "date"@ && word
                != "uptime"@ && word != "sleep"@ && word != "spawn"@ && word != "threads"@ && word
                != "user"@ && word != "ls"@ && word != "cat"@ && word != "disk"@ && word != "about"@
                ==> action == ActionModel::Print(
                "unknown command: `"@ + word + "` (try `help`)\n"@,
            )
        }),
{
    lemma_first_word(line, word, space, rest);
    lemma_words_differ();
}

/// A line of nothing but white space leads to nothing.
pub proof fn law_blank_lines_do_nothing(line: Seq<char>, version: Seq<char>)
    requires
        forall|i: int| 0 <= i < line.len() ==> crate::text::is_space(#[trigger] line[i]),
    ensures
        action_of(command_of(line), version) == ActionModel::Nothing,
{
    crate::text::lemma_skip_space(line, 0);
    let start = crate::text::skip_space(line, 0);
    assert(start == line.len());
    assert(first_word(line).len() == 0);
}

/// What keys do to the line. Enter runs what was typed, without white space at its
/// ends, and starts an empty line; backspace and delete take the last character
/// away; any other control character changes nothing; everything else is added at
/// the end, and shown.
pub proof fn law_keys_edit_the_line(editor: EditorModel, c: char)
    ensures
        ({
            let (effect, after) = editor.after_key(Key::Unicode(c));
            let n = c as u32;
            &&& n == 10 ==> effect == EffectModel::Run(
                command_of(crate::text::trimmed(editor.line)),
            ) && after.line.len() == 0 && after.history == editor.history.recorded(
                crate::text::trimmed(editor.line),
            )
            &&& (n == 8 || n == 127) && editor.line.len() > 0 ==> effect == EffectModel::Erase
                && after.line == editor.line.drop_last()
            &&& (n == 8 || n == 127) && editor.line.len() == 0 ==> effect == EffectModel::Live
                && after == editor
            &&& (n < 32 || 127 < n < 160) && n != 10 && n != 8 ==> effect == EffectModel::Live
                && after == editor
            &&& (32 <= n < 127 || 160 <= n) ==> effect == EffectModel::Echo(c) && after.line
                == editor.line.push(c)
            &&& n != 10 ==> after.history == editor.history
        }),
{
}

/// What the other keys do. The arrows show an older line, or a newer one, in place
/// of the line, all of which is erased; where there is none, nothing changes. The
/// page keys scroll, and any other key does nothing.
pub proof fn law_arrows_browse_and_pages_scroll(editor: EditorModel, code: u8)
    ensures
        ({
            let (effect, after) = editor.after_key(Key::Raw(code));
            let step = if code == 88 {
                editor.history.older(editor.line)
            } else {
                editor.history.newer()
            };
            &&& code == 88 || code == 102 ==> after.history == step.1 && match step.0 {
                Some(line) => after.line == line && effect == EffectModel::Replace(
                    editor.line.len() as int,
                    line,
                ),
                None => after.line == editor.line && effect == EffectModel::Live,
            }
            &&& code == 33 ==> effect == EffectModel::PageUp && after == editor
            &&& code == 55 ==> effect == EffectModel::PageDown && after == editor
            &&& code != 88 && code != 102 && code != 33 && code != 55 ==> effect
                == EffectModel::Live && after == editor
        }),
{
}

/// How threads are listed: a line for each, in the order in which they come.
pub proof fn law_every_thread_has_its_line(
    threads: Seq<crate::threads::Listed>,
    more: Seq<crate::threads::Listed>,
)
    ensures
        thread_lines(Seq::empty()) == Seq::<char>::empty(),
        threads.len() == 1 ==> thread_lines(threads) == thread_line(threads[0]),
        thread_lines(threads + more) == thread_lines(threads) + thread_lines(more),
    decreases more.len(),
{
    assert(thread_lines(Seq::empty()) =~= Seq::<char>::empty());
    if threads.len() == 1 {
        assert(threads.drop_last() =~= Seq::<crate::threads::Listed>::empty());
        assert(thread_lines(threads) =~= thread_line(threads[0]));
    }
    if more.len() == 0 {
        assert(threads + more =~= threads);
        assert(thread_lines(more) =~= Seq::<char>::empty());
        assert(thread_lines(threads) + thread_lines(more) =~= thread_lines(threads));
    } else {
        law_every_thread_has_its_line(threads, more.drop_last());
        assert((threads + more).drop_last() =~= threads + more.drop_last());
        assert(thread_lines(threads + more) =~= thread_lines(threads) + thread_lines(more));
    }
}

/// The uptime is told to the millisecond: in seconds, with three digits behind the
/// point, which together give the milliseconds back.
pub proof fn law_the_uptime_is_told_exactly(ms: u64) -> (parts: (Seq<char>, Seq<char>))
    ensures
        uptime_line(ms) == "up "@ + parts.0 + "."@ + parts.1 + " s\n"@,
        crate::text::all_digits(parts.0) && parts.0.len() >= 1,
        crate::text::all_digits(parts.1) && parts.1.len() == 3,
        1000 * crate::text::digits_value(parts.0) + crate::text::digits_value(parts.1) == ms,
{
    crate::text::law_numbers_are_written_in_digits((ms / 1000) as nat);
    reveal_with_fuel(crate::text::ten_to, 4);
    crate::text::law_zeros_in_front_change_nothing((ms % 1000) as nat, 3);
    (
        crate::text::decimal((ms / 1000) as nat),
        crate::text::padded((ms % 1000) as nat, 3, '0'),
    )
}

/// The lines of a directory's entries line up: the name stands behind two spaces,
/// whole, and is followed by spaces up to the column of the sizes, which end in the
/// same column as long as the names have up to twelve characters and the sizes up
/// to eight digits. A file's line ends in its size, a directory's in a mark.
pub proof fn law_entries_line_up(name: Seq<char>, is_dir: bool, size: u32)
    ensures
        ({
            let line = entry_line(name, is_dir, size);
            let digits = crate::text::decimal(size as nat);
            let mark = seq!['<', 'D', 'I', 'R', '>'];
            let column: int = if name.len() < 12 {
                14
            } else {
                2int + name.len()
            };
            let told = if is_dir {
                mark
            } else {
                digits
            };
            let start = line.len() - 1 - told.len();
            &&& line.last() == '\n'
            &&& line[0] == ' ' && line[1] == ' '
            &&& line.subrange(2, 2int + name.len()) == name
            &&& line.subrange(start, start + told.len()) == told
            &&& column + 1 <= start
            &&& forall|i: int| 2 + name.len() <= i < start ==> #[trigger] line[i] == ' '
            &&& line.len() == column + 1 + (if told.len() < 8 {
                8
            } else {
                told.len()
            }) + 1
        }),
{
    reveal_strlit("  ");
    reveal_strlit(" ");
    reveal_strlit("\n");
    reveal_strlit("   <DIR>");
    let line = entry_line(name, is_dir, size);
    let digits = crate::text::decimal(size as nat);
    let mark = seq!['<', 'D', 'I', 'R', '>'];
    crate::text::law_numbers_are_filled_up_on_the_left(size as nat, 8, ' ');
    let filled = crate::text::padded(size as nat, 8, ' ');
    let shown_name = left_aligned(name, 12);
    let start = line.len() - 1 - (if is_dir {
        mark
    } else {
        digits
    }).len();
    assert(line.subrange(2, 2int + name.len()) =~= name);
    if is_dir {
        assert(line.subrange(start, start + 5) =~= mark);
    } else {
        let room = filled.len() - digits.len();
        assert(start == 2 + shown_name.len() + 1 + room);
        assert forall|i: int| 0 <= i < digits.len() implies #[trigger] line[start + i] == digits[i] by {
            assert(filled.skip(room)[i] == filled[room + i]);
        }
        assert(line.subrange(start, start + digits.len()) =~= digits);
        assert forall|i: int| 2 + name.len() <= i < start implies #[trigger] line[i] == ' ' by {
            let column = 2 + shown_name.len();
            if i > column {
                assert(line[i] == filled[i - column - 1]);
            }
        }
    }
}

/// The line of a thread tells its number and, behind two spaces, what it does; no two
/// states are put alike.
pub proof fn law_threads_tell_their_number_and_state(thread: crate::threads::Listed, other: State)
    ensures
        ({
            let line = thread_line(thread);
            let digits = crate::text::decimal(thread.0 as nat);
            let label = state_label(thread.1);
            let end = line.len() - 1 - label.len();
            &&& line.last() == '\n'
            &&& line.subrange(end, line.len() - 1) == label
            &&& line[end - 1] == ' ' && line[end - 2] == ' '
            &&& line.subrange(end - 2 - digits.len(), end - 2) == digits
            &&& forall|i: int| 0 <= i < end - 2 - digits.len() ==> #[trigger] line[i] == ' '
        }),
        state_label(other) == state_label(thread.1) ==> other == thread.1,
        thread.1 is Ready ==> state_label(thread.1) == "ready"@,
        thread.1 is Running ==> state_label(thread.1).take(7) == "running"@,
        thread.1 is Finished ==> state_label(thread.1).take(8) == "finished"@,
{
    reveal_strlit("  ");
    reveal_strlit("\n");
    reveal_strlit("ready");
    reveal_strlit("running");
    reveal_strlit("finished");
    reveal_strlit("running (shell/executor)");
    reveal_strlit("finished (awaiting reap)");
    let line = thread_line(thread);
    let digits = crate::text::decimal(thread.0 as nat);
    let label = state_label(thread.1);
    let filled = crate::text::padded(thread.0 as nat, 2, ' ');
    let end = line.len() - 1 - label.len();
    crate::text::law_numbers_are_filled_up_on_the_left(thread.0 as nat, 2, ' ');
    let room = filled.len() - digits.len();
    assert(line.subrange(end, line.len() - 1) =~= label);
    assert forall|i: int| 0 <= i < digits.len() implies #[trigger] line[2 + room + i] == digits[i] by {
        assert(filled.skip(room)[i] == filled[room + i]);
    }
    assert(end - 2 - digits.len() == 2 + room);
    assert(line.subrange(2 + room, end - 2) =~= digits);
    assert forall|i: int| 0 <= i < 2 + room implies #[trigger] line[i] == ' ' by {
        if i >= 2 {
            assert(line[i] == filled[i - 2]);
        }
    }
    assert("running (shell/executor)"@.take(7) =~= "running"@);
    assert("finished (awaiting reap)"@.take(8) =~= "finished"@);
    assert("running (shell/executor)"@[0] == 'r' && "running (shell/executor)"@[1] == 'u');
    assert("finished (awaiting reap)"@[0] == 'f');
    assert("ready"@[0] == 'r' && "ready"@[1] == 'e');
}

/// A line is kept unless it is empty or the line before it once more; then nothing
/// is. Up to fifty lines are kept: with the next one the oldest goes, and all the
/// others stay as they are. Browsing starts anew with every line.
pub proof fn law_fifty_lines_are_kept(history: HistoryModel, line: Seq<char>)
    requires
        history.wf(),
    ensures
        ({
            let entries = history.entries;
            let after = history.recorded(line);
            let repeats = entries.len() > 0 && entries[entries.len() - 1] == line;
            &&& after.browse is None
            &&& after.entries.len() <= 50
            &&& line.len() == 0 || repeats ==> after.entries == entries
            &&& line.len() > 0 && !repeats ==> {
                let gone: int = if entries.len() < 50 {
                    0
                } else {
                    1
                };
                &&& after.entries.len() == entries.len() + 1 - gone
                &&& after.entries[after.entries.len() - 1] == line
                &&& forall|i: int|
                    0 <= i < after.entries.len() - 1 ==> #[trigger] after.entries[i] == entries[i
                        + gone]
            }
        }),
{
}

/// Of the lines that are kept none is empty, and none is the one before it.
pub proof fn law_kept_lines_differ(lines: Seq<Seq<char>>)
    ensures
        kept_lines(lines).len() <= lines.len(),
        forall|i: int| 0 <= i < kept_lines(lines).len() ==> (#[trigger] kept_lines(lines)[i]).len() > 0,
        forall|i: int|
            0 < i < kept_lines(lines).len() ==> #[trigger] kept_lines(lines)[i] != kept_lines(
                lines,
            )[i - 1],
        lines.len() > 0 && lines.last().len() > 0 ==> kept_lines(lines).len() > 0 && kept_lines(
            lines,
        ).last() == lines.last(),
        (forall|i: int| 0 <= i < lines.len() ==> (#[trigger] lines[i]).len() > 0) && (forall|i: int|
            0 < i < lines.len() ==> #[trigger] lines[i] != lines[i - 1]) ==> kept_lines(lines)
            == lines,
    decreases lines.len(),
{
    if lines.len() > 0 {
        let earlier = lines.drop_last();
        law_kept_lines_differ(earlier);
        if (forall|i: int| 0 <= i < lines.len() ==> (#[trigger] lines[i]).len() > 0) && (forall|
            i: int,
        | 0 < i < lines.len() ==> #[trigger] lines[i] != lines[i - 1]) {
            assert forall|i: int| 0 < i < earlier.len() implies #[trigger] earlier[i] != earlier[i
                - 1] by {
                assert(lines[i] != lines[i - 1]);
            }
            assert(kept_lines(earlier) == earlier);
            if earlier.len() > 0 {
                assert(lines[lines.len() - 1] != lines[lines.len() - 2]);
            }
            assert(kept_lines(lines) =~= lines);
        }
    } else {
        assert(kept_lines(lines) =~= lines);
    }
}

} // verus!
