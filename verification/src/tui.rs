//! Decisions of the terminal user interfaces: the modal directory viewer,
//! the line input buffer, the three-part display's commands and its
//! refresh check.  Reading keys, touching files and drawing stay outside.
use vstd::prelude::*;
use crate::text::{chars_of, string_of, string_push, trim_chars, trim};

verus! {

// =====================================================================
// The modal directory viewer
// =====================================================================

/// Whether the screen refreshes or input is protected.
#[derive(Debug, Clone, Copy, PartialEq, Eq, Structural)]
pub enum Mode {
    /// Refreshes happen; input may be interrupted.
    Refresh,
    /// No refreshes; input is not interrupted.
    Insert,
}

/// What the viewer sees happen.
pub enum Message {
    Input(char),
    Backspace,
    Enter,
    Refresh,
    Quit,
}

/// The message a byte read from the terminal stands for: newline and
/// carriage return are Enter, BS and DEL are Backspace, `q` quits, and any
/// other byte is typed as the character of that code.
pub open spec fn byte_message(byte: u8) -> Message {
    if byte == 10 || byte == 13 {
        Message::Enter
    } else if byte == 8 || byte == 127 {
        Message::Backspace
    } else if byte == 113 {
        Message::Quit
    } else {
        Message::Input(byte as char)
    }
}

/// The message a byte read from the terminal stands for.
pub fn message_of_byte(byte: u8) -> (m: Message)
    ensures
        m == byte_message(byte),
{
    if byte == 10 || byte == 13 {
        Message::Enter
    } else if byte == 8 || byte == 127 {
        Message::Backspace
    } else if byte == 113 {
        Message::Quit
    } else {
        Message::Input(byte as char)
    }
}

/// What the viewer asks to be done after handling a message.
pub enum LoopAction {
    /// Nothing beyond the new state.
    Continue,
    /// Leave the main loop.
    Exit,
    /// Scan the directory again, whether it changed or not.
    RescanDirectory,
    /// Show the command that was typed.
    ShowTyped(String),
    /// Check the directory for changes.
    CheckDirectory,
}

/// The viewer's state.
pub struct AppModel {
    pub mode: Mode,
    pub input: Seq<char>,
    pub files: Seq<Seq<char>>,
    pub last_hash: u64,
    pub width: u16,
    pub height: u16,
}

/// The state of the modal directory viewer.
pub struct App {
    mode: Mode,
    input_buffer: String,
    files: Vec<String>,
    last_hash: u64,
    terminal_width: u16,
    terminal_height: u16,
}

impl View for App {
    type V = AppModel;

    closed spec fn view(&self) -> AppModel {
        AppModel {
            mode: self.mode,
            input: self.input_buffer@,
            files: crate::validation::string_views(self.files@),
            last_hash: self.last_hash,
            width: self.terminal_width,
            height: self.terminal_height,
        }
    }
}

pub open spec fn other_mode(m: Mode) -> Mode {
    match m {
        Mode::Refresh => Mode::Insert,
        Mode::Insert => Mode::Refresh,
    }
}

/// What handling a message does: the new state, whether the screen must
/// be drawn again, and what the caller must do.
pub open spec fn message_effect(a: AppModel, m: Message, force_refresh: bool) -> (AppModel, bool, LoopActionModel) {
    match m {
        Message::Input(c) => if a.mode == Mode::Insert || !force_refresh {
            (AppModel { input: a.input.push(c), ..a }, true, LoopActionModel::Continue)
        } else {
            (a, force_refresh, LoopActionModel::Continue)
        },
        Message::Backspace => (
            AppModel {
                input: if a.input.len() > 0 {
                    a.input.drop_last()
                } else {
                    a.input
                },
                ..a
            },
            true,
            LoopActionModel::Continue,
        ),
        Message::Enter => if a.input.len() == 0 {
            let toggled = AppModel { mode: other_mode(a.mode), ..a };
            if a.mode == Mode::Insert {
                (toggled, true, LoopActionModel::RescanDirectory)
            } else {
                (toggled, true, LoopActionModel::Continue)
            }
        } else if a.input == "q"@ || a.input == "quit"@ {
            (a, force_refresh, LoopActionModel::Exit)
        } else {
            (
                AppModel { input: Seq::<char>::empty(), ..a },
                true,
                LoopActionModel::ShowTyped(a.input),
            )
        },
        Message::Refresh => if a.mode == Mode::Refresh {
            (a, force_refresh, LoopActionModel::CheckDirectory)
        } else {
            (a, force_refresh, LoopActionModel::Continue)
        },
        Message::Quit => (a, force_refresh, LoopActionModel::Exit),
    }
}

/// What recording a scan does: when the hash differs from the one
/// recorded, the scanned files and the hash replace the recorded ones.
pub open spec fn directory_update(a: AppModel, hash: u64, files: Seq<Seq<char>>) -> (AppModel, bool) {
    if hash != a.last_hash {
        (AppModel { files, last_hash: hash, ..a }, true)
    } else {
        (a, false)
    }
}

/// Switching modes twice comes back to the first mode.
pub proof fn lemma_toggle_twice(m: Mode)
    ensures
        other_mode(m) != m,
        other_mode(other_mode(m)) == m,
{
}

/// Enter on an empty line twice leaves the viewer as it was.
pub proof fn lemma_enter_twice(a: AppModel, force_refresh: bool)
    requires
        a.input.len() == 0,
    ensures
        message_effect(message_effect(a, Message::Enter, force_refresh).0, Message::Enter, force_refresh).0
            == a,
{
}

/// In insert mode a directory change neither touches the input line nor
/// asks for the directory to be checked.
pub proof fn lemma_insert_mode_keeps_input(a: AppModel, force_refresh: bool)
    requires
        a.mode == Mode::Insert,
    ensures
        message_effect(a, Message::Refresh, force_refresh) == (a, force_refresh, LoopActionModel::Continue),
{
}

/// Once a scan is recorded, recording a scan with the same hash changes
/// nothing.
pub proof fn lemma_update_settles(a: AppModel, hash: u64, files: Seq<Seq<char>>, again: Seq<Seq<char>>)
    ensures
        directory_update(directory_update(a, hash, files).0, hash, again) == (
            directory_update(a, hash, files).0,
            false,
        ),
{
}

/// A loop action, with texts as sequences.
pub enum LoopActionModel {
    Continue,
    Exit,
    RescanDirectory,
    ShowTyped(Seq<char>),
    CheckDirectory,
}

pub open spec fn action_view(a: LoopAction) -> LoopActionModel {
    match a {
        LoopAction::Continue => LoopActionModel::Continue,
        LoopAction::Exit => LoopActionModel::Exit,
        LoopAction::RescanDirectory => LoopActionModel::RescanDirectory,
        LoopAction::ShowTyped(s) => LoopActionModel::ShowTyped(s@),
        LoopAction::CheckDirectory => LoopActionModel::CheckDirectory,
    }
}

fn same_text(a: &str, b: &str) -> (r: bool)
    ensures
        r == (a@ == b@),
{
    let x = chars_of(a);
    let y = chars_of(b);
    crate::validation::same_chars(x.as_slice(), y.as_slice())
}

impl App {
    /// A viewer in refresh mode with an empty input line, showing `files`
    /// of a directory whose contents hash to `last_hash`, on an 80 by 24
    /// terminal.
    pub fn new(files: Vec<String>, last_hash: u64) -> (app: Self)
        ensures
            app@ == (AppModel {
                mode: Mode::Refresh,
                input: Seq::<char>::empty(),
                files: crate::validation::string_views(files@),
                last_hash,
                width: 80,
                height: 24,
            }),
    {
        App {
            mode: Mode::Refresh,
            input_buffer: String::new(),
            files,
            last_hash,
            terminal_width: 80,
            terminal_height: 24,
        }
    }

    /// The current mode.
    pub fn mode(&self) -> (m: Mode)
        ensures
            m == self@.mode,
    {
        self.mode
    }

    /// The input line.
    pub fn input_buffer(&self) -> (s: &str)
        ensures
            s@ == self@.input,
    {
        self.input_buffer.as_str()
    }

    /// The files shown.
    pub fn files(&self) -> (v: &Vec<String>)
        ensures
            crate::validation::string_views(v@) == self@.files,
    {
        &self.files
    }

    /// The terminal's height in lines.
    pub fn terminal_height(&self) -> (h: u16)
        ensures
            h == self@.height,
    {
        self.terminal_height
    }

    /// Switches between refresh and insert mode; returns the mode before.
    pub fn toggle_mode(&mut self) -> (previous: Mode)
        ensures
            previous == old(self)@.mode,
            final(self)@ == (AppModel { mode: other_mode(old(self)@.mode), ..old(self)@ }),
    {
        let previous_mode = self.mode;
        self.mode = match self.mode {
            Mode::Refresh => Mode::Insert,
            Mode::Insert => Mode::Refresh,
        };
        previous_mode
    }

    /// Whether the directory changed since the files were last recorded.
    pub fn directory_changed(&self, current_hash: u64) -> (b: bool)
        ensures
            b == (current_hash != self@.last_hash),
    {
        current_hash != self.last_hash
    }

    /// Records a new scan of the directory, whose contents hash to
    /// `current_hash`, if the directory changed; tells whether it did.
    pub fn update_directory_list(&mut self, current_hash: u64, scanned_files: Vec<String>) -> (changed: bool)
        ensures
            (final(self)@, changed) == directory_update(
                old(self)@,
                current_hash,
                crate::validation::string_views(scanned_files@),
            ),
    {
        if current_hash != self.last_hash {
            self.files = scanned_files;
            self.last_hash = current_hash;
            true
        } else {
            false
        }
    }

    /// Records a scan of the directory unconditionally.
    pub fn force_update_directory_list(&mut self, scanned_files: Vec<String>, current_hash: u64)
        ensures
            final(self)@ == (AppModel {
                files: crate::validation::string_views(scanned_files@),
                last_hash: current_hash,
                ..old(self)@
            }),
    {
        self.files = scanned_files;
        self.last_hash = current_hash;
    }

    /// Discards the input line after the directory changed in refresh
    /// mode; the screen must be drawn again.
    pub fn discard_input(&mut self)
        ensures
            final(self)@ == (AppModel { input: Seq::<char>::empty(), ..old(self)@ }),
    {
        self.input_buffer = String::new();
    }

    /// Handles one message; returns whether the screen must be drawn again
    /// and what the caller must do next.
    pub fn handle_message(&mut self, message: Message, force_refresh: bool) -> (r: (bool, LoopAction))
        ensures
            ({
                let e = message_effect(old(self)@, message, force_refresh);
                final(self)@ == e.0 && r.0 == e.1 && action_view(r.1) == e.2
            }),
    {
        match message {
            Message::Input(c) => {
                if self.mode == Mode::Insert || !force_refresh {
                    string_push(&mut self.input_buffer, c);
                    (true, LoopAction::Continue)
                } else {
                    (force_refresh, LoopAction::Continue)
                }
            },
            Message::Backspace => {
                let cs = chars_of(self.input_buffer.as_str());
                if cs.len() > 0 {
                    let kept = crate::text::copy_range(cs.as_slice(), 0, cs.len() - 1);
                    self.input_buffer = string_of(kept.as_slice());
                    assert(kept@ =~= cs@.drop_last());
                }
                (true, LoopAction::Continue)
            },
            Message::Enter => {
                if self.input_buffer.as_str().is_empty() {
                    let previous_mode = self.toggle_mode();
                    if previous_mode == Mode::Insert {
                        (true, LoopAction::RescanDirectory)
                    } else {
                        (true, LoopAction::Continue)
                    }
                } else if same_text(self.input_buffer.as_str(), "q") || same_text(
                    self.input_buffer.as_str(),
                    "quit",
                ) {
                    (force_refresh, LoopAction::Exit)
                } else {
                    let typed = self.input_buffer.clone();
                    self.input_buffer = String::new();
                    (true, LoopAction::ShowTyped(typed))
                }
            },
            Message::Refresh => {
                if self.mode == Mode::Refresh {
                    (force_refresh, LoopAction::CheckDirectory)
                } else {
                    (force_refresh, LoopAction::Continue)
                }
            },
            Message::Quit => (force_refresh, LoopAction::Exit),
        }
    }
}

// =====================================================================
// The line input buffer
// =====================================================================

/// What a byte of input did to the line.
pub enum KeyOutcome {
    /// Enter ended the line, which is returned; the buffer is now empty.
    LineCompleted(String),
    /// The line changed.
    Edited,
    /// The byte was ignored.
    Ignored,
}

pub enum KeyOutcomeModel {
    LineCompleted(Seq<char>),
    Edited,
    Ignored,
}

pub open spec fn key_outcome_view(k: KeyOutcome) -> KeyOutcomeModel {
    match k {
        KeyOutcome::LineCompleted(s) => KeyOutcomeModel::LineCompleted(s@),
        KeyOutcome::Edited => KeyOutcomeModel::Edited,
        KeyOutcome::Ignored => KeyOutcomeModel::Ignored,
    }
}

/// Printable ASCII or a space.
pub open spec fn is_typed_byte(b: u8) -> bool {
    (0x21 <= b <= 0x7E) || b == 0x20
}

/// What a byte does to a line: Enter (CR or LF) completes it, Backspace
/// (DEL or BS) removes its last character, a printable byte is appended,
/// anything else is ignored.
pub open spec fn key_effect(line: Seq<char>, b: u8) -> (Seq<char>, KeyOutcomeModel) {
    if b == 13 || b == 10 {
        (Seq::<char>::empty(), KeyOutcomeModel::LineCompleted(line))
    } else if b == 127 || b == 8 {
        (if line.len() > 0 {
            line.drop_last()
        } else {
            line
        }, KeyOutcomeModel::Edited)
    } else if is_typed_byte(b) {
        (line.push(b as char), KeyOutcomeModel::Edited)
    } else {
        (line, KeyOutcomeModel::Ignored)
    }
}

/// The line after each of the bytes in turn.
pub open spec fn key_effects(line: Seq<char>, bytes: Seq<u8>) -> Seq<char>
    decreases bytes.len(),
{
    if bytes.len() == 0 {
        line
    } else {
        key_effect(key_effects(line, bytes.drop_last()), bytes.last()).0
    }
}

/// Typed bytes are appended to the line in order; Enter then hands the
/// whole line back and leaves it empty.
pub proof fn lemma_typed_line(line: Seq<char>, bytes: Seq<u8>)
    requires
        forall|i: int| 0 <= i < bytes.len() ==> is_typed_byte(#[trigger] bytes[i]),
    ensures
        key_effects(line, bytes) == line + bytes.map_values(|b: u8| b as char),
        key_effect(key_effects(line, bytes), 13) == (
            Seq::<char>::empty(),
            KeyOutcomeModel::LineCompleted(line + bytes.map_values(|b: u8| b as char)),
        ),
    decreases bytes.len(),
{
    if bytes.len() > 0 {
        let b0 = bytes.drop_last();
        assert forall|i: int| 0 <= i < b0.len() implies is_typed_byte(#[trigger] b0[i]) by {
            assert(b0[i] == bytes[i]);
        }
        lemma_typed_line(line, b0);
        assert(bytes[bytes.len() - 1] == bytes.last());
        assert(is_typed_byte(bytes.last()));
        assert((line + b0.map_values(|b: u8| b as char)).push(bytes.last() as char) =~= line
            + bytes.map_values(|b: u8| b as char));
    } else {
        assert(line + bytes.map_values(|b: u8| b as char) =~= line);
    }
}

/// Backspace takes back a typed byte.
pub proof fn lemma_backspace_undoes(line: Seq<char>, b: u8)
    requires
        is_typed_byte(b),
    ensures
        key_effect(key_effect(line, b).0, 127).0 == line,
        key_effect(key_effect(line, b).0, 8).0 == line,
{
    assert(line.push(b as char).drop_last() =~= line);
}

/// A line of input whose text, with a cursor marker when asked for, is
/// shown to other processes.
pub struct ExternalizedInputBuffer {
    buffer: String,
    show_cursor: bool,
}

impl ExternalizedInputBuffer {
    /// The text of the line.
    pub closed spec fn line(&self) -> Seq<char> {
        self.buffer@
    }

    /// Whether a cursor marker follows the line in its shown text.
    pub closed spec fn cursor_shown(&self) -> bool {
        self.show_cursor
    }

    /// An empty line.
    pub fn new(show_cursor: bool) -> (b: Self)
        ensures
            b.line() == Seq::<char>::empty(),
            b.cursor_shown() == show_cursor,
    {
        ExternalizedInputBuffer { buffer: String::new(), show_cursor }
    }

    /// Handles one byte of input.
    pub fn handle_byte(&mut self, byte: u8) -> (r: KeyOutcome)
        ensures
            (final(self).line(), key_outcome_view(r)) == key_effect(old(self).line(), byte),
            final(self).cursor_shown() == old(self).cursor_shown(),
    {
        if byte == 13 || byte == 10 {
            let completed = self.buffer.clone();
            self.buffer = String::new();
            KeyOutcome::LineCompleted(completed)
        } else if byte == 127 || byte == 8 {
            let cs = chars_of(self.buffer.as_str());
            if cs.len() > 0 {
                let kept = crate::text::copy_range(cs.as_slice(), 0, cs.len() - 1);
                self.buffer = string_of(kept.as_slice());
                assert(kept@ =~= cs@.drop_last());
            }
            KeyOutcome::Edited
        } else if (0x21 <= byte && byte <= 0x7E) || byte == 0x20 {
            string_push(&mut self.buffer, byte as char);
            KeyOutcome::Edited
        } else {
            KeyOutcome::Ignored
        }
    }

    /// The current line.
    pub fn get_buffer(&self) -> (s: &str)
        ensures
            s@ == self.line(),
    {
        self.buffer.as_str()
    }

    /// Empties the line.
    pub fn clear(&mut self)
        ensures
            final(self).line() == Seq::<char>::empty(),
            final(self).cursor_shown() == old(self).cursor_shown(),
    {
        self.buffer = String::new();
    }

    /// The shown text: the line, followed by `[]` when the cursor is shown.
    pub fn file_content(&self) -> (s: String)
        ensures
            s@ == if self.cursor_shown() {
                self.line() + "[]"@
            } else {
                self.line()
            },
    {
        let mut content = self.buffer.clone();
        if self.show_cursor {
            content.append("[]");
        }
        content
    }
}

/// The characters read from the keyboard device and not yet flushed.
pub struct KeyboardInputBuffer {
    chars: Vec<char>,
}

impl View for KeyboardInputBuffer {
    type V = Seq<char>;

    closed spec fn view(&self) -> Seq<char> {
        self.chars@
    }
}

impl KeyboardInputBuffer {
    /// Nothing read yet.
    pub fn new() -> (b: Self)
        ensures
            b@ == Seq::<char>::empty(),
    {
        KeyboardInputBuffer { chars: Vec::new() }
    }

    /// Records a character read.
    pub fn add_char(&mut self, c: char)
        ensures
            final(self)@ == old(self)@.push(c),
    {
        self.chars.push(c);
    }

    /// The characters read so far.
    pub fn get_current_content(&self) -> (s: String)
        ensures
            s@ == self@,
    {
        string_of(self.chars.as_slice())
    }

    /// Hands back the characters read so far and forgets them.
    pub fn flush(&mut self) -> (s: String)
        ensures
            s@ == old(self)@,
            final(self)@ == Seq::<char>::empty(),
    {
        let content = string_of(self.chars.as_slice());
        self.chars = Vec::new();
        content
    }
}

/// The character of a key press event from the keyboard device, by the
/// tool's simplified mapping: codes 16 to 25 from `q`, 30 to 38 from `a`,
/// 44 to 50 from `z`, 28 for Enter and 57 for Space.
pub open spec fn key_event_char(event_type: u16, code: u16, value: i32) -> Option<char> {
    if event_type == 1 && value == 1 {
        if 16 <= code <= 25 {
            Some((code - 16 + 113) as char)
        } else if 30 <= code <= 38 {
            Some((code - 30 + 97) as char)
        } else if 44 <= code <= 50 {
            Some((code - 44 + 122) as char)
        } else if code == 28 {
            Some('\n')
        } else if code == 57 {
            Some(' ')
        } else {
            None
        }
    } else {
        None
    }
}

/// The character of a keyboard event, if it is a key press the tool maps.
pub fn keycode_to_char(event_type: u16, code: u16, value: i32) -> (c: Option<char>)
    ensures
        c == key_event_char(event_type, code, value),
{
    if event_type == 1 && value == 1 {
        if 16 <= code && code <= 25 {
            Some(((code - 16) as u8 + 113u8) as char)
        } else if 30 <= code && code <= 38 {
            Some(((code - 30) as u8 + 97u8) as char)
        } else if 44 <= code && code <= 50 {
            Some(((code - 44) as u8 + 122u8) as char)
        } else if code == 28 {
            Some('\n')
        } else if code == 57 {
            Some(' ')
        } else {
            None
        }
    } else {
        None
    }
}

// =====================================================================
// The three-part display
// =====================================================================

/// A command of the three-part display.
#[derive(Debug, Clone, Copy, PartialEq, Eq, Structural)]
pub enum TuiCommand {
    Exit,
    Clear,
    Help,
    Empty,
    Unrecognized,
}

/// The lines of the help text.
pub open spec fn help_text() -> Seq<char> {
    "Available Commands:"@ + "\n"@ + "- exit/quit : Exit the program"@ + "\n"@
        + "- clear    : Clear the file view"@ + "\n"@ + "- help     : Show this help message"@ + "\n"@
        + ""@ + "\n"@ + "Press Enter after typing command"@
}

/// The help text of the three-part display.
pub fn generate_help_text() -> (s: String)
    ensures
        s@ == help_text(),
{
    let mut s = String::from_str("Available Commands:");
    s.append("\n");
    s.append("- exit/quit : Exit the program");
    s.append("\n");
    s.append("- clear    : Clear the file view");
    s.append("\n");
    s.append("- help     : Show this help message");
    s.append("\n");
    s.append("");
    s.append("\n");
    s.append("Press Enter after typing command");
    s
}

/// The command named by a cleaned (trimmed, lower-case) input line.
pub open spec fn command_of(cleaned: Seq<char>) -> TuiCommand {
    if cleaned == "exit"@ || cleaned == "quit"@ {
        TuiCommand::Exit
    } else if cleaned == "clear"@ {
        TuiCommand::Clear
    } else if cleaned == "help"@ {
        TuiCommand::Help
    } else if cleaned.len() == 0 {
        TuiCommand::Empty
    } else {
        TuiCommand::Unrecognized
    }
}

/// The status shown once a command is handled.
pub open spec fn command_status(cleaned: Seq<char>) -> Seq<char> {
    match command_of(cleaned) {
        TuiCommand::Exit => "Exiting program..."@,
        TuiCommand::Clear => "Cleared file view"@,
        TuiCommand::Help => help_text(),
        TuiCommand::Empty => "Ready for input"@,
        TuiCommand::Unrecognized => "Unrecognized command: '"@ + cleaned
            + "'. Type 'help' for available commands."@,
    }
}

/// How the display answers a completed input line.
pub struct CommandResponse {
    /// The status shown first: `Processing command: <cleaned>`.
    pub processing_status: String,
    /// The command to carry out.
    pub command: TuiCommand,
    /// The status shown after the command.
    pub final_status: String,
}

/// The answer to an input line that has been trimmed and lower-cased.
pub fn respond_to_cleaned_command(cleaned_input: &str) -> (r: CommandResponse)
    ensures
        r.processing_status@ == "Processing command: "@ + cleaned_input@,
        r.command == command_of(cleaned_input@),
        r.final_status@ == command_status(cleaned_input@),
{
    let mut processing_status = String::from_str("Processing command: ");
    processing_status.append(cleaned_input);
    let (command, final_status) = if same_text(cleaned_input, "exit") || same_text(cleaned_input, "quit") {
        (TuiCommand::Exit, String::from_str("Exiting program..."))
    } else if same_text(cleaned_input, "clear") {
        (TuiCommand::Clear, String::from_str("Cleared file view"))
    } else if same_text(cleaned_input, "help") {
        (TuiCommand::Help, generate_help_text())
    } else if cleaned_input.is_empty() {
        (TuiCommand::Empty, String::from_str("Ready for input"))
    } else {
        let mut m = String::from_str("Unrecognized command: '");
        m.append(cleaned_input);
        m.append("'. Type 'help' for available commands.");
        (TuiCommand::Unrecognized, m)
    };
    CommandResponse { processing_status, command, final_status }
}

/// The lower-case form of a text, as `str::to_lowercase` gives it.
pub uninterp spec fn lowercase(s: Seq<char>) -> Seq<char>;

/// `str::to_lowercase`: the text with every character mapped to its
/// Unicode lower-case form.  Its result is named, not described.
#[verifier::external_body]
fn to_lowercase(s: &str) -> (r: String)
    ensures
        r@ == lowercase(s@),
{
    s.to_lowercase()
}

/// The answer to a completed input line: it is trimmed and lower-cased,
/// then answered.
pub fn respond_to_command(input_line: &str) -> (r: CommandResponse)
    ensures
        r.processing_status@ == "Processing command: "@ + lowercase(trim(input_line@)),
        r.command == command_of(lowercase(trim(input_line@))),
        r.final_status@ == command_status(lowercase(trim(input_line@))),
{
    let cs = chars_of(input_line);
    let t = trim_chars(cs.as_slice());
    let trimmed = string_of(t.as_slice());
    let cleaned = to_lowercase(trimmed.as_str());
    respond_to_cleaned_command(cleaned.as_str())
}

/// Whether any of the three sizes differs.
pub open spec fn sizes_changed(seen: (u64, u64, u64), now: (u64, u64, u64)) -> bool {
    now.0 != seen.0 || now.1 != seen.1 || now.2 != seen.2
}

/// Once sizes are seen, seeing the same sizes again needs no refresh.
pub proof fn lemma_refresh_settles(seen: (u64, u64, u64), now: (u64, u64, u64))
    ensures
        !sizes_changed(now, now),
        sizes_changed(seen, now) <==> seen != now,
{
}

/// The sizes of the display's three files when they were last seen.
pub struct DisplaySizes {
    last_file_view_len: u64,
    last_info_bar_len: u64,
    last_input_buffer_len: u64,
}

impl DisplaySizes {
    /// The remembered sizes: file view, info bar, input buffer.
    pub closed spec fn sizes(&self) -> (u64, u64, u64) {
        (self.last_file_view_len, self.last_info_bar_len, self.last_input_buffer_len)
    }

    /// Nothing seen yet: all sizes zero.
    pub fn new() -> (d: Self)
        ensures
            d.sizes() == (0u64, 0u64, 0u64),
    {
        DisplaySizes { last_file_view_len: 0, last_info_bar_len: 0, last_input_buffer_len: 0 }
    }

    /// Whether any of the three files changed size since last seen; the new
    /// sizes are remembered.
    pub fn needs_refresh(&mut self, file_len: u64, info_len: u64, input_len: u64) -> (b: bool)
        ensures
            b == sizes_changed(old(self).sizes(), (file_len, info_len, input_len)),
            final(self).sizes() == (file_len, info_len, input_len),
    {
        let needs_update = file_len != self.last_file_view_len || info_len != self.last_info_bar_len
            || input_len != self.last_input_buffer_len;
        self.last_file_view_len = file_len;
        self.last_info_bar_len = info_len;
        self.last_input_buffer_len = input_len;
        needs_update
    }
}

/// Errors of the three-part display.
#[derive(Debug)]
pub enum TuiError {
    Io(std::io::Error),
    InputError(String),
    DisplayError(String),
}

} // verus!
