//! What drives terminal output: whether to colour it, whether to page it,
//! and where a write goes. The writing itself is done by the caller; the
//! decisions are made here.

use crate::text::{chars_of, same_chars, string_of};
use crossterm::tty::IsTty;
use jujutsu_lib::settings::UserSettings;
use vstd::prelude::*;
use vstd::string::*;

verus! {

/// The settings of a user, as a configuration crate holds them.
#[verifier::external_type_specification]
#[verifier::external_body]
pub struct ExUserSettings(jujutsu_lib::settings::UserSettings);

/// The settings that can be read as a truth value, by key.
pub uninterp spec fn config_bools(settings: UserSettings) -> Map<Seq<char>, bool>;

/// The settings that can be read as text, by key.
pub uninterp spec fn config_strings(settings: UserSettings) -> Map<Seq<char>, Seq<char>>;

/// The settings that can be read as a list of texts, by key.
pub uninterp spec fn config_lists(settings: UserSettings) -> Map<Seq<char>, Seq<Seq<char>>>;

/// The texts of a list of strings.
pub open spec fn texts(list: Seq<String>) -> Seq<Seq<char>> {
    Seq::new(list.len(), |i: int| list[i]@)
}

/// No key is set.
pub open spec fn nothing_set(settings: UserSettings) -> bool {
    &&& forall|key: Seq<char>| !config_bools(settings).contains_key(key)
    &&& forall|key: Seq<char>| !config_strings(settings).contains_key(key)
    &&& forall|key: Seq<char>| !config_lists(settings).contains_key(key)
}

/// A key that names a setting by words and dots alone: it holds no
/// subscript, so reading it counts no position in a list.
pub open spec fn plain_key(key: Seq<char>) -> bool {
    forall|i: int| 0 <= i < key.len() ==> key[i] != '['
}

/// `Config::get_bool` of the settings' configuration, with a failure of any
/// kind read as an absent key. What it gives depends on the settings and the
/// key alone. A key with a subscript is left out: a position counted from
/// the end of a list can run past its beginning.
#[verifier::external_body]
fn lookup_bool(settings: &UserSettings, key: &str) -> (r: Option<bool>)
    requires
        plain_key(key@),
    ensures
        r == if config_bools(*settings).contains_key(key@) {
            Some(config_bools(*settings)[key@])
        } else {
            None
        },
{
    settings.config().get_bool(key).ok()
}

/// `Config::get_string` of the settings' configuration, with a failure of
/// any kind read as an absent key. What it gives depends on the settings and
/// the key alone. A key with a subscript is left out, as for `lookup_bool`.
#[verifier::external_body]
fn lookup_string(settings: &UserSettings, key: &str) -> (r: Option<String>)
    requires
        plain_key(key@),
    ensures
        match r {
            Some(s) => config_strings(*settings).contains_key(key@) && s@ == config_strings(
                *settings,
            )[key@],
            None => !config_strings(*settings).contains_key(key@),
        },
{
    settings.config().get_string(key).ok()
}

/// `Config::get` of the settings' configuration for a list of strings, with
/// a failure of any kind read as an absent key. What it gives depends on the
/// settings and the key alone. A key with a subscript is left out, as for
/// `lookup_bool`.
#[verifier::external_body]
fn lookup_list(settings: &UserSettings, key: &str) -> (r: Option<Vec<String>>)
    requires
        plain_key(key@),
    ensures
        match r {
            Some(list) => config_lists(*settings).contains_key(key@) && texts(list@)
                == config_lists(*settings)[key@],
            None => !config_lists(*settings).contains_key(key@),
        },
{
    settings.config().get::<Vec<String>>(key).ok()
}

/// `UserSettings::from_config` on an empty configuration: settings in
/// which no key is set.
#[verifier::external_body]
fn empty_settings() -> (settings: UserSettings)
    ensures
        nothing_set(settings),
{
    UserSettings::from_config(config::Config::default())
}

/// `IsTty::is_tty` on the standard output: whether it is a terminal. The
/// answer depends on how the process was started.
#[verifier::external_body]
fn stdout_is_tty() -> bool {
    std::io::stdout().is_tty()
}

/// `crossterm::terminal::size`, with a failure read as no size: the columns
/// and rows of the terminal.
#[verifier::external_body]
fn terminal_size() -> Option<(u16, u16)> {
    crossterm::terminal::size().ok()
}

/// When to colour the output.
#[derive(Clone, Copy, Debug, PartialEq, Eq, Structural)]
pub enum ColorChoice {
    Always,
    Never,
    Auto,
}

impl Default for ColorChoice {
    fn default() -> (choice: Self)
        ensures
            choice == ColorChoice::Auto,
    {
        ColorChoice::Auto
    }
}

/// The choice that a text names, if it names one.
pub open spec fn color_named(text: Seq<char>) -> Option<ColorChoice> {
    if text == "always"@ {
        Some(ColorChoice::Always)
    } else if text == "never"@ {
        Some(ColorChoice::Never)
    } else if text == "auto"@ {
        Some(ColorChoice::Auto)
    } else {
        None
    }
}

impl ColorChoice {
    /// The name of the choice.
    pub open spec fn name(self) -> Seq<char> {
        match self {
            ColorChoice::Always => "always"@,
            ColorChoice::Never => "never"@,
            ColorChoice::Auto => "auto"@,
        }
    }

    /// The choice that `s` names. Anything but `always`, `never` and `auto`
    /// is refused.
    pub fn parse(s: &str) -> (r: Result<ColorChoice, &'static str>)
        ensures
            match r {
                Ok(choice) => color_named(s@) == Some(choice),
                Err(message) => color_named(s@) is None && message@
                    == "must be one of always, never, or auto"@,
            },
    {
        let text = chars_of(s);
        if same_chars(&text, &chars_of("always")) {
            Ok(ColorChoice::Always)
        } else if same_chars(&text, &chars_of("never")) {
            Ok(ColorChoice::Never)
        } else if same_chars(&text, &chars_of("auto")) {
            Ok(ColorChoice::Auto)
        } else {
            Err("must be one of always, never, or auto")
        }
    }

    /// The name of the choice.
    pub fn to_string(&self) -> (s: String)
        ensures
            s@ == self.name(),
    {
        match self {
            ColorChoice::Always => "always".to_owned(),
            ColorChoice::Never => "never".to_owned(),
            ColorChoice::Auto => "auto".to_owned(),
        }
    }
}

impl std::str::FromStr for ColorChoice {
    type Err = &'static str;

    /// The choice that `s` names, as `parse` gives it.
    fn from_str(s: &str) -> (r: Result<Self, Self::Err>)
        ensures
            match r {
                Ok(choice) => color_named(s@) == Some(choice),
                Err(message) => color_named(s@) is None && message@
                    == "must be one of always, never, or auto"@,
            },
    {
        ColorChoice::parse(s)
    }
}

/// The name of a choice names that choice.
pub proof fn law_color_name_round_trip(choice: ColorChoice)
    ensures
        color_named(choice.name()) == Some(choice),
{
    reveal_strlit("always");
    reveal_strlit("never");
    reveal_strlit("auto");
    assert("always"@.len() == 6);
    assert("never"@.len() == 5);
    assert("auto"@.len() == 4);
}

/// Whether to page the output.
#[derive(Clone, Copy, Debug, PartialEq, Eq, Structural)]
pub enum PaginationChoice {
    No,
    Auto,
}

impl Default for PaginationChoice {
    fn default() -> (choice: Self)
        ensures
            choice == PaginationChoice::Auto,
    {
        PaginationChoice::Auto
    }
}

/// A command with its arguments, either as one line or word by word.
#[derive(Clone, Debug, PartialEq, Eq)]
pub enum FullCommandArgs {
    String(String),
    Vec(Vec<String>),
}

/// A command as a value: one line, or its words one by one.
pub enum CommandText {
    Line(Seq<char>),
    Words(Seq<Seq<char>>),
}

impl View for FullCommandArgs {
    type V = CommandText;

    open spec fn view(&self) -> CommandText {
        match *self {
            FullCommandArgs::String(line) => CommandText::Line(line@),
            FullCommandArgs::Vec(words) => CommandText::Words(texts(words@)),
        }
    }
}

/// The words of a line: what stands between its spaces.
pub open spec fn words_of(line: Seq<char>) -> Seq<Seq<char>>
    decreases line.len(),
{
    if line.len() == 0 {
        Seq::empty()
    } else {
        let before = words_of(line.drop_last());
        if line.last() == ' ' {
            before
        } else if line.len() >= 2 && line[line.len() - 2] != ' ' {
            before.drop_last().push(before.last().push(line.last()))
        } else {
            before.push(seq![line.last()])
        }
    }
}

/// The program and its arguments that a command stands for: the words of
/// the line, or the words as they were given.
pub open spec fn run_words(command: CommandText) -> Seq<Seq<char>> {
    match command {
        CommandText::Line(line) => words_of(line),
        CommandText::Words(words) => words,
    }
}

impl FullCommandArgs {
    /// The program and its arguments: the words of the line, or the words as
    /// they were given.
    pub fn words(&self) -> (out: Vec<String>)
        ensures
            texts(out@) == run_words(self@),
    {
        match self {
            FullCommandArgs::String(line) => split_words(line.as_str()),
            FullCommandArgs::Vec(words) => {
                let mut out: Vec<String> = Vec::new();
                let mut i: usize = 0;
                while i < words.len()
                    invariant
                        0 <= i <= words.len(),
                        texts(out@) == texts(words@).subrange(0, i as int),
                    decreases words.len() - i,
                {
                    let ghost sofar = texts(out@);
                    out.push(words[i].clone());
                    proof {
                        assert(texts(out@) =~= sofar.push(words@[i as int]@));
                        assert(texts(out@) =~= texts(words@).subrange(0, i + 1));
                    }
                    i += 1;
                }
                proof {
                    assert(texts(words@).subrange(0, words@.len() as int) =~= texts(words@));
                }
                out
            },
        }
    }
}

/// The words of a line.
fn split_words(line: &str) -> (out: Vec<String>)
    ensures
        texts(out@) == words_of(line@),
{
    let chars = chars_of(line);
    let ghost t = chars@;
    let mut out: Vec<String> = Vec::new();
    let mut current: Vec<char> = Vec::new();
    let mut i: usize = 0;
    while i < chars.len()
        invariant
            t == chars@,
            0 <= i <= chars.len(),
            (current@.len() > 0) == (i > 0 && t[i - 1] != ' '),
            words_of(t.subrange(0, i as int)) == if current@.len() > 0 {
                texts(out@).push(current@)
            } else {
                texts(out@)
            },
        decreases chars.len() - i,
    {
        let c = chars[i];
        let ghost done = texts(out@);
        let ghost word = current@;
        proof {
            let now = t.subrange(0, i + 1);
            assert(now.drop_last() =~= t.subrange(0, i as int));
            assert(now.last() == c);
            if i > 0 {
                assert(now[now.len() - 2] == t[i - 1]);
            }
        }
        if c == ' ' {
            if current.len() > 0 {
                out.push(string_of(&current));
                current = Vec::new();
                proof {
                    assert(texts(out@) =~= done.push(word));
                }
            }
        } else {
            current.push(c);
            proof {
                if word.len() > 0 {
                    assert(done.push(word).drop_last() =~= done);
                } else {
                    assert(current@ =~= seq![c]);
                }
            }
        }
        i += 1;
    }
    proof {
        assert(t.subrange(0, t.len() as int) =~= t);
    }
    if current.len() > 0 {
        let ghost done = texts(out@);
        out.push(string_of(&current));
        proof {
            assert(texts(out@) =~= done.push(current@));
        }
    }
    out
}

/// Where the output goes.
#[derive(Clone, Copy, Debug, PartialEq, Eq, Structural)]
pub enum Output {
    /// To the terminal: standard output and standard error.
    Terminal,
    /// To the pager, through its standard input.
    Paged,
}

/// One of the streams that a write can go to.
#[derive(Clone, Copy, Debug, PartialEq, Eq, Structural)]
pub enum Stream {
    Stdout,
    Stderr,
    Pager,
}

/// What to do about the pager.
#[derive(Clone, Copy, Debug, PartialEq, Eq, Structural)]
pub enum PagerAction {
    /// Leave the output as it is.
    Keep,
    /// Start the pager, and tell the `Ui` once it runs.
    Spawn,
}

/// The colour choice of the settings: what `ui.color` names, or `Auto`.
pub open spec fn color_choice_of(settings: UserSettings) -> ColorChoice {
    if config_strings(settings).contains_key("ui.color"@) {
        match color_named(config_strings(settings)["ui.color"@]) {
            Some(choice) => choice,
            None => ColorChoice::Auto,
        }
    } else {
        ColorChoice::Auto
    }
}

/// Whether the settings ask for a progress indicator: what
/// `ui.progress-indicator` says, or yes.
pub open spec fn progress_wanted(settings: UserSettings) -> bool {
    if config_bools(settings).contains_key("ui.progress-indicator"@) {
        config_bools(settings)["ui.progress-indicator"@]
    } else {
        true
    }
}

/// The pager command of the settings: `ui.pager` as a line where it can be
/// read as text, or else as its words where it is a list of words that is
/// not empty, or else the line `less -FRX`.
pub open spec fn pager_of(settings: UserSettings) -> CommandText {
    if config_strings(settings).contains_key("ui.pager"@) {
        CommandText::Line(config_strings(settings)["ui.pager"@])
    } else if config_lists(settings).contains_key("ui.pager"@) && config_lists(
        settings,
    )["ui.pager"@].len() > 0 {
        CommandText::Words(config_lists(settings)["ui.pager"@])
    } else {
        CommandText::Line("less -FRX"@)
    }
}

/// Whether to colour, given the choice and whether the output is a
/// terminal.
pub open spec fn colored(choice: ColorChoice, is_tty: bool) -> bool {
    match choice {
        ColorChoice::Always => true,
        ColorChoice::Never => false,
        ColorChoice::Auto => is_tty,
    }
}

/// Whether the settings ask for a progress indicator.
pub fn progress_indicator_setting(settings: &UserSettings) -> (r: bool)
    ensures
        r == progress_wanted(*settings),
{
    proof {
        reveal_strlit("ui.progress-indicator");
    }
    match lookup_bool(settings, "ui.progress-indicator") {
        Some(wanted) => wanted,
        None => true,
    }
}

/// The colour choice of the settings.
pub fn color_setting(settings: &UserSettings) -> (choice: ColorChoice)
    ensures
        choice == color_choice_of(*settings),
{
    proof {
        reveal_strlit("ui.color");
    }
    match lookup_string(settings, "ui.color") {
        Some(named) => match ColorChoice::parse(named.as_str()) {
            Ok(choice) => choice,
            Err(_) => ColorChoice::Auto,
        },
        None => ColorChoice::Auto,
    }
}

/// The pager command of the settings.
pub fn pager_setting(settings: &UserSettings) -> (command: FullCommandArgs)
    ensures
        command@ == pager_of(*settings),
{
    proof {
        reveal_strlit("ui.pager");
    }
    match lookup_string(settings, "ui.pager") {
        Some(line) => FullCommandArgs::String(line),
        None => match lookup_list(settings, "ui.pager") {
            Some(words) => {
                if words.len() > 0 {
                    FullCommandArgs::Vec(words)
                } else {
                    FullCommandArgs::String("less -FRX".to_owned())
                }
            },
            None => FullCommandArgs::String("less -FRX".to_owned()),
        },
    }
}

/// Whether to colour, given the choice and whether the output is a
/// terminal.
pub fn use_color_on(choice: ColorChoice, is_tty: bool) -> (r: bool)
    ensures
        r == colored(choice, is_tty),
{
    match choice {
        ColorChoice::Always => true,
        ColorChoice::Never => false,
        ColorChoice::Auto => is_tty,
    }
}

/// Whether to colour: always, never, or if the standard output is a
/// terminal.
pub fn use_color(choice: ColorChoice) -> (r: bool)
    ensures
        choice == ColorChoice::Always ==> r,
        choice == ColorChoice::Never ==> !r,
{
    match choice {
        ColorChoice::Always => true,
        ColorChoice::Never => false,
        ColorChoice::Auto => use_color_on(choice, stdout_is_tty()),
    }
}

/// Text to write when the guard is given up, to restore the terminal.
pub struct OutputGuard {
    text: String,
}

impl OutputGuard {
    /// The text that the guard holds.
    pub closed spec fn held(&self) -> Seq<char> {
        self.text@
    }

    /// The text to write when the guard is given up.
    pub fn text(&self) -> (text: &String)
        ensures
            text@ == self.held(),
    {
        &self.text
    }
}

/// The state of the terminal output, as far as it is decided and not done:
/// colour, pager, progress indicator, and whether the pager runs.
pub struct Ui {
    color: bool,
    pager_cmd: FullCommandArgs,
    paginate: PaginationChoice,
    progress_indicator: bool,
    output: Output,
    settings: UserSettings,
}

impl Ui {
    /// Whether the output is coloured.
    pub closed spec fn colors(&self) -> bool {
        self.color
    }

    /// The pager command.
    pub closed spec fn pager(&self) -> CommandText {
        self.pager_cmd@
    }

    /// Whether paging is allowed.
    pub closed spec fn pagination(&self) -> PaginationChoice {
        self.paginate
    }

    /// Whether the settings ask for a progress indicator.
    pub closed spec fn progress(&self) -> bool {
        self.progress_indicator
    }

    /// Where the output goes.
    pub closed spec fn output(&self) -> Output {
        self.output
    }

    /// The settings that the `Ui` was made from.
    pub closed spec fn user_settings(&self) -> UserSettings {
        self.settings
    }

    /// A `Ui` for the given settings, as far as they decide: it writes to
    /// the terminal and pages if need be.
    pub fn with_settings(settings: UserSettings, is_tty: bool) -> (ui: Ui)
        ensures
            ui.colors() == colored(color_choice_of(settings), is_tty),
            ui.pager() == pager_of(settings),
            ui.pagination() == PaginationChoice::Auto,
            ui.progress() == progress_wanted(settings),
            ui.output() == Output::Terminal,
            ui.user_settings() == settings,
    {
        let color = use_color_on(color_setting(&settings), is_tty);
        let progress_indicator = progress_indicator_setting(&settings);
        let pager_cmd = pager_setting(&settings);
        Ui {
            color,
            pager_cmd,
            paginate: PaginationChoice::Auto,
            progress_indicator,
            output: Output::Terminal,
            settings,
        }
    }

    /// A `Ui` for settings in which nothing is set: colour if the standard
    /// output is a terminal, the line `less -FRX` as the pager, a progress
    /// indicator.
    pub fn new() -> (ui: Ui)
        ensures
            nothing_set(ui.user_settings()),
            ui.pager() == CommandText::Line("less -FRX"@),
            ui.pagination() == PaginationChoice::Auto,
            ui.progress(),
            ui.output() == Output::Terminal,
    {
        Ui::with_settings(empty_settings(), stdout_is_tty())
    }

    /// Takes new settings. Where the output goes, and whether paging is
    /// allowed, stay as they are.
    pub fn reset(&mut self, settings: UserSettings)
        ensures
            final(self).colors() == colored(color_choice_of(settings), true) || final(self).colors()
                == colored(color_choice_of(settings), false),
            color_choice_of(settings) == ColorChoice::Always ==> final(self).colors(),
            color_choice_of(settings) == ColorChoice::Never ==> !final(self).colors(),
            final(self).pager() == pager_of(settings),
            final(self).progress() == progress_wanted(settings),
            final(self).user_settings() == settings,
            final(self).pagination() == old(self).pagination(),
            final(self).output() == old(self).output(),
    {
        self.color = use_color(color_setting(&settings));
        self.pager_cmd = pager_setting(&settings);
        self.progress_indicator = progress_indicator_setting(&settings);
        self.settings = settings;
    }

    /// Sets the pagination value.
    pub fn set_pagination(&mut self, choice: PaginationChoice)
        ensures
            final(self).pagination() == choice,
            final(self).colors() == old(self).colors(),
            final(self).pager() == old(self).pager(),
            final(self).progress() == old(self).progress(),
            final(self).output() == old(self).output(),
            final(self).user_settings() == old(self).user_settings(),
    {
        self.paginate = choice;
    }

    /// What to do about the pager, given whether the standard output is a
    /// terminal: start it if paging is allowed, the output still goes to the
    /// terminal, and that is one.
    pub fn request_pager_on(&self, is_tty: bool) -> (action: PagerAction)
        ensures
            action == if self.pagination() == PaginationChoice::Auto && self.output()
                == Output::Terminal && is_tty {
                PagerAction::Spawn
            } else {
                PagerAction::Keep
            },
    {
        match self.paginate {
            PaginationChoice::No => PagerAction::Keep,
            PaginationChoice::Auto => match self.output {
                Output::Terminal => if is_tty {
                    PagerAction::Spawn
                } else {
                    PagerAction::Keep
                },
                Output::Paged => PagerAction::Keep,
            },
        }
    }

    /// What to do about the pager. It is never started where paging is not
    /// allowed or where it runs already.
    pub fn request_pager(&self) -> (action: PagerAction)
        ensures
            self.pagination() == PaginationChoice::No ==> action == PagerAction::Keep,
            self.output() == Output::Paged ==> action == PagerAction::Keep,
    {
        self.request_pager_on(stdout_is_tty())
    }

    /// Tells the `Ui` that the pager runs: the output goes to it from now
    /// on.
    pub fn pager_started(&mut self)
        ensures
            final(self).output() == Output::Paged,
            final(self).colors() == old(self).colors(),
            final(self).pager() == old(self).pager(),
            final(self).pagination() == old(self).pagination(),
            final(self).progress() == old(self).progress(),
            final(self).user_settings() == old(self).user_settings(),
    {
        self.output = Output::Paged;
    }

    /// The pager command.
    pub fn pager_command(&self) -> (command: &FullCommandArgs)
        ensures
            command@ == self.pager(),
    {
        &self.pager_cmd
    }

    /// Whether the output is coloured.
    pub fn color(&self) -> (r: bool)
        ensures
            r == self.colors(),
    {
        self.color
    }

    /// The settings that the `Ui` was made from.
    pub fn settings(&self) -> (settings: &UserSettings)
        ensures
            *settings == self.user_settings(),
    {
        &self.settings
    }

    /// The stream that ordinary output is written to.
    pub fn stdout_stream(&self) -> (stream: Stream)
        ensures
            stream == match self.output() {
                Output::Terminal => Stream::Stdout,
                Output::Paged => Stream::Pager,
            },
    {
        match self.output {
            Output::Terminal => Stream::Stdout,
            Output::Paged => Stream::Pager,
        }
    }

    /// The stream that hints, warnings and errors are written to.
    pub fn stderr_stream(&self) -> (stream: Stream)
        ensures
            stream == match self.output() {
                Output::Terminal => Stream::Stderr,
                Output::Paged => Stream::Pager,
            },
    {
        match self.output {
            Output::Terminal => Stream::Stderr,
            Output::Paged => Stream::Pager,
        }
    }

    /// Whether continuous feedback should be displayed for long-running
    /// operations, given whether the standard output is a terminal.
    pub fn use_progress_indicator_on(&self, is_tty: bool) -> (r: bool)
        ensures
            r == (self.progress() && is_tty),
    {
        self.progress_indicator && is_tty
    }

    /// Whether continuous feedback should be displayed for long-running
    /// operations. Never where the settings turn it off.
    pub fn use_progress_indicator(&self) -> (r: bool)
        ensures
            r ==> self.progress(),
    {
        self.use_progress_indicator_on(stdout_is_tty())
    }

    /// Ends the paging. Returns whether a pager ran, which the caller must
    /// then close and wait for; the output goes to the terminal again.
    pub fn finalize_writes(&mut self) -> (was_paged: bool)
        ensures
            was_paged == (old(self).output() == Output::Paged),
            final(self).output() == Output::Terminal,
            final(self).colors() == old(self).colors(),
            final(self).pager() == old(self).pager(),
            final(self).pagination() == old(self).pagination(),
            final(self).progress() == old(self).progress(),
            final(self).user_settings() == old(self).user_settings(),
    {
        let was_paged = match self.output {
            Output::Paged => true,
            Output::Terminal => false,
        };
        self.output = Output::Terminal;
        was_paged
    }

    /// The line that asks for input: the prompt, a colon and a space.
    pub fn prompt_line(prompt: &str) -> (line: String)
        ensures
            line@ == prompt@ + ": "@,
    {
        let mut line = prompt.to_owned();
        line.append(": ");
        line
    }

    /// Whether input can be asked for, given whether the standard output is
    /// a terminal; where it is none, why not.
    pub fn prompt_allowed(is_tty: bool) -> (r: Result<(), &'static str>)
        ensures
            r is Ok == is_tty,
            r is Err ==> r->Err_0@
                == "Cannot prompt for input since the output is not connected to a terminal"@,
    {
        if is_tty {
            Ok(())
        } else {
            Err("Cannot prompt for input since the output is not connected to a terminal")
        }
    }

    /// The columns and rows of the terminal, if it has a size.
    pub fn size(&self) -> Option<(u16, u16)> {
        terminal_size()
    }

    /// Construct a guard object which holds `text` to be written when it is
    /// given up. Useful for restoring terminal state.
    pub fn output_guard(&self, text: String) -> (guard: OutputGuard)
        ensures
            guard.held() == text@,
    {
        OutputGuard { text }
    }
}

impl Default for Ui {
    fn default() -> (ui: Self)
        ensures
            nothing_set(ui.user_settings()),
            ui.pager() == CommandText::Line("less -FRX"@),
            ui.pagination() == PaginationChoice::Auto,
            ui.progress(),
            ui.output() == Output::Terminal,
    {
        Ui::new()
    }
}

} // verus!
