use jj_core::ui::{
    color_setting, pager_setting, progress_indicator_setting, use_color, use_color_on, ColorChoice,
    FullCommandArgs, Output, PagerAction, PaginationChoice, Stream, Ui,
};
use jujutsu_lib::settings::UserSettings;
use std::str::FromStr;

fn settings(pairs: &[(&str, &str)]) -> UserSettings {
    let mut builder = config::Config::builder();
    for (key, value) in pairs {
        builder = builder.set_override(*key, *value).unwrap();
    }
    UserSettings::from_config(builder.build().unwrap())
}

fn line(text: &str) -> FullCommandArgs {
    FullCommandArgs::String(text.to_string())
}

fn list(words: &[&str]) -> FullCommandArgs {
    FullCommandArgs::Vec(words.iter().map(|word| word.to_string()).collect())
}

#[test]
fn color_choice_is_named_and_parsed() {
    assert_eq!(ColorChoice::parse("always"), Ok(ColorChoice::Always));
    assert_eq!(ColorChoice::parse("never"), Ok(ColorChoice::Never));
    assert_eq!(ColorChoice::parse("auto"), Ok(ColorChoice::Auto));
    assert_eq!(ColorChoice::parse("Always"), Err("must be one of always, never, or auto"));
    assert_eq!(ColorChoice::parse(""), Err("must be one of always, never, or auto"));
    assert_eq!(ColorChoice::from_str("never"), Ok(ColorChoice::Never));
    assert_eq!("auto".parse::<ColorChoice>(), Ok(ColorChoice::Auto));
    assert_eq!(ColorChoice::Always.to_string(), "always");
    assert_eq!(ColorChoice::Never.to_string(), "never");
    assert_eq!(ColorChoice::Auto.to_string(), "auto");
    for choice in [ColorChoice::Always, ColorChoice::Never, ColorChoice::Auto] {
        assert_eq!(ColorChoice::parse(&choice.to_string()), Ok(choice));
    }
    assert_eq!(ColorChoice::default(), ColorChoice::Auto);
    assert_eq!(PaginationChoice::default(), PaginationChoice::Auto);
}

#[test]
fn colour_follows_the_choice_and_the_terminal() {
    assert!(use_color_on(ColorChoice::Always, false));
    assert!(use_color_on(ColorChoice::Always, true));
    assert!(!use_color_on(ColorChoice::Never, true));
    assert!(!use_color_on(ColorChoice::Never, false));
    assert!(use_color_on(ColorChoice::Auto, true));
    assert!(!use_color_on(ColorChoice::Auto, false));
    assert!(use_color(ColorChoice::Always));
    assert!(!use_color(ColorChoice::Never));
}

#[test]
fn settings_are_read_from_the_configuration() {
    let unset = settings(&[]);
    assert_eq!(color_setting(&unset), ColorChoice::Auto);
    assert!(progress_indicator_setting(&unset));
    assert_eq!(pager_setting(&unset), line("less -FRX"));

    let set = settings(&[
        ("ui.color", "always"),
        ("ui.progress-indicator", "false"),
        ("ui.pager", "more -d"),
    ]);
    assert_eq!(color_setting(&set), ColorChoice::Always);
    assert!(!progress_indicator_setting(&set));
    assert_eq!(pager_setting(&set), line("more -d"));
    assert_ne!(pager_setting(&set), list(&["more -d"]));

    assert_eq!(color_setting(&settings(&[("ui.color", "never")])), ColorChoice::Never);
    // What names no choice is no choice.
    assert_eq!(color_setting(&settings(&[("ui.color", "sometimes")])), ColorChoice::Auto);
    assert!(progress_indicator_setting(&settings(&[("ui.progress-indicator", "true")])));
}

#[test]
fn pager_command_may_be_a_list_of_words() {
    let words = config::Config::builder()
        .set_override("ui.pager", vec!["less", "-R"])
        .unwrap()
        .build()
        .unwrap();
    let command = pager_setting(&UserSettings::from_config(words));
    assert_eq!(command, list(&["less", "-R"]));
    assert_eq!(command.words(), vec!["less", "-R"]);
    let one = config::Config::builder()
        .set_override("ui.pager", vec!["my pager"])
        .unwrap()
        .build()
        .unwrap();
    let command = pager_setting(&UserSettings::from_config(one));
    assert_eq!(command, list(&["my pager"]));
    assert_eq!(command.words(), vec!["my pager"]);
    let empty = config::Config::builder()
        .set_override("ui.pager", Vec::<String>::new())
        .unwrap()
        .build()
        .unwrap();
    assert_eq!(pager_setting(&UserSettings::from_config(empty)), line("less -FRX"));
}

#[test]
fn ui_is_made_from_settings() {
    let ui = Ui::with_settings(settings(&[("ui.color", "never"), ("ui.pager", "cat")]), true);
    assert!(!ui.color());
    assert_eq!(*ui.pager_command(), line("cat"));
    assert_eq!(ui.stdout_stream(), Stream::Stdout);
    assert_eq!(ui.stderr_stream(), Stream::Stderr);
    assert!(ui.use_progress_indicator_on(true));
    assert!(!ui.use_progress_indicator_on(false));
    assert_eq!(ui.settings().user_name(), "(no name configured)");

    let ui = Ui::with_settings(settings(&[]), true);
    assert!(ui.color());
    let ui = Ui::with_settings(settings(&[]), false);
    assert!(!ui.color());
    let ui = Ui::with_settings(settings(&[("ui.progress-indicator", "false")]), true);
    assert!(!ui.use_progress_indicator_on(true));
    assert!(!ui.use_progress_indicator());

    let ui = Ui::new();
    assert_eq!(*ui.pager_command(), line("less -FRX"));
    assert_eq!(ui.pager_command().words(), vec!["less", "-FRX"]);
    assert_eq!(ui.stdout_stream(), Stream::Stdout);
    let ui = Ui::default();
    assert_eq!(*ui.pager_command(), line("less -FRX"));
    assert_eq!(ui.pager_command().words(), vec!["less", "-FRX"]);
}

#[test]
fn reset_takes_new_settings() {
    let mut ui = Ui::with_settings(settings(&[]), true);
    ui.pager_started();
    ui.set_pagination(PaginationChoice::No);
    ui.reset(settings(&[("ui.color", "always"), ("ui.pager", "cat")]));
    assert!(ui.color());
    assert_eq!(*ui.pager_command(), line("cat"));
    assert_eq!(ui.stdout_stream(), Stream::Pager);
    assert_eq!(ui.request_pager_on(true), PagerAction::Keep);
    ui.reset(settings(&[("ui.color", "never")]));
    assert!(!ui.color());
    assert_eq!(*ui.pager_command(), line("less -FRX"));
    assert_eq!(ui.pager_command().words(), vec!["less", "-FRX"]);
}

#[test]
fn pager_is_started_once_and_only_on_a_terminal() {
    let mut ui = Ui::with_settings(settings(&[]), true);
    assert_eq!(ui.request_pager_on(false), PagerAction::Keep);
    assert_eq!(ui.request_pager_on(true), PagerAction::Spawn);
    ui.set_pagination(PaginationChoice::No);
    assert_eq!(ui.request_pager_on(true), PagerAction::Keep);
    assert_eq!(ui.request_pager(), PagerAction::Keep);
    ui.set_pagination(PaginationChoice::Auto);
    assert_eq!(ui.request_pager_on(true), PagerAction::Spawn);

    ui.pager_started();
    assert_eq!(ui.request_pager_on(true), PagerAction::Keep);
    assert_eq!(ui.request_pager(), PagerAction::Keep);
    assert_eq!(ui.stdout_stream(), Stream::Pager);
    assert_eq!(ui.stderr_stream(), Stream::Pager);

    assert!(ui.finalize_writes());
    assert_eq!(ui.stdout_stream(), Stream::Stdout);
    assert_eq!(ui.stderr_stream(), Stream::Stderr);
    assert!(!ui.finalize_writes());
    assert_eq!(ui.request_pager_on(true), PagerAction::Spawn);
    assert_eq!(Output::Terminal, Output::Terminal);
}

#[test]
fn prompt_needs_a_terminal() {
    assert_eq!(Ui::prompt_line("Password"), "Password: ");
    assert_eq!(Ui::prompt_line(""), ": ");
    assert_eq!(Ui::prompt_allowed(true), Ok(()));
    assert_eq!(
        Ui::prompt_allowed(false),
        Err("Cannot prompt for input since the output is not connected to a terminal")
    );
}

#[test]
fn output_guard_holds_its_text() {
    let ui = Ui::with_settings(settings(&[]), false);
    let guard = ui.output_guard("\u{1b}[?25h".to_string());
    assert_eq!(guard.text(), "\u{1b}[?25h");
    // The size is that of the terminal, if there is one.
    let _ = ui.size();
}

#[test]
fn a_line_is_run_word_by_word_and_a_list_as_it_stands() {
    assert_eq!(line("less -FRX").words(), vec!["less", "-FRX"]);
    assert_eq!(line("  less   -F  -R ").words(), vec!["less", "-F", "-R"]);
    assert_eq!(line("cat").words(), vec!["cat"]);
    assert_eq!(line("").words(), Vec::<String>::new());
    assert_eq!(line("   ").words(), Vec::<String>::new());
    assert_eq!(list(&["less -FRX"]).words(), vec!["less -FRX"]);
    assert_eq!(list(&["less", "-F R", ""]).words(), vec!["less", "-F R", ""]);
    assert_ne!(line("less -FRX"), list(&["less -FRX"]));
}

#[test]
fn a_new_ui_has_no_setting() {
    let ui = Ui::new();
    assert!(ui.settings().config().get_string("ui.color").is_err());
    assert!(ui.settings().config().get_string("ui.pager").is_err());
    assert!(ui.settings().config().get_bool("ui.progress-indicator").is_err());
    assert_eq!(*ui.pager_command(), line("less -FRX"));
    assert!(ui.use_progress_indicator_on(true));
}
