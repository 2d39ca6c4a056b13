use rust_os::fat::Info;
use rust_os::rtc::DateTime;
use rust_os::task::keyboard::{Key, ARROW_DOWN, ARROW_UP, PAGE_DOWN, PAGE_UP};
use rust_os::task::shell::{
    about_text, date_text, disk_text, echo_text, entries_text, entry_text, execute, parse_command,
    run_shell, slept_text, spawn_text, threads_text, unknown_text, uptime_text, user_text, Action,
    Command, Editor, Effect, History, Shell, HELP, HISTORY_CAP,
};
use rust_os::text::{is_control, is_white_space, parse_number, push_decimal, push_padded};
use rust_os::threads::{SpawnError, State};

fn parse(line: &str) -> Command {
    let chars: Vec<char> = line.chars().collect();
    parse_command(&chars)
}

/// A command as text.
fn show(command: &Command) -> String {
    match command {
        Command::Empty => "empty".to_string(),
        Command::Help => "help".to_string(),
        Command::Clear => "clear".to_string(),
        Command::Echo(text) => format!("echo [{}]", text),
        Command::Date => "date".to_string(),
        Command::Uptime => "uptime".to_string(),
        Command::Sleep(ms) => format!("sleep {:?}", ms),
        Command::Spawn => "spawn".to_string(),
        Command::Threads => "threads".to_string(),
        Command::User => "user".to_string(),
        Command::Ls(path) => format!("ls [{}]", path),
        Command::Cat(path) => format!("cat {:?}", path),
        Command::Disk => "disk".to_string(),
        Command::About => "about".to_string(),
        Command::Unknown(word) => format!("unknown [{}]", word),
    }
}

#[test]
fn commands_are_parsed() {
    for (line, expected) in [
        ("", "empty"),
        ("   ", "empty"),
        ("help", "help"),
        ("help me", "help"),
        ("clear", "clear"),
        ("echo", "echo []"),
        ("echo hello from ring 0", "echo [hello from ring 0]"),
        ("echo   two  spaces", "echo [two  spaces]"),
        ("echo\u{3000}wide", "echo [wide]"),
        ("date", "date"),
        ("uptime", "uptime"),
        ("sleep 500", "sleep Some(500)"),
        ("sleep   +7", "sleep Some(7)"),
        ("sleep", "sleep None"),
        ("sleep -1", "sleep None"),
        ("sleep 1 2", "sleep None"),
        ("sleep 18446744073709551615", "sleep Some(18446744073709551615)"),
        ("sleep 18446744073709551616", "sleep None"),
        ("spawn", "spawn"),
        ("threads", "threads"),
        ("user", "user"),
        ("ls", "ls []"),
        ("ls /DOCS", "ls [/DOCS]"),
        ("cat", "cat None"),
        ("cat hello.txt", "cat Some(\"hello.txt\")"),
        ("disk", "disk"),
        ("about", "about"),
        ("Help", "unknown [Help]"),
        ("helpme please", "unknown [helpme]"),
    ] {
        assert_eq!(show(&parse(line)), expected, "line {:?}", line);
    }
}

/// What a line that prints a text right away prints.
fn printed(line: &str) -> String {
    match execute(parse(line), "0.1.0") {
        Action::Print(text) => text,
        _ => panic!("{:?} does not print right away", line),
    }
}

#[test]
fn commands_are_executed() {
    assert!(matches!(execute(parse(" "), "0"), Action::Nothing));
    assert_eq!(printed("help"), HELP);
    assert!(matches!(execute(parse("clear"), "0"), Action::Clear));
    assert_eq!(printed("echo hello from ring 0"), "hello from ring 0\n");
    assert!(matches!(execute(parse("date"), "0"), Action::TellTime));
    assert!(matches!(execute(parse("uptime"), "0"), Action::TellUptime));
    assert!(matches!(execute(parse("sleep 500"), "0"), Action::Sleep(500)));
    assert_eq!(printed("sleep soon"), "usage: sleep <milliseconds>\n");
    assert!(matches!(execute(parse("spawn"), "0"), Action::Spawn));
    assert!(matches!(execute(parse("threads"), "0"), Action::ListThreads));
    assert!(matches!(execute(parse("user"), "0"), Action::RunUser));
    assert!(matches!(execute(parse("ls /DOCS"), "0"), Action::ListDirectory(p) if p == "/DOCS"));
    assert!(matches!(execute(parse("cat a.txt"), "0"), Action::PrintFile(p) if p == "a.txt"));
    assert_eq!(printed("cat"), "usage: cat <path>\n");
    assert!(matches!(execute(parse("disk"), "0"), Action::DescribeDisk));
    assert_eq!(printed("about"), about_text("0.1.0"));
    assert_eq!(printed("frob"), "unknown command: `frob` (try `help`)\n");
}

#[test]
fn help_lists_every_command() {
    for command in [
        "help", "clear", "echo", "date", "uptime", "sleep", "spawn", "threads", "user", "ls",
        "cat", "disk", "about",
    ] {
        let listed = HELP
            .lines()
            .any(|line| line.starts_with(&format!("  {} ", command)));
        assert!(listed, "{} is missing", command);
    }
    assert!(HELP.starts_with("available commands:\n  help          show this message\n"));
    assert!(HELP.ends_with("keys: up/down browse history, PgUp/PgDn scroll output\n"));
}

#[test]
fn texts_read_as_they_should() {
    assert_eq!(echo_text(&"hello from ring 0".to_string()), "hello from ring 0\n");
    let now = DateTime { year: 2026, month: 7, day: 19, hour: 14, minute: 33, second: 7 };
    assert_eq!(date_text(now), "2026-07-19 14:33:07 UTC\n");
    let early = DateTime { year: 7, month: 10, day: 31, hour: 0, minute: 0, second: 0 };
    assert_eq!(date_text(early), "0007-10-31 00:00:00 UTC\n");
    assert_eq!(uptime_text(42_360), "up 42.360 s\n");
    assert_eq!(uptime_text(7), "up 0.007 s\n");
    assert_eq!(slept_text(500), "slept 500 ms\n");
    assert_eq!(spawn_text(Ok(1)), "spawned thread 1 (busy loop; watch `threads`)\n");
    assert_eq!(
        spawn_text(Err(SpawnError::TooManyThreads)),
        format!("spawn failed: {:?}\n", SpawnError::TooManyThreads)
    );
    assert_eq!(
        spawn_text(Err(SpawnError::NotInitialized)),
        format!("spawn failed: {:?}\n", SpawnError::NotInitialized)
    );
    assert_eq!(
        threads_text(
            &[(0, State::Running), (1, State::Ready), (12, State::Finished)],
            30_761_266
        ),
        "   0  running (shell/executor)\n   1  ready\n  12  finished (awaiting reap)\n\
         work counter: 30761266\n"
    );
    assert_eq!(user_text(3), "user program exited with code 3\n");
    assert_eq!(entry_text("HELLO.TXT", false, 33), "  HELLO.TXT          33\n");
    assert_eq!(entry_text("README.TXT", false, 295), "  README.TXT        295\n");
    assert_eq!(entry_text("DOCS", true, 0), "  DOCS            <DIR>\n");
    assert_eq!(entries_text(4), "4 entries\n");
    let info = Info { drive: 1, cluster_count: 8095, bytes_per_cluster: 512 };
    assert_eq!(disk_text(&info), "drive 1: FAT16, 8095 clusters of 512 bytes\n");
    assert_eq!(
        about_text("0.1.0"),
        "rust-os v0.1.0 -- a hobby kernel built on blog_os, then extended.\n"
    );
    assert_eq!(
        unknown_text(&"frob".to_string()),
        "unknown command: `frob` (try `help`)\n"
    );
}

#[test]
fn history_records_and_forgets() {
    let mut history = History::new();
    history.record("".to_string());
    history.record("a".to_string());
    history.record("a".to_string());
    history.record("b".to_string());
    history.record("a".to_string());
    assert_eq!(history.entries, ["a", "b", "a"]);
    for i in 0..60 {
        history.record(format!("line {}", i));
    }
    assert_eq!(history.entries.len(), HISTORY_CAP);
    assert_eq!(history.entries[0], "line 10");
    assert_eq!(history.entries[49], "line 59");
}

#[test]
fn history_is_browsed_and_left_again() {
    let mut history = History::new();
    assert_eq!(history.older(&"x".to_string()), None);
    assert_eq!(history.newer(), None);
    history.record("one".to_string());
    history.record("two".to_string());
    assert_eq!(history.older(&"typing".to_string()), Some("two".to_string()));
    assert_eq!(history.older(&"two".to_string()), Some("one".to_string()));
    assert_eq!(history.older(&"one".to_string()), None);
    assert_eq!(history.newer(), Some("two".to_string()));
    assert_eq!(history.newer(), Some("typing".to_string()));
    assert_eq!(history.newer(), None);
}

#[test]
fn every_kept_line_can_be_recalled() {
    let mut history = History::new();
    for i in 0..60 {
        history.record(format!("line {}", i));
    }
    for i in (10..60).rev() {
        assert_eq!(history.older(&"now".to_string()), Some(format!("line {}", i)));
    }
    assert_eq!(history.older(&"now".to_string()), None);
}

#[test]
fn history_keeps_the_latest_of_the_kept_lines() {
    let mut history = History::new();
    let mut kept: Vec<String> = Vec::new();
    for i in 0..200 {
        let line = match i % 4 {
            0 => "".to_string(),
            1 => "again".to_string(),
            _ => format!("line {}", i / 4),
        };
        if !line.is_empty() && kept.last() != Some(&line) {
            kept.push(line.clone());
        }
        history.record(line);
        let latest = &kept[kept.len().saturating_sub(HISTORY_CAP)..];
        assert_eq!(history.entries, latest);
    }
    assert_eq!(kept.len(), 100);
    assert_eq!(history.entries.len(), HISTORY_CAP);
}

#[test]
fn as_many_steps_forward_as_back_return_to_the_line() {
    let mut history = History::new();
    for i in 0..60 {
        history.record(format!("line {}", i));
    }
    for steps in 1..=HISTORY_CAP {
        let mut line = "half a li".to_string();
        for _ in 0..steps {
            line = history.older(&line).unwrap();
        }
        assert_eq!(line, format!("line {}", 60 - steps));
        for _ in 0..steps {
            line = history.newer().unwrap();
        }
        assert_eq!(line, "half a li");
        assert_eq!(history.newer(), None);
    }
}

#[test]
fn keys_edit_the_line() {
    let mut editor = Editor::new();
    for c in "  echo h\u{e9}!".chars() {
        assert!(matches!(editor.press(Key::Unicode(c)), Effect::Echo(d) if d == c));
    }
    assert!(matches!(editor.press(Key::Unicode('\u{8}')), Effect::Erase));
    assert!(matches!(editor.press(Key::Unicode('\u{7f}')), Effect::Erase));
    assert_eq!(editor.line, "  echo h");
    assert!(matches!(editor.press(Key::Unicode('\u{1b}')), Effect::Live));
    assert!(matches!(editor.press(Key::Raw(0)), Effect::Live));
    assert!(matches!(editor.press(Key::Raw(PAGE_UP)), Effect::PageUp));
    assert!(matches!(editor.press(Key::Raw(PAGE_DOWN)), Effect::PageDown));
    match editor.press(Key::Unicode('\n')) {
        Effect::Run(command) => assert_eq!(show(&command), "echo [h]"),
        _ => panic!("Enter runs the line"),
    }
    assert_eq!(editor.line, "");
    assert_eq!(editor.history.entries, ["echo h"]); // trimmed
    assert!(matches!(editor.press(Key::Unicode('\u{8}')), Effect::Live));
    editor.press(Key::Unicode('x'));
    match editor.press(Key::Raw(ARROW_UP)) {
        Effect::Replace { erase, text } => {
            assert_eq!(erase, 1);
            assert_eq!(text, "echo h");
        }
        _ => panic!("the arrow recalls the line"),
    }
    assert!(matches!(editor.press(Key::Raw(ARROW_UP)), Effect::Live));
    match editor.press(Key::Raw(ARROW_DOWN)) {
        Effect::Replace { erase, text } => {
            assert_eq!(erase, 6);
            assert_eq!(text, "x");
        }
        _ => panic!("the arrow restores the line"),
    }
    assert_eq!(editor.line, "x");
}

fn type_codes(shell: &mut Shell, codes: &[u8]) -> Vec<Effect> {
    codes.iter().map(|code| shell.scancode(*code)).collect()
}

#[test]
fn scancodes_reach_the_editor() {
    let mut shell = run_shell();
    // h, e, shift+l, p: key down and key up.
    let effects = type_codes(
        &mut shell,
        &[0x23, 0xA3, 0x12, 0x92, 0x2A, 0x26, 0xA6, 0xAA, 0x19, 0x99],
    );
    assert!(matches!(effects[0], Effect::Echo('h')));
    assert!(matches!(effects[1], Effect::Nothing));
    assert!(matches!(effects[4], Effect::Live)); // shift alone
    assert!(matches!(effects[5], Effect::Echo('L')));
    assert_eq!(shell.editor.line, "heLp");
    // Backspace twice, then l, p, Enter.
    let effects = type_codes(&mut shell, &[0x0E, 0x8E, 0x0E, 0x8E, 0x26, 0x19]);
    assert!(matches!(effects[0], Effect::Erase));
    assert_eq!(shell.editor.line, "help");
    match shell.scancode(0x1C) {
        Effect::Run(Command::Help) => {}
        _ => panic!("Enter runs the line"),
    }
}

#[test]
fn arrows_and_page_keys_have_their_numbers() {
    let mut shell = run_shell();
    type_codes(&mut shell, &[0x20, 0x1C, 0x1E]); // "d", Enter, "a"
    let up = type_codes(&mut shell, &[0xE0, 0x48]);
    assert!(matches!(up[0], Effect::Nothing));
    assert!(matches!(&up[1], Effect::Replace { erase: 1, text } if text == "d"));
    let down = type_codes(&mut shell, &[0xE0, 0x50]);
    assert!(matches!(&down[1], Effect::Replace { erase: 1, text } if text == "a"));
    assert!(matches!(type_codes(&mut shell, &[0xE0, 0x49])[1], Effect::PageUp));
    assert!(matches!(type_codes(&mut shell, &[0xE0, 0x51])[1], Effect::PageDown));
    assert_eq!(pc_keyboard::KeyCode::ArrowUp as u8, ARROW_UP);
    assert_eq!(pc_keyboard::KeyCode::ArrowDown as u8, ARROW_DOWN);
    assert_eq!(pc_keyboard::KeyCode::PageUp as u8, PAGE_UP);
    assert_eq!(pc_keyboard::KeyCode::PageDown as u8, PAGE_DOWN);
}

#[test]
fn bytes_that_are_no_scancodes_are_ignored() {
    let mut shell = run_shell();
    assert!(matches!(shell.scancode(0x7F), Effect::Nothing));
    assert!(matches!(shell.scancode(0x1E), Effect::Echo('a')));
}

#[test]
fn characters_are_classed_as_unicode_has_it() {
    for n in 0..=0x10FFFFu32 {
        if let Some(c) = char::from_u32(n) {
            assert_eq!(is_white_space(c), c.is_whitespace(), "{:x}", n);
            assert_eq!(is_control(c), c.is_control(), "{:x}", n);
        }
    }
}

#[test]
fn numbers_are_written_and_read() {
    for n in [0, 1, 9, 10, 99, 100, 12345, u64::MAX / 10, u64::MAX - 1, u64::MAX] {
        let mut text = String::from("n=");
        push_decimal(&mut text, n);
        assert_eq!(text, format!("n={}", n));
        let digits: Vec<char> = text[2..].chars().collect();
        assert_eq!(parse_number(&digits), Some(n));
        let mut text = String::new();
        push_padded(&mut text, n, 8, ' ');
        assert_eq!(text, format!("{:>8}", n));
    }
    for line in ["", "+", "-", "-0", "+-1", "1a", "\u{661}", "99999999999999999999", "0005", "+5"] {
        let chars: Vec<char> = line.chars().collect();
        assert_eq!(parse_number(&chars), line.parse::<u64>().ok(), "{:?}", line);
    }
}
