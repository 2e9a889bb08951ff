use neowatch::args::{Args, RawArgs, DEFAULT_INTERVAL, DEFAULT_RADIX};
use neowatch::error::{Error, Exit};
use neowatch::paint::Paint;
use neowatch::watch::{next_step, run, screen, sleep_duration, Frame, Step};

fn raw(command: &str) -> RawArgs {
    let mut raw = RawArgs::default();
    raw.command = Some(command.to_string());
    raw
}

fn build(raw: RawArgs) -> Args {
    match Args::new(raw) {
        Ok(args) => args,
        Err(e) => panic!("settings refused: {}", e.message()),
    }
}

fn frame(text: &str, status: Option<i32>, elapsed: u128) -> Frame {
    Frame { text: text.to_string(), status, elapsed }
}

const CLEAR: &str = "\x1b[2J\x1b[1;1H";

#[test]
fn defaults_are_filled_in() {
    let args = build(raw("uptime"));
    assert_eq!(args.interval, 1_000_000_000);
    assert_eq!(args.interval, DEFAULT_INTERVAL);
    assert_eq!(args.radix, 10);
    assert_eq!(args.radix, DEFAULT_RADIX);
    assert!(!args.show_diff);
    assert!(!args.precise_mode);
    assert!(!args.exit_on_err);
    assert!(!args.exit_on_change);
    assert!(!args.show_number_diff);
    assert_eq!(args.color_new, Paint::Green);
    assert_eq!(args.color_change, Paint::Magenta);
    assert_eq!(args.color_increase, Paint::Cyan);
    assert_eq!(args.color_decrease, Paint::Red);
    assert_eq!(args.cmd, "uptime");
    assert!(args.cmd_args.is_empty());
}

#[test]
fn given_settings_are_kept() {
    let mut r = raw("df");
    r.interval = Some(2_500_000_000);
    r.show_diff = true;
    r.precise_mode = true;
    r.exit_on_err = true;
    r.exit_on_change = true;
    r.show_number_diff = true;
    r.radix = Some("+16".to_string());
    r.color_new = Some("blue".to_string());
    r.color_change = Some("WHITE".to_string());
    r.color_increase = Some("0x10".to_string());
    r.color_decrease = Some("1,0x02,3".to_string());
    r.command_args = vec!["-h".to_string(), "/".to_string()];
    let args = build(r);
    assert_eq!(args.interval, 2_500_000_000);
    assert!(args.show_diff && args.precise_mode && args.exit_on_err);
    assert!(args.exit_on_change && args.show_number_diff);
    assert_eq!(args.radix, 16);
    assert_eq!(args.color_new, Paint::Blue);
    assert_eq!(args.color_change, Paint::White);
    assert_eq!(args.color_increase, Paint::Ansi256(16));
    assert_eq!(args.color_decrease, Paint::Rgb(1, 2, 3));
    assert_eq!(args.cmd, "df");
    assert_eq!(args.cmd_args, vec!["-h".to_string(), "/".to_string()]);
}

#[test]
fn unreadable_settings_fall_back_to_the_defaults() {
    let mut r = raw("df");
    r.radix = Some("sixteen".to_string());
    r.color_new = Some("pink".to_string());
    r.color_change = Some("256".to_string());
    r.color_increase = Some("1,2".to_string());
    r.color_decrease = Some("".to_string());
    let args = build(r);
    assert_eq!(args.radix, 10);
    assert_eq!(args.color_new, Paint::Green);
    assert_eq!(args.color_change, Paint::Magenta);
    assert_eq!(args.color_increase, Paint::Cyan);
    assert_eq!(args.color_decrease, Paint::Red);
    for text in ["", "+", "-2", "1.0", " 8", "4294967296", "0x10"] {
        let mut r = raw("df");
        r.radix = Some(text.to_string());
        assert_eq!(build(r).radix, 10);
    }
}

#[test]
fn settings_without_a_command_are_refused() {
    let r = RawArgs::default();
    match Args::new(r) {
        Err(Error::InvalidArgs(msg)) => assert_eq!(msg, "No target command!"),
        _ => panic!("settings without a command were accepted"),
    }
}

#[test]
fn a_base_without_digits_is_refused() {
    for text in ["0", "1", "37", "4294967295"] {
        let mut r = raw("df");
        r.radix = Some(text.to_string());
        match Args::new(r) {
            Err(Error::InvalidArgs(msg)) => assert_eq!(msg, "Radix must lie between 2 and 36"),
            _ => panic!("base {} was accepted", text),
        }
    }
    for text in ["2", "36", "0036"] {
        let mut r = raw("df");
        r.radix = Some(text.to_string());
        assert!(Args::new(r).is_ok());
    }
}

#[test]
fn exit_codes_follow_the_failure() {
    assert_eq!(Error::InvalidArgs("x").exit_code(), 1);
    assert_eq!(Error::CouldNotSpawnProcess.exit_code(), 2);
    assert_eq!(Error::CouldNotSetSignalHandler.exit_code(), 1);
    assert_eq!(Error::ProcessFailed("x".to_string()).exit_code(), 4);
    assert_eq!(Error::Io("x".to_string()).exit_code(), 5);
    assert_eq!(Error::ProcessErrExit(3).exit_code(), 3);
    assert_eq!(Error::ProcessErrExit(255).exit_code(), 255);
    assert_eq!(Error::ProcessErrExit(256).exit_code(), 0);
    assert_eq!(Error::ProcessErrExit(257).exit_code(), 1);
    assert_eq!(Error::ProcessErrExit(-1).exit_code(), 255);
    assert_eq!(Error::ProcessErrExit(i32::MIN).exit_code(), 0);
    assert_eq!(Error::ProcessErrExit(i32::MAX).exit_code(), 255);
}

#[test]
fn messages_name_the_failure() {
    assert_eq!(Error::InvalidArgs("No target command!").message(), "Invalid arguments: No target command!");
    assert_eq!(Error::CouldNotSpawnProcess.message(), "Could not spawn child process");
    assert_eq!(Error::CouldNotSetSignalHandler.message(), "Could not set signal handler");
    assert_eq!(Error::ProcessFailed("NotFound".to_string()).message(), "Process failed: NotFound");
    assert_eq!(Error::Io("broken pipe".to_string()).message(), "broken pipe");
    for code in [0, 7, 10, 127, -1, -120, i32::MAX, i32::MIN] {
        assert_eq!(
            Error::ProcessErrExit(code).message(),
            format!("Target command returned non-zero exit code: {}", code)
        );
    }
}

#[test]
fn an_exit_reports_code_and_message() {
    let clean = Exit::from(Ok(()));
    assert_eq!(clean.report(), (0, None));
    let failed = Exit::from(Err(Error::ProcessErrExit(12)));
    assert_eq!(
        failed.report(),
        (12, Some("Target command returned non-zero exit code: 12".to_string()))
    );
    let refused = Exit(Err(Error::InvalidArgs("No target command!")));
    assert_eq!(refused.report(), (1, Some("Invalid arguments: No target command!".to_string())));
}

#[test]
fn output_that_is_no_text_is_refused() {
    match Frame::capture(vec![0x66, 0x6f, 0xff], Some(0), 5) {
        Err(Error::ProcessFailed(msg)) => assert_eq!(msg, "Invalid string was returned"),
        _ => panic!("invalid UTF-8 was accepted"),
    }
    match Frame::capture(vec![0xc3, 0xa4, 0x0a], Some(3), 5) {
        Ok(f) => {
            assert_eq!(f.text, "ä\n");
            assert_eq!(f.status, Some(3));
            assert_eq!(f.elapsed, 5);
        },
        Err(_) => panic!("valid UTF-8 was refused"),
    }
}

#[test]
fn the_screen_is_cleared_before_every_frame() {
    let args = build(raw("df"));
    assert_eq!(screen(&args, &"a b\n".to_string(), &None), format!("{}a b\n", CLEAR));
    let prev = Some("a c\n".to_string());
    assert_eq!(screen(&args, &"a b\n".to_string(), &prev), format!("{}a b\n", CLEAR));
}

#[test]
fn the_screen_highlights_where_asked_to() {
    let mut r = raw("df");
    r.show_diff = true;
    let args = build(r);
    let prev = Some("a c\n".to_string());
    assert_eq!(
        screen(&args, &"a b\n".to_string(), &prev),
        format!("{}a \x1b[0m\x1b[35mb\x1b[0m\n", CLEAR)
    );
    assert_eq!(screen(&args, &"a b\n".to_string(), &None), format!("{}a b\n", CLEAR));
}

#[test]
fn exit_on_change_never_fires_on_the_first_frame() {
    let mut r = raw("df");
    r.exit_on_change = true;
    let args = build(r);
    for text in ["", "a", "a\nb"] {
        assert_eq!(next_step(&args, &None, &frame(text, Some(0), 0)), Step::Sleep(1_000_000_000));
    }
}

#[test]
fn exit_on_change_fires_on_any_difference() {
    let mut r = raw("df");
    r.exit_on_change = true;
    let args = build(r);
    let prev = Some("a b".to_string());
    assert_eq!(next_step(&args, &prev, &frame("a b", Some(0), 0)), Step::Sleep(1_000_000_000));
    assert_eq!(next_step(&args, &prev, &frame("a b ", Some(0), 0)), Step::Done);
    assert_eq!(next_step(&args, &prev, &frame("a B", Some(0), 0)), Step::Done);
    assert_eq!(next_step(&args, &prev, &frame("", Some(0), 0)), Step::Done);
    // an empty previous frame is a frame
    let empty = Some(String::new());
    assert_eq!(next_step(&args, &empty, &frame("a", Some(0), 0)), Step::Done);
    assert_eq!(next_step(&args, &empty, &frame("", Some(0), 0)), Step::Sleep(1_000_000_000));
    let off = build(raw("df"));
    assert_eq!(next_step(&off, &prev, &frame("x", Some(0), 0)), Step::Sleep(1_000_000_000));
}

#[test]
fn exit_on_error_needs_the_flag_and_a_failure() {
    let mut r = raw("df");
    r.exit_on_err = true;
    let on = build(r);
    let off = build(raw("df"));
    assert_eq!(next_step(&on, &None, &frame("a", Some(0), 0)), Step::Sleep(1_000_000_000));
    assert_eq!(next_step(&on, &None, &frame("a", Some(2), 0)), Step::Failed(2));
    assert_eq!(next_step(&on, &None, &frame("a", Some(-7), 0)), Step::Failed(-7));
    assert_eq!(next_step(&on, &None, &frame("a", None, 0)), Step::Failed(-1));
    assert_eq!(next_step(&off, &None, &frame("a", Some(2), 0)), Step::Sleep(1_000_000_000));
    assert_eq!(next_step(&off, &None, &frame("a", None, 0)), Step::Sleep(1_000_000_000));
}

#[test]
fn a_change_is_reported_before_a_failure() {
    let mut r = raw("df");
    r.exit_on_err = true;
    r.exit_on_change = true;
    let args = build(r);
    let prev = Some("a".to_string());
    assert_eq!(next_step(&args, &prev, &frame("b", Some(1), 0)), Step::Done);
    assert_eq!(next_step(&args, &prev, &frame("a", Some(1), 0)), Step::Failed(1));
    assert_eq!(next_step(&args, &None, &frame("b", Some(1), 0)), Step::Failed(1));
}

#[test]
fn precise_sleep_makes_up_for_the_time_spent() {
    let mut r = raw("df");
    r.precise_mode = true;
    r.interval = Some(1_000);
    let precise = build(r);
    assert_eq!(sleep_duration(&precise, 0), 1_000);
    assert_eq!(sleep_duration(&precise, 400), 600);
    assert_eq!(sleep_duration(&precise, 999), 1);
    assert_eq!(sleep_duration(&precise, 1_000), 0);
    assert_eq!(sleep_duration(&precise, 1_001), 0);
    assert_eq!(sleep_duration(&precise, u128::MAX), 0);
    let mut r = raw("df");
    r.interval = Some(1_000);
    let plain = build(r);
    assert_eq!(sleep_duration(&plain, 0), 1_000);
    assert_eq!(sleep_duration(&plain, 400), 1_000);
    assert_eq!(sleep_duration(&plain, 5_000), 1_000);
    assert_eq!(next_step(&precise, &None, &frame("a", Some(0), 250)), Step::Sleep(750));
}

#[test]
fn five_identical_runs_do_not_end_the_loop() {
    let mut r = raw("df");
    r.exit_on_change = true;
    r.show_diff = true;
    let args = build(r);
    let frames: Vec<Frame> = (0..5).map(|_| frame("cpu: 10%\n", Some(0), 0)).collect();
    let report = run(&args, &frames);
    assert_eq!(report.screens.len(), 5);
    assert_eq!(report.sleeps, vec![1_000_000_000; 5]);
    assert!(report.outcome.is_none());
    for shown in &report.screens {
        assert_eq!(shown, &format!("{}cpu: 10%\n", CLEAR));
    }
}

#[test]
fn the_changed_frame_is_shown_before_the_loop_ends() {
    let mut r = raw("df");
    r.exit_on_change = true;
    r.show_diff = true;
    r.show_number_diff = true;
    let args = build(r);
    let frames = vec![
        frame("cpu: 100%", Some(0), 0),
        frame("cpu: 100%", Some(0), 0),
        frame("cpu: 120%", Some(0), 0),
        frame("cpu: 140%", Some(0), 0),
    ];
    let report = run(&args, &frames);
    assert_eq!(report.screens.len(), 3);
    assert_eq!(report.sleeps.len(), 2);
    assert_eq!(report.screens[2], format!("{}cpu: \x1b[0m\x1b[36m120%\x1b[0m", CLEAR));
    assert!(matches!(report.outcome, Some(Ok(()))));
}

#[test]
fn a_failing_command_ends_the_loop_with_its_code() {
    let mut r = raw("df");
    r.exit_on_err = true;
    let args = build(r);
    let frames = vec![frame("a", Some(0), 0), frame("b", Some(9), 0), frame("c", Some(0), 0)];
    let report = run(&args, &frames);
    assert_eq!(report.screens, vec![format!("{}a", CLEAR), format!("{}b", CLEAR)]);
    assert_eq!(report.sleeps, vec![1_000_000_000]);
    match report.outcome {
        Some(Err(e)) => {
            assert!(matches!(e, Error::ProcessErrExit(9)));
            assert_eq!(e.exit_code(), 9);
        },
        _ => panic!("the loop went on"),
    }
}

#[test]
fn without_frames_nothing_is_shown() {
    let args = build(raw("df"));
    let report = run(&args, &Vec::new());
    assert!(report.screens.is_empty());
    assert!(report.sleeps.is_empty());
    assert!(report.outcome.is_none());
}
