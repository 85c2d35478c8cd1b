use jlv::cli::{
    parse_cli, Action, Cli, CliError, CommandName, FileArg, OptionName, ParseOutcome, DEFAULT_MAX_CHARS,
    DEFAULT_NUM,
};
use jlv::OutputOptions;

fn args(list: &[&str]) -> Vec<String> {
    list.iter().map(|s| s.to_string()).collect()
}

fn plain() -> OutputOptions {
    OutputOptions { pretty: None, max_chars: DEFAULT_MAX_CHARS, show_line_numbers: false }
}

fn run(file: FileArg, output: OutputOptions, action: Action) -> ParseOutcome {
    ParseOutcome::Run(Cli { file, output, action })
}

fn error_of(list: &[&str]) -> CliError {
    parse_cli(&args(list)).unwrap_err()
}

#[test]
fn head_uses_default_num_and_positional_file() {
    let parsed = parse_cli(&args(&["jlv", "head", "sample.jsonl"])).unwrap();

    assert_eq!(parsed, run(FileArg::Token(2), plain(), Action::Head { num: DEFAULT_NUM }));
}

#[test]
fn range_accepts_mixed_order_and_flags() {
    let parsed = parse_cli(&args(&[
        "jlv", "--file", "sample.jsonl", "range", "--pretty", "1", "10", "-n", "20", "-l",
    ]))
    .unwrap();

    assert_eq!(
        parsed,
        run(
            FileArg::Token(2),
            OutputOptions { pretty: Some(1), max_chars: DEFAULT_MAX_CHARS, show_line_numbers: true },
            Action::Range { start: 10, num: 20 },
        )
    );
}

#[test]
fn count_mode_requires_no_command() {
    let err = error_of(&["jlv", "-c", "head", "sample.jsonl"]);

    assert!(err.message().contains("cannot be combined"));
}

#[test]
fn head_accepts_positional_num_before_file() {
    let parsed = parse_cli(&args(&["jlv", "head", "5", "sample.jsonl"])).unwrap();

    assert_eq!(parsed, run(FileArg::Token(3), plain(), Action::Head { num: 5 }));
}

#[test]
fn pretty_without_value_defaults_to_zero() {
    let parsed = parse_cli(&args(&["jlv", "head", "sample.jsonl", "-p"])).unwrap();

    assert_eq!(
        parsed,
        run(
            FileArg::Token(2),
            OutputOptions { pretty: Some(0), max_chars: DEFAULT_MAX_CHARS, show_line_numbers: false },
            Action::Head { num: DEFAULT_NUM },
        )
    );
}

#[test]
fn pretty_accepts_any_non_negative_integer() {
    let parsed = parse_cli(&args(&["jlv", "random", "-p", "3", "sample.jsonl"])).unwrap();

    assert_eq!(
        parsed,
        run(
            FileArg::Token(4),
            OutputOptions { pretty: Some(3), max_chars: DEFAULT_MAX_CHARS, show_line_numbers: false },
            Action::Random { num: DEFAULT_NUM },
        )
    );
}

#[test]
fn random_buf_command_is_supported() {
    let parsed = parse_cli(&args(&["jlv", "random-buf", "7", "sample.jsonl"])).unwrap();

    assert_eq!(parsed, run(FileArg::Token(3), plain(), Action::RandomBuffered { num: 7 }));
}

#[test]
fn help_version_and_no_arguments() {
    assert_eq!(parse_cli(&args(&["jlv"])).unwrap(), ParseOutcome::Help);
    assert_eq!(parse_cli(&args(&[])).unwrap(), ParseOutcome::Help);
    assert_eq!(parse_cli(&args(&["jlv", "head", "--help"])).unwrap(), ParseOutcome::Help);
    assert_eq!(parse_cli(&args(&["jlv", "-V", "bogus-but-later"])).unwrap(), ParseOutcome::Version);
}

#[test]
fn count_mode_and_defaults() {
    assert_eq!(
        parse_cli(&args(&["jlv", "-c", "data.jsonl"])).unwrap(),
        run(FileArg::Token(2), plain(), Action::CountLines)
    );
    assert_eq!(
        parse_cli(&args(&["jlv", "--count", "--file=data.jsonl"])).unwrap(),
        run(FileArg::Text("data.jsonl".to_string()), plain(), Action::CountLines)
    );
    assert_eq!(
        parse_cli(&args(&["jlv", "range", "f"])).unwrap(),
        run(FileArg::Token(2), plain(), Action::Range { start: 0, num: 5 })
    );
    assert_eq!(
        parse_cli(&args(&["jlv", "tail", "--num=9", "--max=7", "f"])).unwrap(),
        run(
            FileArg::Token(4),
            OutputOptions { pretty: None, max_chars: 7, show_line_numbers: false },
            Action::Tail { num: 9 },
        )
    );
    assert_eq!(
        parse_cli(&args(&["jlv", "range", "--start=3", "--pretty=2", "4", "f"])).unwrap(),
        run(
            FileArg::Token(5),
            OutputOptions { pretty: Some(2), max_chars: DEFAULT_MAX_CHARS, show_line_numbers: false },
            Action::Range { start: 3, num: 4 },
        )
    );
}

#[test]
fn each_error_and_its_message() {
    let cases: Vec<(Vec<&str>, CliError, &str)> = vec![
        (vec!["jlv", "-x"], CliError::UnknownOption("-x".into()), "unknown option: -x"),
        (vec!["jlv", "head", "-f"], CliError::MissingValue(OptionName::File), "missing value for `--file`"),
        (vec!["jlv", "head", "-n"], CliError::MissingValue(OptionName::Num), "missing value for `--num`"),
        (
            vec!["jlv", "head", "-m", "x"],
            CliError::InvalidValue(OptionName::Max, "x".into()),
            "invalid value for `--max`: x",
        ),
        (
            vec!["jlv", "range", "--start=-1"],
            CliError::InvalidValue(OptionName::Start, "-1".into()),
            "invalid value for `--start`: -1",
        ),
        (
            vec!["jlv", "head", "--pretty=a"],
            CliError::InvalidPrettyGap("a".into()),
            "invalid value for `-p/--pretty`: a",
        ),
        (
            vec!["jlv", "head", "tail"],
            CliError::MultipleCommands(CommandName::Head, CommandName::Tail),
            "multiple commands provided: Head and Tail",
        ),
        (vec!["jlv", "f"], CliError::MissingCommand, "missing command; use head, tail, range, random, or -c/--count"),
        (
            vec!["jlv", "random-buf", "-s", "1", "f"],
            CliError::StartNotValid(CommandName::RandomBuffered),
            "`--start` is not valid for `random-buf`",
        ),
        (
            vec!["jlv", "tail", "-n", "3", "4", "f"],
            CliError::NumGivenTwice(CommandName::Tail),
            "`tail` received `num` more than once; use either positional `num` or `-n/--num`",
        ),
        (
            vec!["jlv", "random-fast", "3", "42", "f"],
            CliError::ExtraNumeric(CommandName::Random, 42),
            "unexpected extra numeric value for `random`: 42",
        ),
        (vec!["jlv", "head", "0", "f"], CliError::NumNotPositive, "`--num` must be greater than 0"),
        (
            vec!["jlv", "range", "1", "2", "30", "f"],
            CliError::ExtraRangeNumeric(30),
            "unexpected extra numeric value for range: 30",
        ),
        (
            vec!["jlv", "-c", "-n", "2", "f"],
            CliError::CountWithNumOrStart,
            "`-c/--count` does not use `-n/--num` or `-s/--start`",
        ),
        (
            vec!["jlv", "-c", "-l", "f"],
            CliError::CountWithOutputOptions,
            "`-c/--count` does not use `-p/--pretty`, `-l/--line`, or `-m/--max`",
        ),
        (
            vec!["jlv", "-c", "f", "12"],
            CliError::CountExtraNumeric(12),
            "unexpected numeric value in count mode: 12",
        ),
        (
            vec!["jlv", "head", "a", "b"],
            CliError::MultipleFiles("b".into()),
            "multiple file paths provided; unexpected extra value: b",
        ),
        (
            vec!["jlv", "head", "3"],
            CliError::MissingFile,
            "missing input file; use `-f/--file` or provide a bare file path",
        ),
        (vec!["jlv", "-c", "head", "f"], CliError::CountWithCommand, "`-c/--count` cannot be combined with head/tail/range/random"),
    ];
    for (list, expected, message) in cases {
        let err = error_of(&list);
        assert_eq!(err, expected, "for {list:?}");
        assert_eq!(err.message(), message, "for {list:?}");
    }
}
