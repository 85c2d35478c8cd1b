//! The command-line grammar of the viewer.
//!
//! `parse_cli` reads the program's arguments (as text; the first one is the
//! program's name) and decides what to run. The file to read is given either by
//! the index of the argument that names it, so that the caller can use that
//! argument as it came, or by the text after `--file=`.

use vstd::prelude::*;

use crate::text::{decimal, has_prefix, parse_usize, parse_usize_spec, push_decimal, same_text, strip_prefix};
use crate::OutputOptions;

verus! {

/// How many lines are shown when no number is given.
pub const DEFAULT_NUM: usize = 5;
/// Where `range` starts when no start is given.
pub const DEFAULT_START: usize = 0;
/// The default limit on the characters of a string when pretty-printing.
pub const DEFAULT_MAX_CHARS: usize = 60;

/// The commands of the viewer.
#[derive(Clone, Copy, Debug, PartialEq, Eq)]
pub enum CommandName {
    Head,
    Tail,
    Range,
    Random,
    RandomBuffered,
}

/// What the viewer is asked to do.
#[derive(Clone, Copy, Debug, PartialEq, Eq)]
pub enum Action {
    CountLines,
    Head { num: usize },
    Tail { num: usize },
    Range { start: usize, num: usize },
    Random { num: usize },
    RandomBuffered { num: usize },
}

/// The input file: the argument at this index, or the text given after
/// `--file=`.
#[derive(Clone, Debug, PartialEq, Eq)]
pub enum FileArg {
    Token(usize),
    Text(String),
}

/// A complete request.
#[derive(Clone, Debug, PartialEq, Eq)]
pub struct Cli {
    pub file: FileArg,
    pub output: OutputOptions,
    pub action: Action,
}

/// The result of reading the arguments.
#[derive(Clone, Debug, PartialEq, Eq)]
pub enum ParseOutcome {
    Help,
    Version,
    Run(Cli),
}

/// The options that take a number or a path.
#[derive(Clone, Copy, Debug, PartialEq, Eq)]
pub enum OptionName {
    File,
    Max,
    Num,
    Start,
}

/// Why the arguments were refused.
#[derive(Clone, Debug, PartialEq, Eq)]
pub enum CliError {
    UnknownOption(String),
    MissingValue(OptionName),
    InvalidValue(OptionName, String),
    InvalidPrettyGap(String),
    MultipleCommands(CommandName, CommandName),
    MissingCommand,
    StartNotValid(CommandName),
    NumGivenTwice(CommandName),
    ExtraNumeric(CommandName, usize),
    NumNotPositive,
    ExtraRangeNumeric(usize),
    CountWithCommand,
    CountWithNumOrStart,
    CountWithOutputOptions,
    CountExtraNumeric(usize),
    MultipleFiles(String),
    MissingFile,
}

// ---------------------------------------------------------------------------
// Mathematical models
// ---------------------------------------------------------------------------

/// The mathematical value of a [`FileArg`].
pub enum FileArgModel {
    Token(usize),
    Text(Seq<char>),
}

/// The mathematical value of a [`Cli`].
pub struct CliModel {
    pub file: FileArgModel,
    pub output: OutputOptions,
    pub action: Action,
}

/// The mathematical value of a [`ParseOutcome`].
pub enum OutcomeModel {
    Help,
    Version,
    Run(CliModel),
}

/// The mathematical value of a [`CliError`].
pub enum CliErrorModel {
    UnknownOption(Seq<char>),
    MissingValue(OptionName),
    InvalidValue(OptionName, Seq<char>),
    InvalidPrettyGap(Seq<char>),
    MultipleCommands(CommandName, CommandName),
    MissingCommand,
    StartNotValid(CommandName),
    NumGivenTwice(CommandName),
    ExtraNumeric(CommandName, usize),
    NumNotPositive,
    ExtraRangeNumeric(usize),
    CountWithCommand,
    CountWithNumOrStart,
    CountWithOutputOptions,
    CountExtraNumeric(usize),
    MultipleFiles(Seq<char>),
    MissingFile,
}

impl View for FileArg {
    type V = FileArgModel;

    open spec fn view(&self) -> FileArgModel {
        match self {
            FileArg::Token(i) => FileArgModel::Token(*i),
            FileArg::Text(t) => FileArgModel::Text(t@),
        }
    }
}

impl View for Cli {
    type V = CliModel;

    open spec fn view(&self) -> CliModel {
        CliModel { file: self.file@, output: self.output, action: self.action }
    }
}

impl View for ParseOutcome {
    type V = OutcomeModel;

    open spec fn view(&self) -> OutcomeModel {
        match self {
            ParseOutcome::Help => OutcomeModel::Help,
            ParseOutcome::Version => OutcomeModel::Version,
            ParseOutcome::Run(c) => OutcomeModel::Run(c@),
        }
    }
}

impl View for CliError {
    type V = CliErrorModel;

    open spec fn view(&self) -> CliErrorModel {
        match self {
            CliError::UnknownOption(t) => CliErrorModel::UnknownOption(t@),
            CliError::MissingValue(o) => CliErrorModel::MissingValue(*o),
            CliError::InvalidValue(o, t) => CliErrorModel::InvalidValue(*o, t@),
            CliError::InvalidPrettyGap(t) => CliErrorModel::InvalidPrettyGap(t@),
            CliError::MultipleCommands(a, b) => CliErrorModel::MultipleCommands(*a, *b),
            CliError::MissingCommand => CliErrorModel::MissingCommand,
            CliError::StartNotValid(c) => CliErrorModel::StartNotValid(*c),
            CliError::NumGivenTwice(c) => CliErrorModel::NumGivenTwice(*c),
            CliError::ExtraNumeric(c, v) => CliErrorModel::ExtraNumeric(*c, *v),
            CliError::NumNotPositive => CliErrorModel::NumNotPositive,
            CliError::ExtraRangeNumeric(v) => CliErrorModel::ExtraRangeNumeric(*v),
            CliError::CountWithCommand => CliErrorModel::CountWithCommand,
            CliError::CountWithNumOrStart => CliErrorModel::CountWithNumOrStart,
            CliError::CountWithOutputOptions => CliErrorModel::CountWithOutputOptions,
            CliError::CountExtraNumeric(v) => CliErrorModel::CountExtraNumeric(*v),
            CliError::MultipleFiles(t) => CliErrorModel::MultipleFiles(t@),
            CliError::MissingFile => CliErrorModel::MissingFile,
        }
    }
}

/// The model of a parse result.
pub open spec fn result_view(r: Result<ParseOutcome, CliError>) -> Result<OutcomeModel, CliErrorModel> {
    match r {
        Ok(o) => Ok(o@),
        Err(e) => Err(e@),
    }
}

/// The texts of the arguments.
pub open spec fn texts(tokens: Seq<String>) -> Seq<Seq<char>> {
    tokens.map_values(|t: String| t@)
}

// ---------------------------------------------------------------------------
// The grammar, as a specification
// ---------------------------------------------------------------------------

/// What has been gathered from the arguments read so far.
pub struct RawModel {
    pub file: Option<FileArgModel>,
    pub pretty: Option<usize>,
    pub max_chars: usize,
    pub show_line_numbers: bool,
    pub count_lines: bool,
    pub command: Option<CommandName>,
    pub num: Option<usize>,
    pub start: Option<usize>,
    pub positionals: Seq<usize>,
}

/// Nothing gathered yet.
pub open spec fn raw_initial() -> RawModel {
    RawModel {
        file: None,
        pretty: None,
        max_chars: DEFAULT_MAX_CHARS,
        show_line_numbers: false,
        count_lines: false,
        command: None,
        num: None,
        start: None,
        positionals: Seq::empty(),
    }
}

/// How the reading of the arguments ends.
pub enum ScanEnd {
    Help,
    Version,
    Fail(CliErrorModel),
    Done(RawModel),
}

/// The command that a word names, if any.
pub open spec fn command_of_word(t: Seq<char>) -> Option<CommandName> {
    if t == "head"@ {
        Some(CommandName::Head)
    } else if t == "tail"@ {
        Some(CommandName::Tail)
    } else if t == "range"@ {
        Some(CommandName::Range)
    } else if t == "random"@ || t == "random-fast"@ {
        Some(CommandName::Random)
    } else if t == "random-buf"@ {
        Some(CommandName::RandomBuffered)
    } else {
        None
    }
}

/// The option that takes a number and that a flag names, if any.
pub open spec fn number_option_of_flag(t: Seq<char>) -> Option<OptionName> {
    if t == "-m"@ || t == "--max"@ {
        Some(OptionName::Max)
    } else if t == "-n"@ || t == "--num"@ {
        Some(OptionName::Num)
    } else if t == "-s"@ || t == "--start"@ {
        Some(OptionName::Start)
    } else {
        None
    }
}

/// Stores the value of a numeric option.
pub open spec fn with_number(raw: RawModel, o: OptionName, v: usize) -> RawModel {
    match o {
        OptionName::Max => RawModel { max_chars: v, ..raw },
        OptionName::Num => RawModel { num: Some(v), ..raw },
        _ => RawModel { start: Some(v), ..raw },
    }
}

/// Reads the arguments from index `i` on, with `raw` gathered so far.
pub open spec fn scan(tokens: Seq<Seq<char>>, i: int, raw: RawModel) -> ScanEnd
    decreases tokens.len() - i,
{
    if i < 0 || i >= tokens.len() {
        ScanEnd::Done(raw)
    } else {
        let t = tokens[i];
        if t == "-h"@ || t == "--help"@ {
            ScanEnd::Help
        } else if t == "-V"@ || t == "--version"@ {
            ScanEnd::Version
        } else if t == "-p"@ || t == "--pretty"@ {
            if i + 1 < tokens.len() && parse_usize_spec(tokens[i + 1]) is Some {
                scan(tokens, i + 2, RawModel { pretty: Some(parse_usize_spec(tokens[i + 1])->0), ..raw })
            } else {
                scan(tokens, i + 1, RawModel { pretty: Some(0), ..raw })
            }
        } else if t == "-l"@ || t == "--line"@ {
            scan(tokens, i + 1, RawModel { show_line_numbers: true, ..raw })
        } else if t == "-c"@ || t == "--count"@ {
            scan(tokens, i + 1, RawModel { count_lines: true, ..raw })
        } else if t == "-f"@ || t == "--file"@ {
            if i + 1 < tokens.len() {
                scan(tokens, i + 2, RawModel { file: Some(FileArgModel::Token((i + 1) as usize)), ..raw })
            } else {
                ScanEnd::Fail(CliErrorModel::MissingValue(OptionName::File))
            }
        } else if number_option_of_flag(t) is Some {
            let o = number_option_of_flag(t)->0;
            if i + 1 < tokens.len() {
                match parse_usize_spec(tokens[i + 1]) {
                    Some(v) => scan(tokens, i + 2, with_number(raw, o, v)),
                    None => ScanEnd::Fail(CliErrorModel::InvalidValue(o, tokens[i + 1])),
                }
            } else {
                ScanEnd::Fail(CliErrorModel::MissingValue(o))
            }
        } else if command_of_word(t) is Some {
            let c = command_of_word(t)->0;
            match raw.command {
                Some(existing) => ScanEnd::Fail(CliErrorModel::MultipleCommands(existing, c)),
                None => scan(tokens, i + 1, RawModel { command: Some(c), ..raw }),
            }
        } else if has_prefix(t, "--file="@) {
            scan(tokens, i + 1, RawModel { file: Some(FileArgModel::Text(t.skip("--file="@.len() as int))), ..raw })
        } else if has_prefix(t, "--pretty="@) {
            match parse_usize_spec(t.skip("--pretty="@.len() as int)) {
                Some(v) => scan(tokens, i + 1, RawModel { pretty: Some(v), ..raw }),
                None => ScanEnd::Fail(CliErrorModel::InvalidPrettyGap(t.skip("--pretty="@.len() as int))),
            }
        } else if has_prefix(t, "--max="@) {
            match parse_usize_spec(t.skip("--max="@.len() as int)) {
                Some(v) => scan(tokens, i + 1, with_number(raw, OptionName::Max, v)),
                None => ScanEnd::Fail(CliErrorModel::InvalidValue(OptionName::Max, t.skip("--max="@.len() as int))),
            }
        } else if has_prefix(t, "--num="@) {
            match parse_usize_spec(t.skip("--num="@.len() as int)) {
                Some(v) => scan(tokens, i + 1, with_number(raw, OptionName::Num, v)),
                None => ScanEnd::Fail(CliErrorModel::InvalidValue(OptionName::Num, t.skip("--num="@.len() as int))),
            }
        } else if has_prefix(t, "--start="@) {
            match parse_usize_spec(t.skip("--start="@.len() as int)) {
                Some(v) => scan(tokens, i + 1, with_number(raw, OptionName::Start, v)),
                None => ScanEnd::Fail(CliErrorModel::InvalidValue(OptionName::Start, t.skip("--start="@.len() as int))),
            }
        } else if t.len() > 0 && t[0] == '-' {
            ScanEnd::Fail(CliErrorModel::UnknownOption(t))
        } else {
            scan(tokens, i + 1, RawModel { positionals: raw.positionals.push(i as usize), ..raw })
        }
    }
}

/// Sorts the bare arguments at the indices `pos[k..]` into the numbers and
/// the file path.
pub open spec fn split_scan(
    tokens: Seq<Seq<char>>,
    file: Option<FileArgModel>,
    nums: Seq<usize>,
    pos: Seq<usize>,
    k: int,
) -> Result<(FileArgModel, Seq<usize>), CliErrorModel>
    decreases pos.len() - k,
{
    if k < 0 || k >= pos.len() {
        match file {
            Some(f) => Ok((f, nums)),
            None => Err(CliErrorModel::MissingFile),
        }
    } else {
        let t = tokens[pos[k] as int];
        match parse_usize_spec(t) {
            Some(v) => split_scan(tokens, file, nums.push(v), pos, k + 1),
            None => if file is Some {
                Err(CliErrorModel::MultipleFiles(t))
            } else {
                split_scan(tokens, Some(FileArgModel::Token(pos[k])), nums, pos, k + 1)
            },
        }
    }
}

/// Sorts the bare arguments into the numbers and the file path.
pub open spec fn split_spec(tokens: Seq<Seq<char>>, file: Option<FileArgModel>, pos: Seq<usize>) -> Result<(FileArgModel, Seq<usize>), CliErrorModel> {
    split_scan(tokens, file, Seq::empty(), pos, 0)
}

/// The number of lines for a command other than `range`.
pub open spec fn resolve_num_spec(c: CommandName, explicit: Option<usize>, values: Seq<usize>) -> Result<usize, CliErrorModel> {
    if explicit is Some && values.len() > 0 {
        Err(CliErrorModel::NumGivenTwice(c))
    } else if values.len() > 1 {
        Err(CliErrorModel::ExtraNumeric(c, values[1]))
    } else {
        let v = match explicit {
            Some(n) => n,
            None => if values.len() > 0 { values[0] } else { DEFAULT_NUM },
        };
        if v == 0 {
            Err(CliErrorModel::NumNotPositive)
        } else {
            Ok(v)
        }
    }
}

/// The action for a command other than `range`, with its number of lines.
pub open spec fn simple_action(c: CommandName, num: usize) -> Action {
    match c {
        CommandName::Head => Action::Head { num },
        CommandName::Tail => Action::Tail { num },
        CommandName::Random => Action::Random { num },
        _ => Action::RandomBuffered { num },
    }
}

/// The start and number of lines of `range`.
pub open spec fn range_spec(start: Option<usize>, num: Option<usize>, nums: Seq<usize>) -> Result<Action, CliErrorModel> {
    let (s, rest) = match start {
        Some(s) => (s, nums),
        None => if nums.len() > 0 { (nums[0], nums.drop_first()) } else { (DEFAULT_START, nums) },
    };
    let (n, rest2) = match num {
        Some(n) => (n, rest),
        None => if rest.len() > 0 { (rest[0], rest.drop_first()) } else { (DEFAULT_NUM, rest) },
    };
    if n == 0 {
        Err(CliErrorModel::NumNotPositive)
    } else if rest2.len() > 0 {
        Err(CliErrorModel::ExtraRangeNumeric(rest2[0]))
    } else {
        Ok(Action::Range { start: s, num: n })
    }
}

/// The output options of count mode.
pub open spec fn count_output() -> OutputOptions {
    OutputOptions { pretty: None, max_chars: DEFAULT_MAX_CHARS, show_line_numbers: false }
}

/// The request in count mode.
pub open spec fn count_mode_spec(tokens: Seq<Seq<char>>, raw: RawModel) -> Result<OutcomeModel, CliErrorModel> {
    if raw.command is Some {
        Err(CliErrorModel::CountWithCommand)
    } else if raw.num is Some || raw.start is Some {
        Err(CliErrorModel::CountWithNumOrStart)
    } else if raw.pretty is Some || raw.show_line_numbers || raw.max_chars != DEFAULT_MAX_CHARS {
        Err(CliErrorModel::CountWithOutputOptions)
    } else {
        match split_spec(tokens, raw.file, raw.positionals) {
            Err(e) => Err(e),
            Ok((file, nums)) => if nums.len() > 0 {
                Err(CliErrorModel::CountExtraNumeric(nums[0]))
            } else {
                Ok(OutcomeModel::Run(CliModel { file, output: count_output(), action: Action::CountLines }))
            },
        }
    }
}

/// The request, from what was gathered from the arguments.
pub open spec fn finalize_spec(tokens: Seq<Seq<char>>, raw: RawModel) -> Result<OutcomeModel, CliErrorModel> {
    if raw.count_lines {
        count_mode_spec(tokens, raw)
    } else if raw.command is None {
        Err(CliErrorModel::MissingCommand)
    } else {
        match split_spec(tokens, raw.file, raw.positionals) {
            Err(e) => Err(e),
            Ok((file, nums)) => {
                let output = OutputOptions {
                    pretty: raw.pretty,
                    max_chars: raw.max_chars,
                    show_line_numbers: raw.show_line_numbers,
                };
                let c = raw.command->0;
                let action = if c == CommandName::Range {
                    range_spec(raw.start, raw.num, nums)
                } else if raw.start is Some {
                    Err(CliErrorModel::StartNotValid(c))
                } else {
                    match resolve_num_spec(c, raw.num, nums) {
                        Ok(n) => Ok(simple_action(c, n)),
                        Err(e) => Err(e),
                    }
                };
                match action {
                    Ok(a) => Ok(OutcomeModel::Run(CliModel { file, output, action: a })),
                    Err(e) => Err(e),
                }
            },
        }
    }
}

/// The meaning of the arguments (the first one is the program's name).
pub open spec fn parse_cli_spec(tokens: Seq<Seq<char>>) -> Result<OutcomeModel, CliErrorModel> {
    if tokens.len() <= 1 {
        Ok(OutcomeModel::Help)
    } else {
        match scan(tokens, 1, raw_initial()) {
            ScanEnd::Help => Ok(OutcomeModel::Help),
            ScanEnd::Version => Ok(OutcomeModel::Version),
            ScanEnd::Fail(e) => Err(e),
            ScanEnd::Done(raw) => finalize_spec(tokens, raw),
        }
    }
}

// ---------------------------------------------------------------------------
// Laws of the grammar
// ---------------------------------------------------------------------------

/// Where an argument index lands once an argument is inserted at `at`.
pub open spec fn shifted(k: usize, at: int) -> usize {
    if k >= at { (k + 1) as usize } else { k }
}

/// The gathered arguments with their argument indices moved past an
/// argument inserted at `at`.
pub open spec fn shift_raw(raw: RawModel, at: int) -> RawModel {
    RawModel {
        file: match raw.file {
            Some(FileArgModel::Token(k)) => Some(FileArgModel::Token(shifted(k, at))),
            other => other,
        },
        positionals: raw.positionals.map_values(|k: usize| shifted(k, at)),
        ..raw
    }
}

/// The end of a reading with its argument indices moved past an argument
/// inserted at `at`.
pub open spec fn shift_end(e: ScanEnd, at: int) -> ScanEnd {
    match e {
        ScanEnd::Done(raw) => ScanEnd::Done(shift_raw(raw, at)),
        other => other,
    }
}

proof fn lemma_shift_updates(raw: RawModel, at: int, j: int)
    requires
        0 <= at <= j,
        j + 1 <= usize::MAX,
    ensures
        ({
            let pushed = RawModel { positionals: raw.positionals.push(j as usize), ..raw };
            let moved = shift_raw(raw, at);
            shift_raw(pushed, at) == RawModel { positionals: moved.positionals.push((j + 1) as usize), ..moved }
        }),
{
    let f = |k: usize| shifted(k, at);
    assert(raw.positionals.push(j as usize).map_values(f) =~= raw.positionals.map_values(f).push((j + 1) as usize));
}

/// Reading the arguments with one more argument inserted at `at`, from one
/// position further on, is reading them without it, with the indices of the
/// arguments from `at` on moved by one.
proof fn lemma_scan_shift(tokens: Seq<Seq<char>>, at: int, j: int, raw: RawModel, extra: Seq<char>)
    requires
        0 <= at <= j,
        at <= tokens.len(),
        tokens.len() + 1 <= usize::MAX,
    ensures
        scan(tokens.insert(at, extra), j + 1, shift_raw(raw, at)) == shift_end(scan(tokens, j, raw), at),
    decreases tokens.len() - j,
{
    let t2 = tokens.insert(at, extra);
    let sr = shift_raw(raw, at);
    if j < tokens.len() {
        assert(t2[j + 1] == tokens[j]);
        if j + 1 < tokens.len() {
            assert(t2[j + 2] == tokens[j + 1]);
        }
        let t = tokens[j];
        if t == "-h"@ || t == "--help"@ {
        } else if t == "-V"@ || t == "--version"@ {
        } else if t == "-p"@ || t == "--pretty"@ {
            if j + 1 < tokens.len() && parse_usize_spec(tokens[j + 1]) is Some {
                lemma_scan_shift(tokens, at, j + 2, RawModel { pretty: Some(parse_usize_spec(tokens[j + 1])->0), ..raw }, extra);
            } else {
                lemma_scan_shift(tokens, at, j + 1, RawModel { pretty: Some(0), ..raw }, extra);
            }
        } else if t == "-l"@ || t == "--line"@ {
            lemma_scan_shift(tokens, at, j + 1, RawModel { show_line_numbers: true, ..raw }, extra);
        } else if t == "-c"@ || t == "--count"@ {
            lemma_scan_shift(tokens, at, j + 1, RawModel { count_lines: true, ..raw }, extra);
        } else if t == "-f"@ || t == "--file"@ {
            if j + 1 < tokens.len() {
                lemma_scan_shift(tokens, at, j + 2, RawModel { file: Some(FileArgModel::Token((j + 1) as usize)), ..raw }, extra);
            }
        } else if number_option_of_flag(t) is Some {
            let o = number_option_of_flag(t)->0;
            if j + 1 < tokens.len() {
                match parse_usize_spec(tokens[j + 1]) {
                    Some(v) => {
                        lemma_scan_shift(tokens, at, j + 2, with_number(raw, o, v), extra);
                        assert(shift_raw(with_number(raw, o, v), at) == with_number(sr, o, v));
                    },
                    None => {},
                }
            }
        } else if command_of_word(t) is Some {
            let c = command_of_word(t)->0;
            if raw.command is None {
                lemma_scan_shift(tokens, at, j + 1, RawModel { command: Some(c), ..raw }, extra);
            }
        } else if has_prefix(t, "--file="@) {
            lemma_scan_shift(tokens, at, j + 1,
                RawModel { file: Some(FileArgModel::Text(t.skip("--file="@.len() as int))), ..raw }, extra);
        } else if has_prefix(t, "--pretty="@) {
            match parse_usize_spec(t.skip("--pretty="@.len() as int)) {
                Some(v) => {
                    lemma_scan_shift(tokens, at, j + 1, RawModel { pretty: Some(v), ..raw }, extra);
                },
                None => {},
            }
        } else if has_prefix(t, "--max="@) {
            match parse_usize_spec(t.skip("--max="@.len() as int)) {
                Some(v) => {
                    lemma_scan_shift(tokens, at, j + 1, with_number(raw, OptionName::Max, v), extra);
                    assert(shift_raw(with_number(raw, OptionName::Max, v), at) == with_number(sr, OptionName::Max, v));
                },
                None => {},
            }
        } else if has_prefix(t, "--num="@) {
            match parse_usize_spec(t.skip("--num="@.len() as int)) {
                Some(v) => {
                    lemma_scan_shift(tokens, at, j + 1, with_number(raw, OptionName::Num, v), extra);
                    assert(shift_raw(with_number(raw, OptionName::Num, v), at) == with_number(sr, OptionName::Num, v));
                },
                None => {},
            }
        } else if has_prefix(t, "--start="@) {
            match parse_usize_spec(t.skip("--start="@.len() as int)) {
                Some(v) => {
                    lemma_scan_shift(tokens, at, j + 1, with_number(raw, OptionName::Start, v), extra);
                    assert(shift_raw(with_number(raw, OptionName::Start, v), at) == with_number(sr, OptionName::Start, v));
                },
                None => {},
            }
        } else if t.len() > 0 && t[0] == '-' {
        } else {
            lemma_scan_shift(tokens, at, j + 1, RawModel { positionals: raw.positionals.push(j as usize), ..raw }, extra);
            lemma_shift_updates(raw, at, j);
        }
    }
}

/// `-p` (or `--pretty`) takes the next argument as its gap only when that
/// argument is a number: put before an argument that is not a number (or
/// at the end), it takes none, and the arguments read the same as without
/// it, with a gap of 0 (the arguments after it keep their meaning, at
/// indices one further on).
pub proof fn law_valueless_pretty_takes_no_argument(tokens: Seq<Seq<char>>, at: int, raw: RawModel, flag: Seq<char>)
    requires
        flag == "-p"@ || flag == "--pretty"@,
        0 <= at <= tokens.len(),
        tokens.len() + 1 <= usize::MAX,
        at < tokens.len() ==> parse_usize_spec(tokens[at]) is None,
        forall|k: int| 0 <= k < raw.positionals.len() ==> raw.positionals[k] < at,
        raw.file matches Some(FileArgModel::Token(f)) ==> f < at,
    ensures
        scan(tokens.insert(at, flag), at, raw) == shift_end(scan(tokens, at, (RawModel { pretty: Some(0), ..raw })), at),
{
    reveal_strlit("-p");
    reveal_strlit("--pretty");
    reveal_strlit("-h");
    reveal_strlit("--help");
    reveal_strlit("-V");
    reveal_strlit("--version");
    let r0 = RawModel { pretty: Some(0), ..raw };
    let t2 = tokens.insert(at, flag);
    assert("-p"@[1] != "-h"@[1] && "-p"@[1] != "-V"@[1]);
    assert("-p"@.len() != "--help"@.len() && "-p"@.len() != "--version"@.len());
    assert("--pretty"@.len() != "-h"@.len() && "--pretty"@.len() != "-V"@.len());
    assert("--pretty"@.len() != "--help"@.len() && "--pretty"@.len() != "--version"@.len());
    assert(flag != "-h"@ && flag != "--help"@ && flag != "-V"@ && flag != "--version"@);
    assert(t2[at] == flag);
    if at < tokens.len() {
        assert(t2[at + 1] == tokens[at]);
    }
    lemma_scan_shift(tokens, at, at, r0, flag);
    assert(r0.positionals.map_values(|k: usize| shifted(k, at)) =~= r0.positionals);
    assert(shift_raw(r0, at) == r0);
}

// ---------------------------------------------------------------------------
// Messages
// ---------------------------------------------------------------------------

/// The word that names a command on the command line.
pub open spec fn command_word(c: CommandName) -> Seq<char> {
    match c {
        CommandName::Head => "head"@,
        CommandName::Tail => "tail"@,
        CommandName::Range => "range"@,
        CommandName::Random => "random"@,
        CommandName::RandomBuffered => "random-buf"@,
    }
}

/// The name under which a command is shown in an error message.
pub open spec fn command_debug_name(c: CommandName) -> Seq<char> {
    match c {
        CommandName::Head => "Head"@,
        CommandName::Tail => "Tail"@,
        CommandName::Range => "Range"@,
        CommandName::Random => "Random"@,
        CommandName::RandomBuffered => "RandomBuffered"@,
    }
}

/// The long flag of an option.
pub open spec fn option_flag(o: OptionName) -> Seq<char> {
    match o {
        OptionName::File => "--file"@,
        OptionName::Max => "--max"@,
        OptionName::Num => "--num"@,
        OptionName::Start => "--start"@,
    }
}

/// The text of an error message.
pub open spec fn message_spec(e: CliErrorModel) -> Seq<char> {
    match e {
        CliErrorModel::UnknownOption(t) => "unknown option: "@ + t,
        CliErrorModel::MissingValue(o) => "missing value for `"@ + option_flag(o) + "`"@,
        CliErrorModel::InvalidValue(o, t) => "invalid value for `"@ + option_flag(o) + "`: "@ + t,
        CliErrorModel::InvalidPrettyGap(t) => "invalid value for `-p/--pretty`: "@ + t,
        CliErrorModel::MultipleCommands(a, b) => "multiple commands provided: "@ + command_debug_name(a)
            + " and "@ + command_debug_name(b),
        CliErrorModel::MissingCommand => "missing command; use head, tail, range, random, or -c/--count"@,
        CliErrorModel::StartNotValid(c) => "`--start` is not valid for `"@ + command_word(c) + "`"@,
        CliErrorModel::NumGivenTwice(c) => "`"@ + command_word(c)
            + "` received `num` more than once; use either positional `num` or `-n/--num`"@,
        CliErrorModel::ExtraNumeric(c, v) => "unexpected extra numeric value for `"@ + command_word(c)
            + "`: "@ + decimal(v as nat),
        CliErrorModel::NumNotPositive => "`--num` must be greater than 0"@,
        CliErrorModel::ExtraRangeNumeric(v) => "unexpected extra numeric value for range: "@ + decimal(v as nat),
        CliErrorModel::CountWithCommand => "`-c/--count` cannot be combined with head/tail/range/random"@,
        CliErrorModel::CountWithNumOrStart => "`-c/--count` does not use `-n/--num` or `-s/--start`"@,
        CliErrorModel::CountWithOutputOptions => "`-c/--count` does not use `-p/--pretty`, `-l/--line`, or `-m/--max`"@,
        CliErrorModel::CountExtraNumeric(v) => "unexpected numeric value in count mode: "@ + decimal(v as nat),
        CliErrorModel::MultipleFiles(t) => "multiple file paths provided; unexpected extra value: "@ + t,
        CliErrorModel::MissingFile => "missing input file; use `-f/--file` or provide a bare file path"@,
    }
}

fn command_word_text(c: CommandName) -> (r: &'static str)
    ensures
        r@ == command_word(c),
{
    match c {
        CommandName::Head => "head",
        CommandName::Tail => "tail",
        CommandName::Range => "range",
        CommandName::Random => "random",
        CommandName::RandomBuffered => "random-buf",
    }
}

fn command_debug_text(c: CommandName) -> (r: &'static str)
    ensures
        r@ == command_debug_name(c),
{
    match c {
        CommandName::Head => "Head",
        CommandName::Tail => "Tail",
        CommandName::Range => "Range",
        CommandName::Random => "Random",
        CommandName::RandomBuffered => "RandomBuffered",
    }
}

fn option_flag_text(o: OptionName) -> (r: &'static str)
    ensures
        r@ == option_flag(o),
{
    match o {
        OptionName::File => "--file",
        OptionName::Max => "--max",
        OptionName::Num => "--num",
        OptionName::Start => "--start",
    }
}

impl CliError {
    /// The message that the program prints for this error.
    pub fn message(&self) -> (res: String)
        ensures
            res@ == message_spec(self@),
    {
        match self {
            CliError::UnknownOption(t) => {
                let mut s = String::from_str("unknown option: ");
                s.append(t.as_str());
                s
            },
            CliError::MissingValue(o) => {
                let mut s = String::from_str("missing value for `");
                s.append(option_flag_text(*o));
                s.append("`");
                s
            },
            CliError::InvalidValue(o, t) => {
                let mut s = String::from_str("invalid value for `");
                s.append(option_flag_text(*o));
                s.append("`: ");
                s.append(t.as_str());
                s
            },
            CliError::InvalidPrettyGap(t) => {
                let mut s = String::from_str("invalid value for `-p/--pretty`: ");
                s.append(t.as_str());
                s
            },
            CliError::MultipleCommands(a, b) => {
                let mut s = String::from_str("multiple commands provided: ");
                s.append(command_debug_text(*a));
                s.append(" and ");
                s.append(command_debug_text(*b));
                s
            },
            CliError::MissingCommand => String::from_str(
                "missing command; use head, tail, range, random, or -c/--count",
            ),
            CliError::StartNotValid(c) => {
                let mut s = String::from_str("`--start` is not valid for `");
                s.append(command_word_text(*c));
                s.append("`");
                s
            },
            CliError::NumGivenTwice(c) => {
                let mut s = String::from_str("`");
                s.append(command_word_text(*c));
                s.append("` received `num` more than once; use either positional `num` or `-n/--num`");
                s
            },
            CliError::ExtraNumeric(c, v) => {
                let mut s = String::from_str("unexpected extra numeric value for `");
                s.append(command_word_text(*c));
                s.append("`: ");
                push_decimal(&mut s, *v);
                s
            },
            CliError::NumNotPositive => String::from_str("`--num` must be greater than 0"),
            CliError::ExtraRangeNumeric(v) => {
                let mut s = String::from_str("unexpected extra numeric value for range: ");
                push_decimal(&mut s, *v);
                s
            },
            CliError::CountWithCommand => String::from_str(
                "`-c/--count` cannot be combined with head/tail/range/random",
            ),
            CliError::CountWithNumOrStart => String::from_str(
                "`-c/--count` does not use `-n/--num` or `-s/--start`",
            ),
            CliError::CountWithOutputOptions => String::from_str(
                "`-c/--count` does not use `-p/--pretty`, `-l/--line`, or `-m/--max`",
            ),
            CliError::CountExtraNumeric(v) => {
                let mut s = String::from_str("unexpected numeric value in count mode: ");
                push_decimal(&mut s, *v);
                s
            },
            CliError::MultipleFiles(t) => {
                let mut s = String::from_str("multiple file paths provided; unexpected extra value: ");
                s.append(t.as_str());
                s
            },
            CliError::MissingFile => String::from_str(
                "missing input file; use `-f/--file` or provide a bare file path",
            ),
        }
    }
}


// ---------------------------------------------------------------------------
// The grammar, executed
// ---------------------------------------------------------------------------

/// What has been gathered from the arguments read so far.
struct RawArgs {
    file: Option<FileArg>,
    pretty: Option<usize>,
    max_chars: usize,
    show_line_numbers: bool,
    count_lines: bool,
    command: Option<CommandName>,
    num: Option<usize>,
    start: Option<usize>,
    positionals: Vec<usize>,
}

/// The model of an optional file argument.
pub open spec fn file_opt_view(f: Option<FileArg>) -> Option<FileArgModel> {
    match f {
        Some(f) => Some(f@),
        None => None,
    }
}

impl View for RawArgs {
    type V = RawModel;

    closed spec fn view(&self) -> RawModel {
        RawModel {
            file: file_opt_view(self.file),
            pretty: self.pretty,
            max_chars: self.max_chars,
            show_line_numbers: self.show_line_numbers,
            count_lines: self.count_lines,
            command: self.command,
            num: self.num,
            start: self.start,
            positionals: self.positionals@,
        }
    }
}

impl RawArgs {
    fn new() -> (r: RawArgs)
        ensures
            r@ == raw_initial(),
    {
        RawArgs {
            file: None,
            pretty: None,
            max_chars: DEFAULT_MAX_CHARS,
            show_line_numbers: false,
            count_lines: false,
            command: None,
            num: None,
            start: None,
            positionals: Vec::new(),
        }
    }
}

fn is_flag(t: &str, short: &str, long: &str) -> (r: bool)
    ensures
        r == (t@ == short@ || t@ == long@),
{
    same_text(t, short) || same_text(t, long)
}

fn command_of(t: &str) -> (r: Option<CommandName>)
    ensures
        r == command_of_word(t@),
{
    if same_text(t, "head") {
        Some(CommandName::Head)
    } else if same_text(t, "tail") {
        Some(CommandName::Tail)
    } else if same_text(t, "range") {
        Some(CommandName::Range)
    } else if same_text(t, "random") || same_text(t, "random-fast") {
        Some(CommandName::Random)
    } else if same_text(t, "random-buf") {
        Some(CommandName::RandomBuffered)
    } else {
        None
    }
}

fn number_option_of(t: &str) -> (r: Option<OptionName>)
    ensures
        r == number_option_of_flag(t@),
{
    if is_flag(t, "-m", "--max") {
        Some(OptionName::Max)
    } else if is_flag(t, "-n", "--num") {
        Some(OptionName::Num)
    } else if is_flag(t, "-s", "--start") {
        Some(OptionName::Start)
    } else {
        None
    }
}

fn set_number(raw: &mut RawArgs, o: OptionName, v: usize)
    ensures
        final(raw)@ == with_number(old(raw)@, o, v),
{
    match o {
        OptionName::Max => raw.max_chars = v,
        OptionName::Num => raw.num = Some(v),
        _ => raw.start = Some(v),
    }
}

fn first_char_is_dash(t: &str) -> (r: bool)
    ensures
        r == (t@.len() > 0 && t@[0] == '-'),
{
    t.unicode_len() > 0 && t.get_char(0) == '-'
}

/// Reads the program's arguments (the first one is the program's name) and
/// decides what to run.
pub fn parse_cli(tokens: &Vec<String>) -> (res: Result<ParseOutcome, CliError>)
    ensures
        result_view(res) == parse_cli_spec(texts(tokens@)),
{
    let len = tokens.len();
    let ghost toks = texts(tokens@);
    if len <= 1 {
        return Ok(ParseOutcome::Help);
    }
    let mut raw = RawArgs::new();
    let mut i: usize = 1;
    while i < len
        invariant
            1 <= i <= len,
            len == tokens@.len(),
            toks == texts(tokens@),
            toks.len() == len,
            forall|k: int| 0 <= k < raw.positionals@.len() ==> raw.positionals@[k] < len,
            scan(toks, i as int, raw@) == scan(toks, 1, raw_initial()),
        decreases len - i,
    {
        let t = tokens[i].as_str();
        assert(toks[i as int] == t@);
        let ghost before = raw@;
        if is_flag(t, "-h", "--help") {
            return Ok(ParseOutcome::Help);
        } else if is_flag(t, "-V", "--version") {
            return Ok(ParseOutcome::Version);
        } else if is_flag(t, "-p", "--pretty") {
            let mut gap: Option<usize> = None;
            if i + 1 < len {
                assert(toks[i + 1] == tokens@[i + 1]@);
                gap = parse_usize(tokens[i + 1].as_str());
            }
            match gap {
                Some(v) => {
                    raw.pretty = Some(v);
                    i = i + 2;
                },
                None => {
                    raw.pretty = Some(0);
                    i = i + 1;
                },
            }
        } else if is_flag(t, "-l", "--line") {
            raw.show_line_numbers = true;
            i = i + 1;
        } else if is_flag(t, "-c", "--count") {
            raw.count_lines = true;
            i = i + 1;
        } else if is_flag(t, "-f", "--file") {
            if i + 1 < len {
                raw.file = Some(FileArg::Token(i + 1));
                i = i + 2;
            } else {
                return Err(CliError::MissingValue(OptionName::File));
            }
        } else if let Some(o) = number_option_of(t) {
            if i + 1 < len {
                assert(toks[i + 1] == tokens@[i + 1]@);
                match parse_usize(tokens[i + 1].as_str()) {
                    Some(v) => {
                        set_number(&mut raw, o, v);
                        i = i + 2;
                    },
                    None => {
                        return Err(CliError::InvalidValue(o, tokens[i + 1].clone()));
                    },
                }
            } else {
                return Err(CliError::MissingValue(o));
            }
        } else if let Some(c) = command_of(t) {
            match raw.command {
                Some(existing) => {
                    return Err(CliError::MultipleCommands(existing, c));
                },
                None => {
                    raw.command = Some(c);
                    i = i + 1;
                },
            }
        } else if let Some(rest) = strip_prefix(t, "--file=") {
            raw.file = Some(FileArg::Text(String::from_str(rest)));
            i = i + 1;
        } else if let Some(rest) = strip_prefix(t, "--pretty=") {
            match parse_usize(rest) {
                Some(v) => {
                    raw.pretty = Some(v);
                    i = i + 1;
                },
                None => {
                    return Err(CliError::InvalidPrettyGap(String::from_str(rest)));
                },
            }
        } else if let Some(rest) = strip_prefix(t, "--max=") {
            match parse_usize(rest) {
                Some(v) => {
                    set_number(&mut raw, OptionName::Max, v);
                    i = i + 1;
                },
                None => {
                    return Err(CliError::InvalidValue(OptionName::Max, String::from_str(rest)));
                },
            }
        } else if let Some(rest) = strip_prefix(t, "--num=") {
            match parse_usize(rest) {
                Some(v) => {
                    set_number(&mut raw, OptionName::Num, v);
                    i = i + 1;
                },
                None => {
                    return Err(CliError::InvalidValue(OptionName::Num, String::from_str(rest)));
                },
            }
        } else if let Some(rest) = strip_prefix(t, "--start=") {
            match parse_usize(rest) {
                Some(v) => {
                    set_number(&mut raw, OptionName::Start, v);
                    i = i + 1;
                },
                None => {
                    return Err(CliError::InvalidValue(OptionName::Start, String::from_str(rest)));
                },
            }
        } else if first_char_is_dash(t) {
            return Err(CliError::UnknownOption(String::from_str(t)));
        } else {
            raw.positionals.push(i);
            i = i + 1;
        }
    }
    finalize_args(tokens, raw)
}

/// Sorts the bare arguments into the numbers and the file path.
fn split_file_and_numeric(tokens: &Vec<String>, explicit_file: Option<FileArg>, positionals: &Vec<usize>) -> (res: Result<(FileArg, Vec<usize>), CliError>)
    requires
        forall|k: int| 0 <= k < positionals@.len() ==> positionals@[k] < tokens@.len(),
    ensures
        split_spec(texts(tokens@), file_opt_view(explicit_file), positionals@) == match res {
            Ok((f, n)) => Ok((f@, n@)),
            Err(e) => Err::<(FileArgModel, Seq<usize>), CliErrorModel>(e@),
        },
{
    let ghost toks = texts(tokens@);
    let mut file = explicit_file;
    let mut numeric: Vec<usize> = Vec::new();
    let n = positionals.len();
    let mut k: usize = 0;
    assert(numeric@ =~= Seq::<usize>::empty());
    while k < n
        invariant
            k <= n,
            n == positionals@.len(),
            toks == texts(tokens@),
            toks.len() == tokens@.len(),
            forall|j: int| 0 <= j < positionals@.len() ==> positionals@[j] < tokens@.len(),
            split_scan(toks, file_opt_view(file), numeric@, positionals@, k as int)
                == split_spec(toks, file_opt_view(explicit_file), positionals@),
        decreases n - k,
    {
        let idx = positionals[k];
        let t = tokens[idx].as_str();
        assert(toks[idx as int] == t@);
        match parse_usize(t) {
            Some(v) => {
                numeric.push(v);
            },
            None => {
                if file.is_some() {
                    return Err(CliError::MultipleFiles(String::from_str(t)));
                }
                file = Some(FileArg::Token(idx));
            },
        }
        k = k + 1;
    }
    match file {
        Some(f) => Ok((f, numeric)),
        None => Err(CliError::MissingFile),
    }
}

/// The number of lines for a command other than `range`.
pub fn resolve_num(command: CommandName, explicit: Option<usize>, values: &Vec<usize>) -> (res: Result<usize, CliError>)
    ensures
        resolve_num_spec(command, explicit, values@) == match res {
            Ok(n) => Ok(n),
            Err(e) => Err::<usize, CliErrorModel>(e@),
        },
{
    if explicit.is_some() && values.len() > 0 {
        return Err(CliError::NumGivenTwice(command));
    }
    if values.len() > 1 {
        return Err(CliError::ExtraNumeric(command, values[1]));
    }
    let candidate = match explicit {
        Some(n) => Some(n),
        None => if values.len() > 0 { Some(values[0]) } else { None },
    };
    positive_or_default(candidate, DEFAULT_NUM)
}

/// The value, or the default where there is none; 0 is refused.
pub fn positive_or_default(value: Option<usize>, default: usize) -> (res: Result<usize, CliError>)
    ensures
        ({
            let v = match value { Some(v) => v, None => default };
            if v == 0 { res matches Err(CliError::NumNotPositive) } else { res == Ok::<usize, CliError>(v) }
        }),
{
    let resolved = match value {
        Some(v) => v,
        None => default,
    };
    if resolved == 0 {
        return Err(CliError::NumNotPositive);
    }
    Ok(resolved)
}

/// Refuses `--start` for a command that has no start.
pub fn ensure_option_not_used(command: CommandName, value: Option<usize>) -> (res: Result<(), CliError>)
    ensures
        value is Some <==> res is Err,
        res matches Err(e) ==> e == CliError::StartNotValid(command),
{
    if value.is_some() {
        return Err(CliError::StartNotValid(command));
    }
    Ok(())
}

/// The start and number of lines of `range`.
fn resolve_range(start: Option<usize>, num: Option<usize>, values: &Vec<usize>) -> (res: Result<Action, CliError>)
    ensures
        range_spec(start, num, values@) == match res {
            Ok(a) => Ok(a),
            Err(e) => Err::<Action, CliErrorModel>(e@),
        },
{
    let mut next: usize = 0;
    let s = match start {
        Some(s) => s,
        None => if next < values.len() {
            next = next + 1;
            values[0]
        } else {
            DEFAULT_START
        },
    };
    let candidate = match num {
        Some(n) => Some(n),
        None => if next < values.len() {
            let v = values[next];
            next = next + 1;
            Some(v)
        } else {
            None
        },
    };
    let n = positive_or_default(candidate, DEFAULT_NUM)?;
    if next < values.len() {
        return Err(CliError::ExtraRangeNumeric(values[next]));
    }
    Ok(Action::Range { start: s, num: n })
}

/// The request in count mode.
fn finalize_count_mode(tokens: &Vec<String>, raw: RawArgs) -> (res: Result<ParseOutcome, CliError>)
    requires
        forall|k: int| 0 <= k < raw.positionals@.len() ==> raw.positionals@[k] < tokens@.len(),
    ensures
        result_view(res) == count_mode_spec(texts(tokens@), raw@),
{
    if raw.command.is_some() {
        return Err(CliError::CountWithCommand);
    }
    if raw.num.is_some() || raw.start.is_some() {
        return Err(CliError::CountWithNumOrStart);
    }
    if raw.pretty.is_some() || raw.show_line_numbers || raw.max_chars != DEFAULT_MAX_CHARS {
        return Err(CliError::CountWithOutputOptions);
    }
    let (file, numeric) = split_file_and_numeric(tokens, raw.file, &raw.positionals)?;
    if numeric.len() > 0 {
        return Err(CliError::CountExtraNumeric(numeric[0]));
    }
    Ok(ParseOutcome::Run(Cli {
        file,
        output: OutputOptions { pretty: None, max_chars: DEFAULT_MAX_CHARS, show_line_numbers: false },
        action: Action::CountLines,
    }))
}

/// The request, from what was gathered from the arguments.
fn finalize_args(tokens: &Vec<String>, raw: RawArgs) -> (res: Result<ParseOutcome, CliError>)
    requires
        forall|k: int| 0 <= k < raw.positionals@.len() ==> raw.positionals@[k] < tokens@.len(),
    ensures
        result_view(res) == finalize_spec(texts(tokens@), raw@),
{
    if raw.count_lines {
        return finalize_count_mode(tokens, raw);
    }
    let command = match raw.command {
        Some(c) => c,
        None => {
            return Err(CliError::MissingCommand);
        },
    };
    let (file, numeric) = split_file_and_numeric(tokens, raw.file, &raw.positionals)?;
    let output = OutputOptions {
        pretty: raw.pretty,
        max_chars: raw.max_chars,
        show_line_numbers: raw.show_line_numbers,
    };
    let action = match command {
        CommandName::Range => resolve_range(raw.start, raw.num, &numeric)?,
        _ => {
            ensure_option_not_used(command, raw.start)?;
            let num = resolve_num(command, raw.num, &numeric)?;
            match command {
                CommandName::Head => Action::Head { num },
                CommandName::Tail => Action::Tail { num },
                CommandName::Random => Action::Random { num },
                _ => Action::RandomBuffered { num },
            }
        },
    };
    Ok(ParseOutcome::Run(Cli { file, output, action }))
}

} // verus!
