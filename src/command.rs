//! The commands of the interactive shell: splitting a line into words,
//! reading numbers, and telling the commands apart.

use vstd::prelude::*;
use crate::table::{same_text, NameMap};
use crate::program::{Scope, TypeTable, Variable};
use crate::context::{construct_context, names_of, scope_chain, visible_variables};
use crate::render::{
    Line, render_variable, render_read, lines_for, read_lines, reads_of, lines_view, line_view, offset_address,
    lemma_print_reads_as_read_one,
};

verus! {

/// The characters that separate words.
pub open spec fn is_space(c: char) -> bool {
    c == ' ' || c == '\t' || c == '\n' || c == '\r' || c == '\x0b' || c == '\x0c'
}

/// The words found in `s`, with the word still open at its end.
pub open spec fn split_state(s: Seq<char>) -> (Seq<Seq<char>>, Seq<char>)
    decreases s.len(),
{
    if s.len() == 0 {
        (seq![], seq![])
    } else {
        let (done, open) = split_state(s.drop_last());
        let c = s.last();
        if is_space(c) {
            if open.len() > 0 {
                (done.push(open), seq![])
            } else {
                (done, open)
            }
        } else {
            (done, open.push(c))
        }
    }
}

/// The maximal runs of non-space characters of `s`, in order.
pub open spec fn words(s: Seq<char>) -> Seq<Seq<char>> {
    let (done, open) = split_state(s);
    if open.len() > 0 {
        done.push(open)
    } else {
        done
    }
}

/// Splits `line` into its words.
pub fn split_words(line: &str) -> (r: Vec<String>)
    ensures
        r@.map_values(|w: String| w@) == words(line@),
{
    let n = line.unicode_len();
    let mut out: Vec<String> = Vec::new();
    let mut start: usize = 0;
    let mut open = false;
    let mut i: usize = 0;
    while i < n
        invariant
            n == line@.len(),
            i <= n,
            start <= i,
            out@.map_values(|w: String| w@) == split_state(line@.take(i as int)).0,
            split_state(line@.take(i as int)).1 == if open {
                line@.subrange(start as int, i as int)
            } else {
                seq![]
            },
            open ==> start < i,
        decreases n - i,
    {
        let c = line.get_char(i);
        let ghost prev = out@.map_values(|w: String| w@);
        proof {
            assert(line@.take(i + 1).drop_last() =~= line@.take(i as int));
        }
        if c == ' ' || c == '\t' || c == '\n' || c == '\r' || c == '\x0b' || c == '\x0c' {
            if open {
                let w = line.substring_char(start, i);
                out.push(String::from_str(w));
                open = false;
                proof {
                    assert(out@.map_values(|w: String| w@) =~= prev.push(line@.subrange(start as int, i as int)));
                }
            }
        } else {
            if !open {
                open = true;
                start = i;
                assert(line@.subrange(start as int, i + 1) =~= seq![c]);
            } else {
                assert(line@.subrange(start as int, i + 1) =~= line@.subrange(start as int, i as int).push(c));
            }
        }
        i = i + 1;
    }
    proof {
        assert(line@.take(n as int) =~= line@);
    }
    if open {
        let ghost prev = out@.map_values(|w: String| w@);
        let w = line.substring_char(start, n);
        out.push(String::from_str(w));
        proof {
            assert(out@.map_values(|w: String| w@) =~= prev.push(line@.subrange(start as int, n as int)));
        }
    }
    out
}

/// Why a number could not be read.
#[derive(Clone, Copy, Debug, PartialEq, Eq, Structural)]
pub enum NumberError {
    /// No digits.
    Empty,
    /// A character that is not a digit of the base.
    InvalidDigit,
    /// The value does not fit in the integer type.
    Overflow,
}

/// The value of a digit character in `base`, if it is one.
pub open spec fn digit_value(c: char, base: nat) -> Option<nat> {
    let v: int = if '0' <= c && c <= '9' {
        c as int - '0' as int
    } else if 'a' <= c && c <= 'z' {
        c as int - 'a' as int + 10
    } else if 'A' <= c && c <= 'Z' {
        c as int - 'A' as int + 10
    } else {
        base as int
    };
    if v < base {
        Some(v as nat)
    } else {
        None
    }
}

/// Whether every character of `s` is a digit of `base`.
pub open spec fn all_digits(s: Seq<char>, base: nat) -> bool {
    forall|i: int| 0 <= i < s.len() ==> (#[trigger] digit_value(s[i], base)) is Some
}

/// The value of the digits `s` in `base`, most significant first.
pub open spec fn digits_value(s: Seq<char>, base: nat) -> nat
    decreases s.len(),
{
    if s.len() == 0 {
        0
    } else {
        digits_value(s.drop_last(), base) * base + digit_value(s.last(), base)->0
    }
}

/// The digits of `s` once an optional leading `+` is taken off.
pub open spec fn unsigned_body(s: Seq<char>) -> Seq<char> {
    if s.len() > 0 && s[0] == '+' {
        s.drop_first()
    } else {
        s
    }
}

/// The integer that `s` writes in `base`, below `limit`: an optional `+`,
/// then one digit or more.
pub open spec fn parse_unsigned(s: Seq<char>, base: nat, limit: nat) -> Result<nat, NumberError> {
    let body = unsigned_body(s);
    if s.len() == 0 {
        Err(NumberError::Empty)
    } else if body.len() == 0 || !all_digits(body, base) {
        Err(NumberError::InvalidDigit)
    } else if digits_value(body, base) >= limit {
        Err(NumberError::Overflow)
    } else {
        Ok(digits_value(body, base))
    }
}

fn digit_of(c: char, base: u32) -> (r: Option<u32>)
    requires
        base == 10 || base == 16,
    ensures
        r matches Some(v) ==> digit_value(c, base as nat) == Some(v as nat),
        r is None ==> digit_value(c, base as nat) is None,
{
    let v: u32 = if '0' <= c && c <= '9' {
        (c as u32) - ('0' as u32)
    } else if 'a' <= c && c <= 'z' {
        (c as u32) - ('a' as u32) + 10
    } else if 'A' <= c && c <= 'Z' {
        (c as u32) - ('A' as u32) + 10
    } else {
        base
    };
    if v < base {
        Some(v)
    } else {
        None
    }
}

proof fn lemma_digits_value_grows(s: Seq<char>, base: nat, k: int)
    requires
        base >= 2,
        0 <= k <= s.len(),
    ensures
        digits_value(s.take(k), base) <= digits_value(s, base),
    decreases s.len() - k,
{
    if k < s.len() {
        lemma_digits_value_grows(s, base, k + 1);
        let t = s.take(k + 1);
        assert(t.drop_last() =~= s.take(k));
        let a = digits_value(s.take(k), base);
        assert(a <= a * base + digit_value(t.last(), base)->0) by (nonlinear_arith)
            requires
                base >= 2,
        ;
    } else {
        assert(s.take(k) =~= s);
    }
}

/// Reads an unsigned 64-bit integer written in `base` (10 or 16).
pub fn parse_u64(s: &str, base: u32) -> (r: Result<u64, NumberError>)
    requires
        base == 10 || base == 16,
    ensures
        match parse_unsigned(s@, base as nat, 0x1_0000_0000_0000_0000) {
            Ok(v) => r == Ok::<u64, NumberError>(v as u64),
            Err(e) => r == Err::<u64, NumberError>(e),
        },
{
    let n = s.unicode_len();
    if n == 0 {
        return Err(NumberError::Empty);
    }
    let first: usize = if s.get_char(0) == '+' { 1 } else { 0 };
    let ghost body = unsigned_body(s@);
    proof {
        assert(body =~= s@.subrange(first as int, n as int));
    }
    if first == n {
        return Err(NumberError::InvalidDigit);
    }
    let mut i: usize = first;
    while i < n
        invariant
            n == s@.len(),
            base == 10 || base == 16,
            first <= i <= n,
            body == s@.subrange(first as int, n as int),
            body == unsigned_body(s@),
            first < n,
            forall|j: int| first <= j < i ==> (#[trigger] digit_value(s@[j], base as nat)) is Some,
        decreases n - i,
    {
        match digit_of(s.get_char(i), base) {
            Some(_) => {},
            None => {
                proof {
                    assert(body[i - first] == s@[i as int]);
                    assert(digit_value(body[i - first], base as nat) is None);
                    assert(!all_digits(body, base as nat));
                }
                return Err(NumberError::InvalidDigit);
            },
        }
        i = i + 1;
    }
    assert(all_digits(body, base as nat)) by {
        assert forall|j: int| 0 <= j < body.len() implies (#[trigger] digit_value(body[j], base as nat)) is Some by {
            assert(body[j] == s@[first + j]);
        }
    }
    let mut acc: u64 = 0;
    let mut k: usize = first;
    while k < n
        invariant
            n == s@.len(),
            first <= k <= n,
            base == 10 || base == 16,
            body == s@.subrange(first as int, n as int),
            body == unsigned_body(s@),
            first < n,
            all_digits(body, base as nat),
            acc as nat == digits_value(body.take(k - first), base as nat),
        decreases n - k,
    {
        let ghost t = body.take(k - first + 1);
        proof {
            assert(t.drop_last() =~= body.take(k - first));
            assert(t.last() == s@[k as int]);
            assert(digit_value(body[k - first], base as nat) is Some);
        }
        let d = match digit_of(s.get_char(k), base) {
            Some(d) => d,
            None => 0,
        };
        assert(d as nat == digit_value(t.last(), base as nat)->0);
        assert(digits_value(t, base as nat) == acc * base + d);
        match acc.checked_mul(base as u64) {
            Some(m) => match m.checked_add(d as u64) {
                Some(v) => {
                    acc = v;
                },
                None => {
                    proof {
                        lemma_digits_value_grows(body, base as nat, k - first + 1);
                    }
                    return Err(NumberError::Overflow);
                },
            },
            None => {
                proof {
                    lemma_digits_value_grows(body, base as nat, k - first + 1);
                    assert(acc * base <= acc * base + d) by (nonlinear_arith);
                }
                return Err(NumberError::Overflow);
            },
        }
        k = k + 1;
    }
    proof {
        assert(body.take(n - first) =~= body);
    }
    Ok(acc)
}

/// `s` with every leading `0x` taken off.
pub open spec fn strip_hex_prefix(s: Seq<char>) -> Seq<char>
    decreases s.len(),
{
    if s.len() >= 2 && s[0] == '0' && s[1] == 'x' {
        strip_hex_prefix(s.skip(2))
    } else {
        s
    }
}

/// Takes every leading `0x` off `s`.
pub fn trim_hex_prefix(s: &str) -> (r: &str)
    ensures
        r@ == strip_hex_prefix(s@),
{
    let n = s.unicode_len();
    let mut i: usize = 0;
    assert(s@.skip(0) =~= s@);
    while n - i >= 2 && s.get_char(i) == '0' && s.get_char(i + 1) == 'x'
        invariant
            n == s@.len(),
            i <= n,
            strip_hex_prefix(s@.skip(i as int)) == strip_hex_prefix(s@),
        decreases n - i,
    {
        proof {
            assert(s@.skip(i as int).skip(2) =~= s@.skip(i + 2));
        }
        i = i + 2;
    }
    proof {
        assert(s@.subrange(i as int, n as int) =~= s@.skip(i as int));
    }
    s.substring_char(i, n)
}


/// A command of the shell.
#[derive(Clone, Debug)]
pub enum Command {
    /// A line with no words.
    Empty,
    /// `exit` or `quit`: resume the child.
    Exit,
    /// `help`.
    Help,
    /// `print`, `show` or `get` with a variable name.
    Print { name: String },
    /// `read` with an address, a count and a type name.
    Read { address: u64, count: usize, ty: String },
    /// `print`, `show` or `get` without a variable name.
    MissingName { verb: String },
    /// `read` with fewer than three arguments.
    MissingReadArguments { verb: String },
    /// `read` with an address that is not a hexadecimal number.
    BadAddress { error: NumberError },
    /// `read` with a count that is not a decimal number.
    BadCount { error: NumberError },
    /// Any other first word.
    Unknown { verb: String },
}

/// The meaning of a command line.
pub enum CommandView {
    Empty,
    Exit,
    Help,
    Print { name: Seq<char> },
    Read { address: u64, count: usize, ty: Seq<char> },
    MissingName { verb: Seq<char> },
    MissingReadArguments { verb: Seq<char> },
    BadAddress { error: NumberError },
    BadCount { error: NumberError },
    Unknown { verb: Seq<char> },
}

impl View for Command {
    type V = CommandView;

    open spec fn view(&self) -> CommandView {
        match self {
            Command::Empty => CommandView::Empty,
            Command::Exit => CommandView::Exit,
            Command::Help => CommandView::Help,
            Command::Print { name } => CommandView::Print { name: name@ },
            Command::Read { address, count, ty } => CommandView::Read { address: *address, count: *count, ty: ty@ },
            Command::MissingName { verb } => CommandView::MissingName { verb: verb@ },
            Command::MissingReadArguments { verb } => CommandView::MissingReadArguments { verb: verb@ },
            Command::BadAddress { error } => CommandView::BadAddress { error: *error },
            Command::BadCount { error } => CommandView::BadCount { error: *error },
            Command::Unknown { verb } => CommandView::Unknown { verb: verb@ },
        }
    }
}

/// The meaning of the line `line`: its first word picks the command.
pub open spec fn command_spec(line: Seq<char>) -> CommandView {
    let w = words(line);
    if w.len() == 0 {
        CommandView::Empty
    } else if w[0] == "exit"@ || w[0] == "quit"@ {
        CommandView::Exit
    } else if w[0] == "help"@ {
        CommandView::Help
    } else if w[0] == "print"@ || w[0] == "show"@ || w[0] == "get"@ {
        if w.len() < 2 {
            CommandView::MissingName { verb: w[0] }
        } else {
            CommandView::Print { name: w[1] }
        }
    } else if w[0] == "read"@ {
        if w.len() < 4 {
            CommandView::MissingReadArguments { verb: w[0] }
        } else {
            match parse_unsigned(strip_hex_prefix(w[1]), 16, 0x1_0000_0000_0000_0000) {
                Err(e) => CommandView::BadAddress { error: e },
                Ok(a) => match parse_unsigned(w[2], 10, usize::MAX as nat + 1) {
                    Err(e) => CommandView::BadCount { error: e },
                    Ok(c) => CommandView::Read { address: a as u64, count: c as usize, ty: w[3] },
                },
            }
        }
    } else {
        CommandView::Unknown { verb: w[0] }
    }
}

/// Reads a command line.
pub fn parse_command(line: &str) -> (r: Command)
    ensures
        r@ == command_spec(line@),
{
    let w = split_words(line);
    let ghost ws = words(line@);
    proof {
        assert(w@.len() == ws.len());
        assert forall|i: int| 0 <= i < w@.len() implies #[trigger] w@[i]@ == ws[i] by {
            assert(w@.map_values(|x: String| x@)[i] == w@[i]@);
        }
    }
    if w.len() == 0 {
        return Command::Empty;
    }
    let verb = w[0].as_str();
    if same_text(verb, "exit") || same_text(verb, "quit") {
        Command::Exit
    } else if same_text(verb, "help") {
        Command::Help
    } else if same_text(verb, "print") || same_text(verb, "show") || same_text(verb, "get") {
        if w.len() < 2 {
            Command::MissingName { verb: w[0].clone() }
        } else {
            Command::Print { name: w[1].clone() }
        }
    } else if same_text(verb, "read") {
        if w.len() < 4 {
            return Command::MissingReadArguments { verb: w[0].clone() };
        }
        let address = match parse_u64(trim_hex_prefix(w[1].as_str()), 16) {
            Ok(a) => a,
            Err(e) => {
                return Command::BadAddress { error: e };
            },
        };
        match parse_u64(w[2].as_str(), 10) {
            Ok(c) => {
                if c > usize::MAX as u64 {
                    Command::BadCount { error: NumberError::Overflow }
                } else {
                    Command::Read { address, count: c as usize, ty: w[3].clone() }
                }
            },
            Err(e) => Command::BadCount { error: e },
        }
    } else {
        Command::Unknown { verb: w[0].clone() }
    }
}

/// The text of a number that could not be read.
pub open spec fn number_error_text(e: NumberError) -> Seq<char> {
    match e {
        NumberError::Empty => "cannot parse integer from empty string"@,
        NumberError::InvalidDigit => "invalid digit found in string"@,
        NumberError::Overflow => "number too large to fit in target type"@,
    }
}

pub fn number_error_message(e: NumberError) -> (r: String)
    ensures
        r@ == number_error_text(e),
{
    match e {
        NumberError::Empty => String::from_str("cannot parse integer from empty string"),
        NumberError::InvalidDigit => String::from_str("invalid digit found in string"),
        NumberError::Overflow => String::from_str("number too large to fit in target type"),
    }
}

/// What the shell does with a line: the lines it shows, and whether the
/// child is resumed.
pub struct Reply {
    pub lines: Vec<Line>,
    pub resume: bool,
}

/// The state of the shell at a stop: the variables in scope and the frame
/// base of the stopped child.
pub struct Stop {
    pub variables: NameMap<Variable>,
    pub rbp: u64,
}

pub open spec fn text_lines(ts: Seq<Seq<char>>) -> Seq<(Seq<char>, Option<crate::render::Read>)> {
    ts.map_values(|t: Seq<char>| (t, None::<crate::render::Read>))
}

pub open spec fn help_text() -> Seq<Seq<char>> {
    seq![
        "Commands:"@,
        "  (print|show|get) <variable-name>:  Print the value of a variable."@,
        "  read <address> <count> <type>:     Read the value at <address>. <type>"@,
        "                                     is the type of the value, <count> is the"@,
        "                                     number of values to read."@,
        "  help:                              Print this help message."@,
        "  (exit|quit):                       Quit thorin."@,
    ]
}

/// The lines shown for a command at a stop.
pub open spec fn reply_lines(
    c: CommandView,
    vars: Map<Seq<char>, Variable>,
    rbp: u64,
    types: Map<Seq<char>, crate::program::DerivedType>,
    fuel: nat,
) -> Seq<(Seq<char>, Option<crate::render::Read>)> {
    match c {
        CommandView::Empty => seq![],
        CommandView::Exit => seq![],
        CommandView::Help => text_lines(help_text()),
        CommandView::Print { name } => {
            if vars.contains_key(name) {
                let v = vars[name];
                lines_for(seq![], name, v.ty_name@, offset_address(rbp, v.offset), types, fuel)
            } else {
                text_lines(seq!["unrecognized variable '"@ + name + "'."@])
            }
        },
        CommandView::Read { address, count, ty } => read_lines(address, count, ty, types, fuel),
        CommandView::MissingName { verb } => text_lines(
            seq![
                "command '"@ + verb + "' expects at least one argument"@,
                "Usage: "@ + verb + " <variable-name>"@,
            ],
        ),
        CommandView::MissingReadArguments { verb } => text_lines(
            seq![
                "command '"@ + verb + "' expects at least three arguments"@,
                "Usage: "@ + verb + " <address> <count> <type>"@,
            ],
        ),
        CommandView::BadAddress { error } => text_lines(seq!["error parsing address: "@ + number_error_text(error)]),
        CommandView::BadCount { error } => text_lines(seq!["error parsing count: "@ + number_error_text(error)]),
        CommandView::Unknown { verb } => text_lines(seq!["unknown command '"@ + verb + "'"@]),
    }
}

fn text_line(t: String) -> (r: Line)
    ensures
        line_view(r) == (t@, None::<crate::render::Read>),
{
    Line { text: t, read: None }
}

fn quoted(before: &str, middle: &str, after: &str) -> (r: String)
    ensures
        r@ == before@ + middle@ + after@,
{
    let mut s = String::from_str(before);
    s.append(middle);
    s.append(after);
    s
}

/// Carries out a command at a stop. Only `exit` and `quit` resume the child;
/// every other command, well formed or not, leaves it stopped.
pub fn respond(c: &Command, stop: &Stop, types: &TypeTable) -> (r: Reply)
    requires
        stop.variables.wf(),
        types.wf(),
    ensures
        r.resume == (c@ is Exit),
        lines_view(r.lines@) == reply_lines(c@, stop.variables@, stop.rbp, types@, types.entries@.len() as nat),
{
    let mut lines: Vec<Line> = Vec::new();
    let ghost target = reply_lines(c@, stop.variables@, stop.rbp, types@, types.entries@.len() as nat);
    match c {
        Command::Empty => {},
        Command::Exit => {
            return Reply { lines, resume: true };
        },
        Command::Help => {
            lines.push(text_line(String::from_str("Commands:")));
            lines.push(text_line(String::from_str("  (print|show|get) <variable-name>:  Print the value of a variable.")));
            lines.push(text_line(String::from_str("  read <address> <count> <type>:     Read the value at <address>. <type>")));
            lines.push(text_line(String::from_str("                                     is the type of the value, <count> is the")));
            lines.push(text_line(String::from_str("                                     number of values to read.")));
            lines.push(text_line(String::from_str("  help:                              Print this help message.")));
            lines.push(text_line(String::from_str("  (exit|quit):                       Quit thorin.")));
        },
        Command::Print { name } => {
            match stop.variables.get(name.as_str()) {
                Some(v) => {
                    let addr = stop.rbp.wrapping_add_signed(v.offset);
                    lines = render_variable(name.as_str(), v.ty_name.as_str(), addr, types);
                },
                None => {
                    lines.push(text_line(quoted("unrecognized variable '", name.as_str(), "'.")));
                },
            }
        },
        Command::Read { address, count, ty } => {
            lines = render_read(*address, *count, ty.as_str(), types);
        },
        Command::MissingName { verb } => {
            lines.push(text_line(quoted("command '", verb.as_str(), "' expects at least one argument")));
            lines.push(text_line(quoted("Usage: ", verb.as_str(), " <variable-name>")));
        },
        Command::MissingReadArguments { verb } => {
            lines.push(text_line(quoted("command '", verb.as_str(), "' expects at least three arguments")));
            lines.push(text_line(quoted("Usage: ", verb.as_str(), " <address> <count> <type>")));
        },
        Command::BadAddress { error } => {
            let m = number_error_message(*error);
            lines.push(text_line(quoted("error parsing address: ", m.as_str(), "")));
            proof {
                reveal_strlit("");
            }
        },
        Command::BadCount { error } => {
            let m = number_error_message(*error);
            lines.push(text_line(quoted("error parsing count: ", m.as_str(), "")));
            proof {
                reveal_strlit("");
            }
        },
        Command::Unknown { verb } => {
            lines.push(text_line(quoted("unknown command '", verb.as_str(), "'")));
        },
    }
    proof {
        assert(lines_view(lines@) =~= target);
    }
    Reply { lines, resume: false }
}

/// Reads and carries out one line at a stop.
pub fn handle_line(line: &str, stop: &Stop, types: &TypeTable) -> (r: Reply)
    requires
        stop.variables.wf(),
        types.wf(),
    ensures
        r.resume == (command_spec(line@) is Exit),
        lines_view(r.lines@) == reply_lines(command_spec(line@), stop.variables@, stop.rbp, types@, types.entries@.len() as nat),
{
    let c = parse_command(line);
    respond(&c, stop, types)
}


/// The index of the first line of a session that resumes the child.
pub open spec fn first_resume(lines: Seq<Seq<char>>) -> Option<nat>
    decreases lines.len(),
{
    if lines.len() == 0 {
        None
    } else if command_spec(lines[0]) is Exit {
        Some(0)
    } else {
        match first_resume(lines.drop_first()) {
            Some(i) => Some(i + 1),
            None => None,
        }
    }
}

/// A command the shell rejects.
pub open spec fn is_malformed(c: CommandView) -> bool {
    ||| c is Empty
    ||| c is MissingName
    ||| c is MissingReadArguments
    ||| c is BadAddress
    ||| c is BadCount
    ||| c is Unknown
}

pub proof fn lemma_exit_line()
    ensures
        command_spec("exit"@) is Exit,
{
    reveal_strlit("exit");
    reveal_with_fuel(split_state, 5);
    let s = "exit"@;
    assert(s.drop_last().drop_last().drop_last().drop_last() =~= Seq::<char>::empty());
    assert(split_state(s.take(1)).1 =~= seq!['e']) by {
        assert(s.take(1).drop_last() =~= Seq::<char>::empty());
    }
    assert(s.take(2).drop_last() =~= s.take(1));
    assert(s.take(3).drop_last() =~= s.take(2));
    assert(s.drop_last() =~= s.take(3));
    assert(split_state(s.take(2)).1 =~= seq!['e', 'x']);
    assert(split_state(s.take(3)).1 =~= seq!['e', 'x', 'i']);
    assert(split_state(s).1 =~= s);
    assert(split_state(s).0 =~= Seq::<Seq<char>>::empty());
    assert(words(s) =~= seq![s]);
}

/// A session of lines that do not resume the child, malformed ones among
/// them, followed by `exit`, resumes the child at the `exit` line: no
/// command before it ends the session, and `exit` always does.
pub proof fn lemma_exit_after_any_lines_resumes(before: Seq<Seq<char>>)
    requires
        forall|i: int| 0 <= i < before.len() ==> !(#[trigger] command_spec(before[i]) is Exit),
    ensures
        first_resume(before.push("exit"@)) == Some(before.len()),
    decreases before.len(),
{
    lemma_exit_line();
    let all = before.push("exit"@);
    if before.len() > 0 {
        let rest = before.drop_first();
        assert(all.drop_first() =~= rest.push("exit"@));
        assert forall|i: int| 0 <= i < rest.len() implies !(#[trigger] command_spec(rest[i]) is Exit) by {
            assert(rest[i] == before[i + 1]);
        }
        assert(!(command_spec(before[0]) is Exit));
        lemma_exit_after_any_lines_resumes(rest);
    }
}

/// A malformed command never resumes the child.
pub proof fn lemma_malformed_keeps_stopped(line: Seq<char>)
    requires
        is_malformed(command_spec(line)),
    ensures
        !(command_spec(line) is Exit),
{
}

/// `print v` reads what `read <rbp + offset(v)> 1 <type(v)>` reads, the
/// same bytes in the same order, shown the same way, whatever the type of
/// `v`.
pub proof fn lemma_print_reads_like_read(
    vars: Map<Seq<char>, Variable>,
    rbp: u64,
    types: Map<Seq<char>, crate::program::DerivedType>,
    name: Seq<char>,
    fuel: nat,
)
    requires
        vars.contains_key(name),
    ensures
        ({
            let v = vars[name];
            let read = CommandView::Read { address: offset_address(rbp, v.offset), count: 1, ty: v.ty_name@ };
            reads_of(reply_lines(CommandView::Print { name }, vars, rbp, types, fuel)) == reads_of(
                reply_lines(read, vars, rbp, types, fuel),
            )
        }),
{
    let v = vars[name];
    lemma_print_reads_as_read_one(seq![], name, v.ty_name@, offset_address(rbp, v.offset), types, fuel);
}


/// The state of the shell when the child stops with frame base `rbp` at
/// instruction `rip`, and the names of the active scopes, outermost first.
pub fn stop_at(root: &Scope, rbp: u64, rip: u64) -> (r: (Stop, Vec<String>))
    ensures
        r.0.variables.wf(),
        r.0.variables@ == visible_variables(*root, rip),
        r.0.rbp == rbp,
        names_of(r.1@) == scope_chain(*root, rip),
{
    let mut variables: NameMap<Variable> = NameMap::new();
    let mut scopes: Vec<String> = Vec::new();
    construct_context(root, &mut variables, &mut scopes, rip);
    proof {
        assert(Map::<Seq<char>, Variable>::empty().union_prefer_right(root.variables@) =~= root.variables@);
        assert(names_of(Seq::<String>::empty()) =~= seq![]);
        assert(names_of(scopes@) =~= scope_chain(*root, rip));
    }
    (Stop { variables, rbp }, scopes)
}

/// `n` copies of two spaces.
pub open spec fn indent(n: nat) -> Seq<char>
    decreases n,
{
    if n == 0 {
        seq![]
    } else {
        indent((n - 1) as nat) + seq![' ', ' ']
    }
}

/// The lines that show the active scopes, each one indented below the one
/// that holds it.
pub open spec fn scope_tree_text(names: Seq<Seq<char>>) -> Seq<Seq<char>> {
    Seq::new(names.len(), |i: int| indent(i as nat) + "-> "@ + names[i])
}

pub fn scope_tree_lines(names: &Vec<String>) -> (r: Vec<String>)
    ensures
        r@.map_values(|s: String| s@) == scope_tree_text(names_of(names@)),
{
    let mut out: Vec<String> = Vec::new();
    let mut pad = String::new();
    let mut i: usize = 0;
    while i < names.len()
        invariant
            i <= names@.len(),
            pad@ == indent(i as nat),
            out@.len() == i,
            forall|j: int| 0 <= j < i ==> (#[trigger] out@[j])@ == indent(j as nat) + "-> "@ + names@[j]@,
        decreases names@.len() - i,
    {
        let mut line = pad.clone();
        line.append("-> ");
        line.append(names[i].as_str());
        out.push(line);
        pad.append("  ");
        proof {
            reveal_strlit("  ");
        }
        i = i + 1;
    }
    proof {
        assert(out@.map_values(|s: String| s@) =~= scope_tree_text(names_of(names@)));
    }
    out
}

/// The lines that list the variables in scope with their types.
pub fn variable_lines(variables: &NameMap<Variable>) -> (r: Vec<String>)
    ensures
        r@.len() == variables.entries@.len(),
        forall|j: int|
            0 <= j < r@.len() ==> (#[trigger] r@[j])@ == "  "@ + variables.entries@[j].0@ + ": "@
                + variables.entries@[j].1.ty_name@,
{
    let mut out: Vec<String> = Vec::new();
    let mut i: usize = 0;
    while i < variables.entries.len()
        invariant
            i <= variables.entries@.len(),
            out@.len() == i,
            forall|j: int|
                0 <= j < i ==> (#[trigger] out@[j])@ == "  "@ + variables.entries@[j].0@ + ": "@
                    + variables.entries@[j].1.ty_name@,
        decreases variables.entries@.len() - i,
    {
        let e = &variables.entries[i];
        let mut line = String::from_str("  ");
        line.append(e.0.as_str());
        line.append(": ");
        line.append(e.1.ty_name.as_str());
        out.push(line);
        i = i + 1;
    }
    out
}


/// One character more of splitting: a space closes the open word.
pub open spec fn split_step(st: (Seq<Seq<char>>, Seq<char>), c: char) -> (Seq<Seq<char>>, Seq<char>) {
    if is_space(c) {
        if st.1.len() > 0 {
            (st.0.push(st.1), seq![])
        } else {
            st
        }
    } else {
        (st.0, st.1.push(c))
    }
}

/// Splitting `b` on from the state `st`.
pub open spec fn split_from(st: (Seq<Seq<char>>, Seq<char>), b: Seq<char>) -> (Seq<Seq<char>>, Seq<char>)
    decreases b.len(),
{
    if b.len() == 0 {
        st
    } else {
        split_step(split_from(st, b.drop_last()), b.last())
    }
}

/// A word: characters, none of them a space.
pub open spec fn is_word(w: Seq<char>) -> bool {
    w.len() > 0 && forall|i: int| 0 <= i < w.len() ==> !is_space(#[trigger] w[i])
}

proof fn lemma_split_state_is_split_from(s: Seq<char>)
    ensures
        split_state(s) == split_from((seq![], seq![]), s),
    decreases s.len(),
{
    if s.len() > 0 {
        lemma_split_state_is_split_from(s.drop_last());
    }
}

proof fn lemma_split_from_append(st: (Seq<Seq<char>>, Seq<char>), a: Seq<char>, b: Seq<char>)
    ensures
        split_from(st, a + b) == split_from(split_from(st, a), b),
    decreases b.len(),
{
    if b.len() == 0 {
        assert(a + b =~= a);
    } else {
        assert((a + b).drop_last() =~= a + b.drop_last());
        assert((a + b).last() == b.last());
        lemma_split_from_append(st, a, b.drop_last());
    }
}

proof fn lemma_split_word(d: Seq<Seq<char>>, c: Seq<char>, w: Seq<char>)
    requires
        forall|i: int| 0 <= i < w.len() ==> !is_space(#[trigger] w[i]),
    ensures
        split_from((d, c), w) == (d, c + w),
    decreases w.len(),
{
    if w.len() == 0 {
        assert(c + w =~= c);
    } else {
        lemma_split_word(d, c, w.drop_last());
        assert(!is_space(w[w.len() - 1]));
        assert((c + w.drop_last()).push(w.last()) =~= c + w);
    }
}

/// After a word and a space, the word is closed.
proof fn lemma_split_word_space(d: Seq<Seq<char>>, w: Seq<char>)
    requires
        is_word(w),
    ensures
        split_from((d, seq![]), w + seq![' ']) == (d.push(w), Seq::<char>::empty()),
{
    let sp: Seq<char> = seq![' '];
    lemma_split_from_append((d, seq![]), w, sp);
    lemma_split_word(d, seq![], w);
    assert(Seq::<char>::empty() + w =~= w);
    assert(split_from((d, seq![]), w) == (d, w));
    assert(sp.drop_last() =~= Seq::<char>::empty());
    assert(split_from((d, w), sp.drop_last()) == (d, w));
    assert(sp.last() == ' ');
    assert(split_from((d, w), sp) == split_step((d, w), ' '));
}

/// Four words separated by single spaces split into those words.
pub proof fn lemma_words_of_four(w1: Seq<char>, w2: Seq<char>, w3: Seq<char>, w4: Seq<char>)
    requires
        is_word(w1),
        is_word(w2),
        is_word(w3),
        is_word(w4),
    ensures
        words(w1 + seq![' '] + w2 + seq![' '] + w3 + seq![' '] + w4) == seq![w1, w2, w3, w4],
{
    let e = (Seq::<Seq<char>>::empty(), Seq::<char>::empty());
    let a = w1 + seq![' '];
    let b = w2 + seq![' '];
    let c = w3 + seq![' '];
    let line = w1 + seq![' '] + w2 + seq![' '] + w3 + seq![' '] + w4;
    assert(line =~= a + (b + (c + w4)));
    lemma_split_state_is_split_from(line);
    lemma_split_from_append(e, a, b + (c + w4));
    lemma_split_word_space(seq![], w1);
    let s1 = split_from(e, a);
    lemma_split_from_append(s1, b, c + w4);
    lemma_split_word_space(seq![w1], w2);
    assert(seq![w1].push(w2) =~= seq![w1, w2]);
    let s2 = split_from(s1, b);
    lemma_split_from_append(s2, c, w4);
    lemma_split_word_space(seq![w1, w2], w3);
    assert(seq![w1, w2].push(w3) =~= seq![w1, w2, w3]);
    lemma_split_word(seq![w1, w2, w3], seq![], w4);
    assert(Seq::<char>::empty() + w4 =~= w4);
    assert(seq![w1, w2, w3].push(w4) =~= seq![w1, w2, w3, w4]);
}

/// Two words separated by a single space split into those words.
pub proof fn lemma_words_of_two(w1: Seq<char>, w2: Seq<char>)
    requires
        is_word(w1),
        is_word(w2),
    ensures
        words(w1 + seq![' '] + w2) == seq![w1, w2],
{
    let e = (Seq::<Seq<char>>::empty(), Seq::<char>::empty());
    let line = w1 + seq![' '] + w2;
    lemma_split_state_is_split_from(line);
    lemma_split_from_append(e, w1 + seq![' '], w2);
    lemma_split_word_space(seq![], w1);
    lemma_split_word(seq![w1], seq![], w2);
    assert(Seq::<char>::empty() + w2 =~= w2);
    assert(seq![w1].push(w2) =~= seq![w1, w2]);
}

proof fn lemma_digit_round_trip(d: nat, b: nat)
    requires
        d < b,
        b == 10 || b == 16,
    ensures
        digit_value(crate::primitive::digit_char(d), b) == Some(d),
        !is_space(crate::primitive::digit_char(d)),
        crate::primitive::digit_char(d) != '+',
        crate::primitive::digit_char(d) != 'x',
        crate::primitive::digit_char(d) == '0' <==> d == 0,
{
}

proof fn lemma_digits_round_trip(n: nat, b: nat)
    requires
        b == 10 || b == 16,
    ensures
        is_word(crate::primitive::digits(n, b)),
        all_digits(crate::primitive::digits(n, b), b),
        digits_value(crate::primitive::digits(n, b), b) == n,
        crate::primitive::digits(n, b)[0] != '+',
        (crate::primitive::digits(n, b)[0] == '0') == (n == 0),
        n == 0 ==> crate::primitive::digits(n, b).len() == 1,
    decreases n,
{
    let s = crate::primitive::digits(n, b);
    if n < b {
        lemma_digit_round_trip(n, b);
        assert(s.drop_last() =~= Seq::<char>::empty());
        assert(digits_value(Seq::<char>::empty(), b) == 0);
        assert(digits_value(s, b) == 0 * b + n);
    } else {
        assert(n / b < n) by (nonlinear_arith)
            requires
                b >= 2,
                n >= b,
        ;
        lemma_digits_round_trip(n / b, b);
        let p = crate::primitive::digits(n / b, b);
        lemma_digit_round_trip(n % b, b);
        assert(s == p + seq![crate::primitive::digit_char(n % b)]);
        assert(s.drop_last() =~= p);
        assert(s.last() == crate::primitive::digit_char(n % b));
        assert(s[0] == p[0]);
        assert(n == (n / b) * b + n % b) by (nonlinear_arith)
            requires
                b >= 2,
        ;
        assert(n / b >= 1) by (nonlinear_arith)
            requires
                b >= 2,
                n >= b,
        ;
        assert(digits_value(s, b) == digits_value(p, b) * b + (n % b));
        assert forall|i: int| 0 <= i < s.len() implies !is_space(#[trigger] s[i]) by {
            if i < p.len() {
                assert(s[i] == p[i]);
            }
        }
        assert forall|i: int| 0 <= i < s.len() implies (#[trigger] digit_value(s[i], b)) is Some by {
            if i < p.len() {
                assert(s[i] == p[i]);
            }
        }
    }
}

/// The text `read 0x<address in hexadecimal> 1 <ty>`.
pub open spec fn read_one_text(address: u64, ty: Seq<char>) -> Seq<char> {
    "read"@ + seq![' '] + (seq!['0', 'x'] + crate::primitive::digits(address as nat, 16)) + seq![' '] + "1"@
        + seq![' '] + ty
}

/// `read 0x<a> 1 <ty>`, with `a` written in hexadecimal and `ty` a word,
/// reads one value of type `ty` at `a`.
pub proof fn lemma_read_one_text(address: u64, ty: Seq<char>)
    requires
        is_word(ty),
    ensures
        command_spec(read_one_text(address, ty)) == (CommandView::Read { address, count: 1, ty }),
{
    reveal_strlit("read");
    reveal_strlit("1");
    reveal_strlit("exit");
    reveal_strlit("quit");
    reveal_strlit("help");
    reveal_strlit("print");
    reveal_strlit("show");
    reveal_strlit("get");
    let hex = crate::primitive::digits(address as nat, 16);
    lemma_digits_round_trip(address as nat, 16);
    let w2 = seq!['0', 'x'] + hex;
    assert(is_word(w2)) by {
        assert forall|i: int| 0 <= i < w2.len() implies !is_space(#[trigger] w2[i]) by {
            if i >= 2 {
                assert(w2[i] == hex[i - 2]);
            }
        }
    }
    assert(is_word("read"@));
    assert(is_word("1"@));
    lemma_words_of_four("read"@, w2, "1"@, ty);
    let w = words(read_one_text(address, ty));
    assert(w == seq!["read"@, w2, "1"@, ty]);
    assert(w2.skip(2) =~= hex);
    assert(strip_hex_prefix(hex) == hex);
    assert(strip_hex_prefix(w2) == hex);
    assert(unsigned_body(hex) == hex);
    assert(parse_unsigned(hex, 16, 0x1_0000_0000_0000_0000) == Ok::<nat, NumberError>(address as nat));
    assert("1"@.drop_last() =~= Seq::<char>::empty());
    assert(digit_value('1', 10) == Some(1nat));
    assert(digits_value(Seq::<char>::empty(), 10) == 0);
    assert("1"@.last() == '1');
    assert(all_digits("1"@, 10));
    assert(unsigned_body("1"@) == "1"@);
    assert(digits_value("1"@, 10) == 1);
    assert(parse_unsigned("1"@, 10, usize::MAX as nat + 1) == Ok::<nat, NumberError>(1));
    assert("read"@[0] != "exit"@[0] && "read"@[0] != "quit"@[0] && "read"@[0] != "help"@[0]);
    assert("read"@[0] != "print"@[0] && "read"@[0] != "show"@[0] && "read"@[0] != "get"@[0]);
    assert(w[0] != "exit"@ && w[0] != "quit"@ && w[0] != "help"@);
    assert(w[0] != "print"@ && w[0] != "show"@ && w[0] != "get"@);
    assert(w[0] == "read"@);
    assert(w.len() == 4);
}

/// `print <name>`.
pub open spec fn print_text(name: Seq<char>) -> Seq<char> {
    "print"@ + seq![' '] + name
}

/// `print v` reads what `read 0x<rbp + offset(v)> 1 <type(v)>` reads, the
/// same bytes in the same order, shown the same way, when the name and the
/// type name of `v` are words.
pub proof fn lemma_print_is_read_at_frame_address(
    vars: Map<Seq<char>, Variable>,
    rbp: u64,
    types: Map<Seq<char>, crate::program::DerivedType>,
    name: Seq<char>,
    fuel: nat,
)
    requires
        is_word(name),
        vars.contains_key(name),
        is_word(vars[name].ty_name@),
    ensures
        ({
            let v = vars[name];
            let read_text = read_one_text(offset_address(rbp, v.offset), v.ty_name@);
            reads_of(reply_lines(command_spec(print_text(name)), vars, rbp, types, fuel)) == reads_of(
                reply_lines(command_spec(read_text), vars, rbp, types, fuel),
            )
        }),
{
    let v = vars[name];
    reveal_strlit("print");
    reveal_strlit("exit");
    reveal_strlit("quit");
    reveal_strlit("help");
    assert(is_word("print"@));
    lemma_words_of_two("print"@, name);
    assert("print"@[0] != "exit"@[0] && "print"@[0] != "quit"@[0] && "print"@[0] != "help"@[0]);
    assert(command_spec(print_text(name)) == CommandView::Print { name });
    lemma_read_one_text(offset_address(rbp, v.offset), v.ty_name@);
    lemma_print_reads_like_read(vars, rbp, types, name, fuel);
}

} // verus!
