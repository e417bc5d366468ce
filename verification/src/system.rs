//! What the simulator needs of the system it runs on, and what it says of itself.

use vstd::prelude::*;
use vstd::string::*;

use crate::counter::texts;
use crate::sim_config::error::ConfigError;
use crate::sim_config::options::LogLevel;
use crate::text::{
    chars_of, decimal, numeral_value, push_decimal, push_signed_decimal, same_text, signed_decimal,
};

verus! {

/// Why a text is no number.
#[derive(Clone, Copy, Debug, PartialEq, Eq, Structural)]
pub enum NumberFault {
    Empty,
    InvalidDigit,
    TooLarge,
    TooSmall,
}

impl NumberFault {
    /// The message for users.
    pub open spec fn message(self) -> Seq<char> {
        match self {
            NumberFault::Empty => "cannot parse integer from empty string"@,
            NumberFault::InvalidDigit => "invalid digit found in string"@,
            NumberFault::TooLarge => "number too large to fit in target type"@,
            NumberFault::TooSmall => "number too small to fit in target type"@,
        }
    }

    /// The message as a string.
    pub fn to_string(&self) -> (text: String)
        ensures
            text@ == self.message(),
    {
        match self {
            NumberFault::Empty => "cannot parse integer from empty string".to_owned(),
            NumberFault::InvalidDigit => "invalid digit found in string".to_owned(),
            NumberFault::TooLarge => "number too large to fit in target type".to_owned(),
            NumberFault::TooSmall => "number too small to fit in target type".to_owned(),
        }
    }
}

/// Whether a character is a decimal digit.
pub open spec fn is_digit(c: char) -> bool {
    '0' <= c <= '9'
}

/// The number that the first `n` digits stand for, negated or not, or the fault of the first
/// character that is no digit or with which the number leaves the range of 32 bits.
pub open spec fn number_of_digits(digits: Seq<char>, negative: bool, n: int) -> Result<
    int,
    NumberFault,
>
    decreases n,
{
    if n <= 0 {
        Ok(0)
    } else {
        match number_of_digits(digits, negative, n - 1) {
            Err(fault) => Err(fault),
            Ok(number) => {
                let c = digits[n - 1];
                let digit = c as int - '0' as int;
                let next = if negative {
                    number * 10 - digit
                } else {
                    number * 10 + digit
                };
                if !is_digit(c) {
                    Err(NumberFault::InvalidDigit)
                } else if next > i32::MAX {
                    Err(NumberFault::TooLarge)
                } else if next < i32::MIN {
                    Err(NumberFault::TooSmall)
                } else {
                    Ok(next)
                }
            },
        }
    }
}

/// The number that a text stands for: digits, behind a sign or not.
pub open spec fn number_of(text: Seq<char>) -> Result<int, NumberFault> {
    if text.len() == 0 {
        Err(NumberFault::Empty)
    } else if text[0] == '+' || text[0] == '-' {
        if text.len() == 1 {
            Err(NumberFault::InvalidDigit)
        } else {
            number_of_digits(text.skip(1), text[0] == '-', text.len() - 1)
        }
    } else {
        number_of_digits(text, false, text.len() as int)
    }
}

fn parse_digits(chars: &[char], from: usize, negative: bool) -> (number: Result<i32, NumberFault>)
    requires
        from <= chars@.len(),
    ensures
        match (number, number_of_digits(chars@.skip(from as int), negative, chars@.len() - from)) {
            (Ok(v), Ok(expected)) => v == expected,
            (Err(fault), Err(expected)) => fault == expected,
            _ => false,
        },
{
    let ghost digits = chars@.skip(from as int);
    let mut number: i64 = 0;
    let mut i: usize = from;
    while i < chars.len()
        invariant
            from <= i <= chars@.len(),
            digits == chars@.skip(from as int),
            i32::MIN <= number <= i32::MAX,
            number_of_digits(digits, negative, i - from) == Ok::<int, NumberFault>(number as int),
        decreases chars@.len() - i,
    {
        let c: char = chars[i];
        let ghost n = i - from + 1;
        assert(digits[n - 1] == c);
        if c < '0' || c > '9' {
            proof {
                lemma_fault_stays(digits, negative, n, digits.len() as int);
            }
            return Err(NumberFault::InvalidDigit);
        }
        let digit: i64 = (c as u32 - '0' as u32) as i64;
        number = if negative {
            number * 10 - digit
        } else {
            number * 10 + digit
        };
        if number > i32::MAX as i64 {
            proof {
                lemma_fault_stays(digits, negative, n, digits.len() as int);
            }
            return Err(NumberFault::TooLarge);
        }
        if number < i32::MIN as i64 {
            proof {
                lemma_fault_stays(digits, negative, n, digits.len() as int);
            }
            return Err(NumberFault::TooSmall);
        }
        i += 1;
    }
    Ok(number as i32)
}

/// The first fault in a text is the one that counts.
proof fn lemma_fault_stays(digits: Seq<char>, negative: bool, m: int, n: int)
    requires
        0 <= m <= n,
        number_of_digits(digits, negative, m) is Err,
    ensures
        number_of_digits(digits, negative, n) == number_of_digits(digits, negative, m),
    decreases n,
{
    if m < n {
        lemma_fault_stays(digits, negative, m, n - 1);
    }
}

/// The number that a text stands for.
pub fn parse_number(text: &str) -> (number: Result<i32, NumberFault>)
    ensures
        match (number, number_of(text@)) {
            (Ok(v), Ok(expected)) => v == expected,
            (Err(fault), Err(expected)) => fault == expected,
            _ => false,
        },
{
    let chars = chars_of(text);
    if chars.len() == 0 {
        return Err(NumberFault::Empty);
    }
    if chars[0] == '+' || chars[0] == '-' {
        if chars.len() == 1 {
            return Err(NumberFault::InvalidDigit);
        }
        return parse_digits(chars.as_slice(), 1, chars[0] == '-');
    }
    assert(chars@.skip(0) =~= chars@);
    parse_digits(chars.as_slice(), 0, false)
}

/// The place of the first dot in a text, or its end.
pub open spec fn first_dot(text: Seq<char>) -> int
    decreases text.len(),
{
    if text.len() == 0 || text[0] == '.' {
        0
    } else {
        1 + first_dot(text.skip(1))
    }
}

fn find_dot(chars: &[char], from: usize) -> (place: usize)
    requires
        from <= chars@.len(),
    ensures
        place == from + first_dot(chars@.skip(from as int)),
        from <= place <= chars@.len(),
{
    let mut i: usize = from;
    while i < chars.len()
        invariant
            from <= i <= chars@.len(),
            from + first_dot(chars@.skip(from as int)) == i + first_dot(chars@.skip(i as int)),
        decreases chars@.len() - i,
    {
        assert(chars@.skip(i as int)[0] == chars@[i as int]);
        if chars[i] == '.' {
            return i;
        }
        assert(chars@.skip(i as int).skip(1) =~= chars@.skip(i + 1));
        i += 1;
    }
    i
}

/// The first part of a release: what stands before the first dot.
pub open spec fn major_text(release: Seq<char>) -> Seq<char> {
    release.take(first_dot(release))
}

/// The second part of a release: what stands between its first two dots, if there is one.
pub open spec fn minor_text(release: Seq<char>) -> Option<Seq<char>> {
    let dot = first_dot(release);
    if dot == release.len() {
        None
    } else {
        let rest = release.skip(dot + 1);
        Some(rest.take(first_dot(rest)))
    }
}

/// The oldest kernel that is supported is 5.4.
pub open spec fn is_too_old(major: int, minor: int) -> bool {
    major < 5 || major == 5 && minor < 4
}

/// What is said to a part of a release that is no number.
pub open spec fn part_fault_text(part: Seq<char>, text: Seq<char>) -> Seq<char> {
    "Parsing "@ + part + " version number '"@ + text + "'"@
}

/// What is said to the release of a kernel, if it is not supported.
pub open spec fn release_fault(release: Seq<char>) -> Option<Seq<Seq<char>>> {
    match number_of(major_text(release)) {
        Err(fault) => Some(
            seq![part_fault_text("major"@, major_text(release)), fault.message()],
        ),
        Ok(major) => match minor_text(release) {
            None => Some(seq!["Couldn't find minor version in : "@ + release]),
            Some(text) => match number_of(text) {
                Err(fault) => Some(seq![part_fault_text("minor"@, text), fault.message()]),
                Ok(minor) => if is_too_old(major, minor) {
                    Some(
                        seq![
                            "kernel version "@ + signed_decimal(major) + "."@ + signed_decimal(
                                minor,
                            ) + " is older than minimum supported version 5.4"@,
                        ],
                    )
                } else {
                    None
                },
            },
        },
    }
}

/// What is said to a system, if it is not supported.
pub open spec fn system_fault(sysname: Option<Seq<char>>, release: Option<Seq<char>>) -> Option<
    Seq<Seq<char>>,
> {
    match sysname {
        None => Some(seq!["Decoding system name"@]),
        Some(name) => if name != "Linux"@ {
            Some(seq!["Unsupported sysname: "@ + name])
        } else {
            match release {
                None => Some(seq!["Decoding system release"@]),
                Some(text) => release_fault(text),
            }
        },
    }
}

/// The text of an option that holds one.
pub open spec fn option_text(text: Option<&str>) -> Option<Seq<char>> {
    match text {
        Some(t) => Some(t@),
        None => None,
    }
}

fn part_fault(part: &str, text: &str, fault: NumberFault) -> (error: ConfigError)
    ensures
        error@ == seq![part_fault_text(part@, text@), fault.message()],
{
    let mut message = String::new();
    message.append("Parsing ");
    message.append(part);
    message.append(" version number '");
    message.append(text);
    message.append("'");
    assert(message@ =~= part_fault_text(part@, text@));
    let error = ConfigError::new(fault.to_string()).context(message);
    assert(error@ =~= seq![part_fault_text(part@, text@), fault.message()]);
    error
}

fn check_release(release: &str) -> (checked: Result<(), ConfigError>)
    ensures
        match (checked, release_fault(release@)) {
            (Ok(()), None) => true,
            (Err(e), Some(messages)) => e@ == messages,
            _ => false,
        },
{
    let chars = chars_of(release);
    assert(chars@.skip(0) =~= release@);
    let dot: usize = find_dot(chars.as_slice(), 0);
    let major_part = release.substring_char(0, dot);
    assert(major_part@ =~= major_text(release@));
    let major: i32 = match parse_number(major_part) {
        Ok(major) => major,
        Err(fault) => {
            return Err(part_fault("major", major_part, fault));
        },
    };
    if dot == chars.len() {
        let mut text = String::new();
        text.append("Couldn't find minor version in : ");
        text.append(release);
        assert(text@ =~= "Couldn't find minor version in : "@ + release@);
        return Err(ConfigError::new(text));
    }
    let end: usize = find_dot(chars.as_slice(), dot + 1);
    let minor_part = release.substring_char(dot + 1, end);
    assert(Some(minor_part@) == minor_text(release@)) by {
        let rest = release@.skip(dot + 1);
        assert(minor_part@ =~= rest.take(first_dot(rest)));
    }
    let minor: i32 = match parse_number(minor_part) {
        Ok(minor) => minor,
        Err(fault) => {
            return Err(part_fault("minor", minor_part, fault));
        },
    };
    if major < 5 || major == 5 && minor < 4 {
        let mut text = String::new();
        text.append("kernel version ");
        push_signed_decimal(&mut text, major as i64);
        text.append(".");
        push_signed_decimal(&mut text, minor as i64);
        text.append(" is older than minimum supported version 5.4");
        assert(text@ =~= "kernel version "@ + signed_decimal(major as int) + "."@ + signed_decimal(
            minor as int,
        ) + " is older than minimum supported version 5.4"@);
        return Err(ConfigError::new(text));
    }
    Ok(())
}

/// Checks that the simulator supports a system, given its name and the release of its kernel as far
/// as they are texts.
pub fn verify_supported_system(sysname: Option<&str>, release: Option<&str>) -> (checked: Result<
    (),
    ConfigError,
>)
    ensures
        match (checked, system_fault(option_text(sysname), option_text(release))) {
            (Ok(()), None) => true,
            (Err(e), Some(messages)) => e@ == messages,
            _ => false,
        },
{
    let name = match sysname {
        Some(name) => name,
        None => {
            return Err(ConfigError::new("Decoding system name".to_owned()));
        },
    };
    if !same_text(name, "Linux") {
        let mut text = String::new();
        text.append("Unsupported sysname: ");
        text.append(name);
        assert(text@ =~= "Unsupported sysname: "@ + name@);
        return Err(ConfigError::new(text));
    }
    match release {
        Some(release) => check_release(release),
        None => Err(ConfigError::new("Decoding system release".to_owned())),
    }
}

/// A version of GLib.
#[derive(Clone, Copy, Debug, PartialEq, Eq, Structural)]
pub struct GlibVersion {
    pub major: u32,
    pub minor: u32,
    pub micro: u32,
}

impl GlibVersion {
    /// The version for users: `2.40.1`.
    pub open spec fn shown(self) -> Seq<char> {
        decimal(self.major as nat) + "."@ + decimal(self.minor as nat) + "."@ + decimal(
            self.micro as nat,
        )
    }

    /// Appends what `shown` says.
    pub fn push_shown(self, out: &mut String)
        ensures
            final(out)@ == old(out)@ + self.shown(),
    {
        push_decimal(out, self.major as u64);
        out.append(".");
        push_decimal(out, self.minor as u64);
        out.append(".");
        push_decimal(out, self.micro as u64);
        assert(out@ =~= old(out)@ + self.shown());
    }
}

/// What is said to a version of GLib at compile time and its fit with the one at run time, if they
/// are not supported. `mismatch` is what GLib says to two versions that do not fit.
pub open spec fn glib_fault(
    compiled: GlibVersion,
    running: GlibVersion,
    mismatch: Option<Seq<char>>,
) -> Option<Seq<char>> {
    if compiled.major == 2 && compiled.minor == 40 {
        Some(
            "You compiled against GLib version "@ + compiled.shown()
                + ", which has bugs known to break \"\n            Shadow. Please update to a newer version of GLib."@,
        )
    } else {
        match mismatch {
            None => None,
            Some(text) => Some(
                "The version of the run-time GLib library ("@ + running.shown()
                    + ") is not compatible with the version against which Shadow was compiled ("@
                    + compiled.shown() + "). GLib message: '"@ + text + "'."@,
            ),
        }
    }
}

/// Checks that the simulator supports the GLib it was compiled against and the one it runs with.
pub fn verify_glib_version(
    compiled: GlibVersion,
    running: GlibVersion,
    mismatch: Option<&str>,
) -> (checked: Result<(), ConfigError>)
    ensures
        match (checked, glib_fault(compiled, running, option_text(mismatch))) {
            (Ok(()), None) => true,
            (Err(e), Some(text)) => e@ == seq![text],
            _ => false,
        },
{
    let mut text = String::new();
    if compiled.major == 2 && compiled.minor == 40 {
        text.append("You compiled against GLib version ");
        compiled.push_shown(&mut text);
        text.append(
            ", which has bugs known to break \"\n            Shadow. Please update to a newer version of GLib.",
        );
        assert(text@ =~= glib_fault(compiled, running, option_text(mismatch))->0);
        return Err(ConfigError::new(text));
    }
    if let Some(message) = mismatch {
        text.append("The version of the run-time GLib library (");
        running.push_shown(&mut text);
        text.append(") is not compatible with the version against which Shadow was compiled (");
        compiled.push_shown(&mut text);
        text.append("). GLib message: '");
        text.append(message);
        text.append("'.");
        assert(text@ =~= glib_fault(compiled, running, option_text(mismatch))->0);
        return Err(ConfigError::new(text));
    }
    Ok(())
}

/// The version of the simulator, with the commit it was built from and its date where both are
/// known.
pub open spec fn version_text(
    package: Seq<char>,
    commit: Option<Seq<char>>,
    date: Option<Seq<char>>,
) -> Seq<char> {
    match (commit, date) {
        (Some(c), Some(d)) => package + " — "@ + c + " "@ + d,
        _ => package,
    }
}

/// The version of the simulator, with the commit it was built from and its date where both are
/// known.
pub fn version(package: &str, commit: Option<&str>, date: Option<&str>) -> (text: String)
    ensures
        text@ == version_text(package@, option_text(commit), option_text(date)),
{
    let mut text = package.to_owned();
    if let Some(c) = commit {
        if let Some(d) = date {
            text.append(" — ");
            text.append(c);
            text.append(" ");
            text.append(d);
            assert(text@ =~= package@ + " — "@ + c@ + " "@ + d@);
        }
    }
    text
}

/// How the simulator was built.
#[derive(Debug)]
pub struct BuildInfo {
    pub version: String,
    pub glib: GlibVersion,
    pub timestamp: String,
    pub branch: Option<String>,
    pub details: String,
}

/// The name of the branch, where it is known.
pub open spec fn branch_text(branch: Option<String>) -> Seq<char> {
    match branch {
        Some(name) => name@,
        None => "<unknown>"@,
    }
}

impl BuildInfo {
    /// What users are told of the build, line by line.
    pub open spec fn lines(&self) -> Seq<Seq<char>> {
        seq![
            "Shadow "@ + self.version@,
            "GLib "@ + self.glib.shown(),
            "Built on "@ + self.timestamp@,
            "Built from git branch "@ + branch_text(self.branch),
            self.details@,
            "For more information, visit https://shadow.github.io or https://github.com/shadow"@,
        ]
    }
}

fn joined(front: &str, back: &str) -> (text: String)
    ensures
        text@ == front@ + back@,
{
    let mut text = front.to_owned();
    text.append(back);
    text
}

/// What users are told of the build, line by line.
pub fn build_info_lines(info: &BuildInfo) -> (lines: Vec<String>)
    ensures
        texts(lines@) == info.lines(),
{
    let mut glib = "GLib ".to_owned();
    info.glib.push_shown(&mut glib);
    let branch = match &info.branch {
        Some(name) => name.as_str(),
        None => "<unknown>",
    };
    let mut lines: Vec<String> = Vec::new();
    lines.push(joined("Shadow ", info.version.as_str()));
    lines.push(glib);
    lines.push(joined("Built on ", info.timestamp.as_str()));
    lines.push(joined("Built from git branch ", branch));
    lines.push(info.details.as_str().to_owned());
    lines.push(
        "For more information, visit https://shadow.github.io or https://github.com/shadow".to_owned(),
    );
    assert(texts(lines@) =~= info.lines());
    lines
}

/// Whether an environment variable is known to change how simulated processes behave.
pub open spec fn is_notable_variable(name: Seq<char>) -> bool {
    name == "LD_PRELOAD"@ || name == "LD_STATIC_TLS_EXTRA"@ || name == "G_DEBUG"@ || name
        == "G_SLICE"@
}

/// The level at which an environment variable is logged.
pub fn variable_log_level(name: &str) -> (level: LogLevel)
    ensures
        level == (if is_notable_variable(name@) {
            LogLevel::Info
        } else {
            LogLevel::Trace
        }),
{
    if same_text(name, "LD_PRELOAD") || same_text(name, "LD_STATIC_TLS_EXTRA") || same_text(
        name,
        "G_DEBUG",
    ) || same_text(name, "G_SLICE") {
        LogLevel::Info
    } else {
        LogLevel::Trace
    }
}

/// The bit of the speculation state that is set where the mitigation is on.
pub const SPECULATION_DISABLED: u32 = 4;

/// Whether a state of the kernel's speculation control has the mitigation on.
pub fn mitigation_is_on(state: i32) -> (on: bool)
    ensures
        on == ((state as u32) & SPECULATION_DISABLED != 0),
        on == ((state as u32) & 4 != 0),
{
    (state as u32) & SPECULATION_DISABLED != 0
}

/// Digits stand for what they denote where that fits 32 bits, and behind a minus sign for its
/// opposite. A plus sign changes nothing.
pub proof fn law_numbers_are_what_their_digits_denote(digits: Seq<char>)
    requires
        digits.len() > 0,
        forall|i: int| 0 <= i < digits.len() ==> '0' <= #[trigger] digits[i] <= '9',
    ensures
        numeral_value(digits) <= 0x7fff_ffff ==> number_of(digits) == Ok::<int, NumberFault>(
            numeral_value(digits),
        ),
        numeral_value(digits) > 0x7fff_ffff ==> number_of(digits) is Err,
        number_of(seq!['+'] + digits) == number_of(digits),
        numeral_value(digits) <= 0x8000_0000 ==> number_of(seq!['-'] + digits) == Ok::<
            int,
            NumberFault,
        >(-numeral_value(digits)),
        numeral_value(digits) > 0x8000_0000 ==> number_of(seq!['-'] + digits) is Err,
{
    let n = digits.len() as int;
    lemma_digits_denote(digits, false, n);
    lemma_digits_denote(digits, true, n);
    assert(digits.take(n) =~= digits);
    assert((seq!['+'] + digits).skip(1) =~= digits);
    assert((seq!['-'] + digits).skip(1) =~= digits);
    assert((seq!['+'] + digits)[0] == '+');
    assert((seq!['-'] + digits)[0] == '-');
    assert(digits[0] != '+' && digits[0] != '-');
}

/// Nothing but digits, with at most one sign in front of them, stands for a number.
pub proof fn law_numbers_are_made_of_digits(text: Seq<char>)
    requires
        number_of(text) is Ok,
    ensures
        text.len() > 0,
        '0' <= text[0] <= '9' || (text.len() > 1 && (text[0] == '+' || text[0] == '-')),
        forall|i: int| 1 <= i < text.len() ==> '0' <= #[trigger] text[i] <= '9',
{
    if text[0] == '+' || text[0] == '-' {
        let behind = text.skip(1);
        lemma_digits_denote(behind, text[0] == '-', text.len() - 1);
        assert forall|i: int| 1 <= i < text.len() implies '0' <= #[trigger] text[i] <= '9' by {
            assert(behind[i - 1] == text[i]);
        }
    } else {
        lemma_digits_denote(text, false, text.len() as int);
    }
}

proof fn lemma_digits_denote(digits: Seq<char>, negative: bool, n: int)
    requires
        0 <= n <= digits.len(),
    ensures
        number_of_digits(digits, negative, n) is Ok <==> (forall|i: int|
            0 <= i < n ==> '0' <= #[trigger] digits[i] <= '9') && numeral_value(digits.take(n)) <= (
        if negative {
            0x8000_0000int
        } else {
            0x7fff_ffffint
        }),
        number_of_digits(digits, negative, n) matches Ok(number) ==> number == (if negative {
            -numeral_value(digits.take(n))
        } else {
            numeral_value(digits.take(n))
        }),
        (forall|i: int| 0 <= i < n ==> '0' <= #[trigger] digits[i] <= '9') ==> numeral_value(
            digits.take(n),
        ) >= 0,
    decreases n,
{
    if n > 0 {
        lemma_digits_denote(digits, negative, n - 1);
        assert(digits.take(n).drop_last() =~= digits.take(n - 1));
        assert(digits.take(n).last() == digits[n - 1]);
        assert(numeral_value(digits.take(n)) == numeral_value(digits.take(n - 1)) * 10 + (digits[n
            - 1] as int - 48));
    } else {
        assert(digits.take(0) =~= Seq::<char>::empty());
    }
}

/// The fault of a text that is no number says what is wrong first: there is nothing, a character is
/// no digit, or the number is too large or too small.
pub proof fn law_faults_of_numbers(text: Seq<char>)
    ensures
        text.len() == 0 <==> number_of(text) == Err::<int, NumberFault>(NumberFault::Empty),
        text == seq!['+'] || text == seq!['-'] ==> number_of(text) == Err::<int, NumberFault>(
            NumberFault::InvalidDigit,
        ),
        number_of(text) == Err::<int, NumberFault>(NumberFault::TooSmall) ==> text[0] == '-',
        number_of(text) == Err::<int, NumberFault>(NumberFault::TooLarge) ==> text[0] != '-',
        number_of(text) == Err::<int, NumberFault>(NumberFault::InvalidDigit) ==> text.len() == 1
            || exists|i: int|
            0 <= i < text.len() && !('0' <= #[trigger] text[i] <= '9'),
{
    if text.len() > 0 {
        lemma_faults_of_digits(text, false, text.len() as int);
        lemma_faults_of_digits(text.skip(1), text[0] == '-', text.len() - 1);
        let behind = text.skip(1);
        if exists|i: int| 0 <= i < behind.len() && !('0' <= #[trigger] behind[i] <= '9') {
            let i = choose|i: int|
                0 <= i < behind.len() && !('0' <= #[trigger] behind[i] <= '9');
            assert(text[i + 1] == behind[i]);
        }
    }
}

proof fn lemma_faults_of_digits(digits: Seq<char>, negative: bool, n: int)
    requires
        0 <= n <= digits.len(),
    ensures
        number_of_digits(digits, negative, n) matches Ok(number) ==> (if negative {
            number <= 0
        } else {
            number >= 0
        }),
        number_of_digits(digits, negative, n) matches Err(fault) ==> {
            &&& fault != NumberFault::Empty
            &&& fault == NumberFault::TooLarge ==> !negative
            &&& fault == NumberFault::TooSmall ==> negative
            &&& fault == NumberFault::InvalidDigit ==> exists|i: int|
                0 <= i < digits.len() && !('0' <= #[trigger] digits[i] <= '9')
        },
    decreases n,
{
    if n > 0 {
        lemma_faults_of_digits(digits, negative, n - 1);
        if !is_digit(digits[n - 1]) {
            assert(!('0' <= digits[n - 1] <= '9'));
        }
    }
}

/// The first dot of a text is a dot with none in front of it, or the end where there is none.
pub proof fn law_first_dot_is_the_first(text: Seq<char>)
    ensures
        0 <= first_dot(text) <= text.len(),
        first_dot(text) < text.len() ==> text[first_dot(text)] == '.',
        forall|i: int| 0 <= i < first_dot(text) ==> #[trigger] text[i] != '.',
    decreases text.len(),
{
    if text.len() > 0 && text[0] != '.' {
        let rest = text.skip(1);
        law_first_dot_is_the_first(rest);
        assert forall|i: int| 0 <= i < first_dot(text) implies #[trigger] text[i] != '.' by {
            if i > 0 {
                assert(rest[i - 1] == text[i]);
            }
        }
        if first_dot(text) < text.len() {
            assert(rest[first_dot(rest)] == text[first_dot(text)]);
        }
    }
}

/// The major number of a release stands in front of its first dot, and the minor number between
/// the first dot and the next, or the end. Without a dot there is no minor number.
pub proof fn law_release_parts(release: Seq<char>)
    ensures
        !major_text(release).contains('.'),
        minor_text(release) is None <==> !release.contains('.'),
        minor_text(release) is None ==> major_text(release) == release,
        minor_text(release) matches Some(minor) ==> {
            let front = major_text(release) + seq!['.'] + minor;
            &&& !minor.contains('.')
            &&& front.len() <= release.len()
            &&& release.take(front.len() as int) == front
            &&& front.len() < release.len() ==> release[front.len() as int] == '.'
        },
{
    let dot = first_dot(release);
    law_first_dot_is_the_first(release);
    assert(forall|i: int| 0 <= i < dot ==> #[trigger] major_text(release)[i] == release[i]);
    if dot == release.len() {
        assert(major_text(release) =~= release);
    } else {
        assert(release[dot] == '.');
        let rest = release.skip(dot + 1);
        law_first_dot_is_the_first(rest);
        let minor = rest.take(first_dot(rest));
        assert(forall|i: int| 0 <= i < minor.len() ==> #[trigger] minor[i] == rest[i]);
        let front = major_text(release) + seq!['.'] + minor;
        assert(release.take(front.len() as int) =~= front);
        if front.len() < release.len() {
            assert(rest[first_dot(rest)] == release[front.len() as int]);
        }
    }
}

/// A system is supported exactly where it is Linux and its release has readable major and minor
/// numbers that are at least 5.4.
pub proof fn law_supported_systems(sysname: Option<Seq<char>>, release: Option<Seq<char>>)
    ensures
        system_fault(sysname, release) is None <==> {
            &&& sysname == Some("Linux"@)
            &&& release is Some
            &&& minor_text(release->0) is Some
            &&& number_of(major_text(release->0)) is Ok
            &&& number_of(minor_text(release->0)->0) is Ok
            &&& {
                let major = number_of(major_text(release->0))->Ok_0;
                let minor = number_of(minor_text(release->0)->0)->Ok_0;
                major >= 6 || (major == 5 && minor >= 4)
            }
        },
{
}

/// GLib is refused exactly where it is version 2.40 or the library that runs does not match the one
/// that was compiled against.
pub proof fn law_accepted_glib_versions(
    compiled: GlibVersion,
    running: GlibVersion,
    mismatch: Option<Seq<char>>,
)
    ensures
        glib_fault(compiled, running, mismatch) is None <==> !(compiled.major == 2
            && compiled.minor == 40) && mismatch is None,
{
}

/// A version names commit and date exactly where both are known.
pub proof fn law_version_names_what_is_known(
    package: Seq<char>,
    commit: Option<Seq<char>>,
    date: Option<Seq<char>>,
)
    ensures
        commit is None || date is None ==> version_text(package, commit, date) == package,
        commit is Some && date is Some ==> version_text(package, commit, date) == package + " — "@
            + commit->0 + " "@ + date->0,
{
}

/// Four variables are notable, and no others.
pub proof fn law_notable_variables(name: Seq<char>)
    ensures
        is_notable_variable(name) <==> (name == "LD_PRELOAD"@ || name == "LD_STATIC_TLS_EXTRA"@
            || name == "G_DEBUG"@ || name == "G_SLICE"@),
{
}

/// What is said to a system that is not supported: its name first, then its release, of which the
/// major number comes first, then the minor number, then both.
pub proof fn law_what_is_said_of_systems(name: Seq<char>, release: Option<Seq<char>>)
    ensures
        system_fault(None, release) == Some(seq!["Decoding system name"@]),
        name != "Linux"@ ==> system_fault(Some(name), release) == Some(
            seq!["Unsupported sysname: "@ + name],
        ),
        system_fault(Some("Linux"@), None) == Some(seq!["Decoding system release"@]),
        release matches Some(text) ==> number_of(major_text(text)) matches Err(fault)
            ==> system_fault(Some("Linux"@), release) == Some(
            seq!["Parsing major version number '"@ + major_text(text) + "'"@, fault.message()],
        ),
        release matches Some(text) ==> number_of(major_text(text)) is Ok ==> minor_text(text) is None
            ==> system_fault(Some("Linux"@), release) == Some(
            seq!["Couldn't find minor version in : "@ + text],
        ),
        release matches Some(text) ==> number_of(major_text(text)) matches Ok(_) ==> minor_text(
            text,
        ) matches Some(minor) ==> number_of(minor) matches Err(fault) ==> system_fault(
            Some("Linux"@),
            release,
        ) == Some(seq!["Parsing minor version number '"@ + minor + "'"@, fault.message()]),
{
    reveal_strlit("Parsing ");
    reveal_strlit(" version number '");
    reveal_strlit("major");
    reveal_strlit("minor");
    reveal_strlit("Parsing major version number '");
    reveal_strlit("Parsing minor version number '");
    assert("Parsing "@ + "major"@ + " version number '"@ =~= "Parsing major version number '"@);
    assert("Parsing "@ + "minor"@ + " version number '"@ =~= "Parsing minor version number '"@);
}

/// What is said to a text that is no number.
pub proof fn law_what_is_said_of_numbers()
    ensures
        NumberFault::Empty.message() == "cannot parse integer from empty string"@,
        NumberFault::InvalidDigit.message() == "invalid digit found in string"@,
        NumberFault::TooLarge.message() == "number too large to fit in target type"@,
        NumberFault::TooSmall.message() == "number too small to fit in target type"@,
{
}

/// What is shown of a build: version, library, time, branch, details and where to read on.
pub proof fn law_lines_of_a_build(info: BuildInfo)
    ensures
        info.lines().len() == 6,
        info.lines()[0] == "Shadow "@ + info.version@,
        info.lines()[1] == "GLib "@ + decimal(info.glib.major as nat) + "."@ + decimal(
            info.glib.minor as nat,
        ) + "."@ + decimal(info.glib.micro as nat),
        info.lines()[2] == "Built on "@ + info.timestamp@,
        info.branch matches Some(name) ==> info.lines()[3] == "Built from git branch "@ + name@,
        info.branch is None ==> info.lines()[3] == "Built from git branch "@ + "<unknown>"@,
        info.lines()[4] == info.details@,
        info.lines()[5]
            == "For more information, visit https://shadow.github.io or https://github.com/shadow"@,
{
    assert(info.lines()[1] =~= "GLib "@ + decimal(info.glib.major as nat) + "."@ + decimal(
        info.glib.minor as nat,
    ) + "."@ + decimal(info.glib.micro as nat));
}

} // verus!
