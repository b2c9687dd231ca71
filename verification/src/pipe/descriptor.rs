//! Which protocol the worker asks for, and over which inherited descriptors.

use vstd::prelude::*;
use vstd::utf8::*;
use vstd::string::*;

use crate::fault::Fault;

verus! {

/// The value that asks for the frame protocol over standard input.
pub const PROTOCOL: &'static str = "gha-indie-worker.log-sidecar.v1";

/// The value that asks for the paired metadata and data descriptors.
pub const BUILD_LOG_PROTOCOL: &'static str = "gha-indie-worker.build-log-metadata/v1";

/// The descriptor that metadata comes over, unless the worker names another.
pub const DEFAULT_METADATA_FD: i32 = 3;

/// The descriptor that data comes over, unless the worker names another.
pub const DEFAULT_DATA_FD: i32 = 4;

/// The lowest descriptor that is not a standard stream.
pub const MIN_INHERITED_FD: u32 = 3;

/// The highest descriptor that the receiver opens.
pub const MAX_INHERITED_FD: u32 = 1024;

/// A way for the worker to send logs.
#[derive(Debug, Clone, Copy, PartialEq, Eq, Structural)]
pub enum Protocol {
    /// Metadata lines on one descriptor, raw bytes on another.
    BuildLog,
    /// Frames on standard input, with metadata lines on the side.
    Legacy,
}

/// The value of a variable that may be unset.
pub open spec fn text_of(value: Option<&str>) -> Option<Seq<char>> {
    match value {
        Some(text) => Some(text@),
        None => None,
    }
}

/// Whether two texts are the same.
fn same_text(left: &str, right: &str) -> (same: bool)
    ensures
        same == (left@ == right@),
{
    let left_bytes = left.as_bytes();
    let right_bytes = right.as_bytes();
    proof {
        encode_utf8_decode_utf8(left@);
        encode_utf8_decode_utf8(right@);
    }
    if left_bytes.len() != right_bytes.len() {
        return false;
    }
    let mut i: usize = 0;
    while i < left_bytes.len()
        invariant
            i <= left_bytes@.len(),
            left_bytes@.len() == right_bytes@.len(),
            left_bytes@ == left.spec_bytes(),
            right_bytes@ == right.spec_bytes(),
            forall|k: int| 0 <= k < i ==> left_bytes@[k] == right_bytes@[k],
        decreases left_bytes@.len() - i,
    {
        if left_bytes[i] != right_bytes[i] {
            return false;
        }
        i = i + 1;
    }
    assert(left_bytes@ =~= right_bytes@);
    true
}

/// The protocol that the environment asks for, given the values of the build-log variable
/// and of the legacy variable. Where both ask, the build-log protocol is meant.
pub fn requested_protocol(build_log: Option<&str>, legacy: Option<&str>) -> (protocol: Option<
    Protocol,
>)
    ensures
        protocol == (if text_of(build_log) == Some(BUILD_LOG_PROTOCOL@) {
            Some(Protocol::BuildLog)
        } else if text_of(legacy) == Some(PROTOCOL@) {
            Some(Protocol::Legacy)
        } else {
            None
        }),
{
    if let Some(text) = build_log {
        if same_text(text, BUILD_LOG_PROTOCOL) {
            return Some(Protocol::BuildLog);
        }
    }
    if let Some(text) = legacy {
        if same_text(text, PROTOCOL) {
            return Some(Protocol::Legacy);
        }
    }
    None
}

/// A decimal digit.
pub open spec fn is_digit(c: char) -> bool {
    '0' <= c <= '9'
}

/// The number that a run of decimal digits stands for.
pub open spec fn decimal_value(digits: Seq<char>) -> nat
    decreases digits.len(),
{
    if digits.len() == 0 {
        0
    } else {
        10 * decimal_value(digits.drop_last()) + (digits.last() as nat - '0' as nat) as nat
    }
}

/// A number's text without its sign.
pub open spec fn unsigned_digits(text: Seq<char>) -> Seq<char> {
    if text.len() > 0 && text[0] == '+' {
        text.skip(1)
    } else {
        text
    }
}

/// The number that a text stands for: decimal digits, at least one, after at most one plus
/// sign, whose value fits.
pub open spec fn parsed_u32(text: Seq<char>) -> Option<u32> {
    let digits = unsigned_digits(text);
    if digits.len() > 0 && (forall|i: int| 0 <= i < digits.len() ==> is_digit(#[trigger] digits[i]))
        && decimal_value(digits) <= u32::MAX {
        Some(decimal_value(digits) as u32)
    } else {
        None
    }
}

/// More digits do not make a number smaller.
proof fn lemma_decimal_value_grows(digits: Seq<char>, count: int)
    requires
        0 <= count <= digits.len(),
    ensures
        decimal_value(digits.take(count)) <= decimal_value(digits),
    decreases digits.len() - count,
{
    if count == digits.len() {
        assert(digits.take(count) =~= digits);
    } else {
        lemma_decimal_value_grows(digits, count + 1);
        assert(digits.take(count + 1).drop_last() =~= digits.take(count));
    }
}

/// Reads a number in decimal digits.
fn parse_u32(text: &str) -> (number: Option<u32>)
    ensures
        number == parsed_u32(text@),
{
    let ghost digits = unsigned_digits(text@);
    if !text.is_ascii() {
        proof {
            let i = choose|i: int| 0 <= i < text@.len() && !('\0' <= #[trigger] text@[i] <= '\u{7f}');
            if digits == text@ {
                assert(!is_digit(digits[i]));
            } else {
                assert(i > 0);
                assert(!is_digit(digits[i - 1]));
            }
        }
        return None;
    }
    let bytes = text.as_bytes();
    let start: usize = if bytes.len() > 0 && bytes[0] == 43 { 1 } else { 0 };
    if bytes.len() == start {
        return None;
    }
    let mut value: u32 = 0;
    let mut i: usize = start;
    while i < bytes.len()
        invariant
            start <= i <= bytes@.len(),
            value == decimal_value(digits.take(i - start)),
            forall|k: int| 0 <= k < i - start ==> is_digit(#[trigger] digits[k]),
            bytes@.len() == start + digits.len(),
            forall|k: int| 0 <= k < digits.len() ==> bytes@[start + k] == #[trigger] digits[k] as u8,
            forall|k: int| 0 <= k < digits.len() ==> '\0' <= #[trigger] digits[k] <= '\u{7f}',
            digits == unsigned_digits(text@),
        decreases bytes@.len() - i,
    {
        let byte = bytes[i];
        let ghost at = i - start;
        assert('\0' <= digits[at] <= '\u{7f}');
        assert(byte == digits[at] as u8);
        assert(byte as int == digits[at] as int);
        if byte < 48 || byte > 57 {
            assert(!is_digit(digits[at]));
            return None;
        }
        proof {
            assert(is_digit(digits[at]));
            assert(digits.take(at + 1).drop_last() =~= digits.take(at));
            lemma_decimal_value_grows(digits, at + 1);
        }
        match value.checked_mul(10) {
            Some(shifted) => match shifted.checked_add((byte - 48) as u32) {
                Some(sum) => {
                    value = sum;
                },
                None => {
                    return None;
                },
            },
            None => {
                return None;
            },
        }
        i = i + 1;
    }
    assert(digits.take(i - start) =~= digits);
    Some(value)
}

/// The descriptor to open, given the value of the variable that may name one.
pub open spec fn inherited_descriptor(value: Option<Seq<char>>, default_fd: i32) -> Result<
    u32,
    Fault,
> {
    if default_fd < 0 {
        Err(Fault::DefaultDescriptor)
    } else {
        let fd = match value {
            Some(text) => parsed_u32(text),
            None => Some(default_fd as u32),
        };
        match fd {
            None => Err(Fault::DescriptorSyntax),
            Some(fd) => if MIN_INHERITED_FD <= fd <= MAX_INHERITED_FD {
                Ok(fd)
            } else {
                Err(Fault::DescriptorRange)
            },
        }
    }
}

/// The descriptor to open, given the value of the variable that may name one.
pub fn parse_fd(value: Option<&str>, default_fd: i32) -> (result: Result<u32, Fault>)
    ensures
        result == inherited_descriptor(text_of(value), default_fd),
        result matches Ok(fd) ==> MIN_INHERITED_FD <= fd <= MAX_INHERITED_FD,
{
    if default_fd < 0 {
        return Err(Fault::DefaultDescriptor);
    }
    let fd: u32 = match value {
        Some(text) => match parse_u32(text) {
            Some(fd) => fd,
            None => {
                return Err(Fault::DescriptorSyntax);
            },
        },
        None => default_fd as u32,
    };
    if fd < MIN_INHERITED_FD || fd > MAX_INHERITED_FD {
        return Err(Fault::DescriptorRange);
    }
    Ok(fd)
}

/// The descriptors of the build-log protocol, metadata first, given whether the platform
/// has them and the values of the variables that may name them.
pub fn build_log_descriptors(
    supported: bool,
    metadata: Option<&str>,
    data: Option<&str>,
) -> (result: Result<(u32, u32), Fault>)
    ensures
        result == (if !supported {
            Err(Fault::BuildLogUnsupported)
        } else {
            match (
                inherited_descriptor(text_of(metadata), DEFAULT_METADATA_FD),
                inherited_descriptor(text_of(data), DEFAULT_DATA_FD),
            ) {
                (Err(fault), _) => Err(fault),
                (_, Err(fault)) => Err(fault),
                (Ok(metadata_fd), Ok(data_fd)) => if metadata_fd == data_fd {
                    Err(Fault::DescriptorsCoincide)
                } else {
                    Ok((metadata_fd, data_fd))
                },
            }
        }),
        result matches Ok((metadata_fd, data_fd)) ==> {
            &&& metadata_fd != data_fd
            &&& MIN_INHERITED_FD <= metadata_fd <= MAX_INHERITED_FD
            &&& MIN_INHERITED_FD <= data_fd <= MAX_INHERITED_FD
        },
{
    if !supported {
        return Err(Fault::BuildLogUnsupported);
    }
    let metadata_fd = parse_fd(metadata, DEFAULT_METADATA_FD)?;
    let data_fd = parse_fd(data, DEFAULT_DATA_FD)?;
    if metadata_fd == data_fd {
        return Err(Fault::DescriptorsCoincide);
    }
    Ok((metadata_fd, data_fd))
}

/// The metadata descriptor of the frame protocol, given whether the platform has it and
/// the value of the variable that may name it.
pub fn legacy_descriptor(supported: bool, metadata: Option<&str>) -> (result: Result<u32, Fault>)
    ensures
        result == (if supported {
            inherited_descriptor(text_of(metadata), DEFAULT_METADATA_FD)
        } else {
            Err(Fault::LegacyUnsupported)
        }),
{
    if !supported {
        return Err(Fault::LegacyUnsupported);
    }
    parse_fd(metadata, DEFAULT_METADATA_FD)
}

} // verus!
