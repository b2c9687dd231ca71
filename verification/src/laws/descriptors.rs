//! Laws of the choice of protocol and descriptors.

use vstd::prelude::*;

use crate::fault::Fault;
use crate::pipe::descriptor;
use crate::pipe::descriptor::{
    build_log_descriptors, legacy_descriptor, parse_fd, requested_protocol, Protocol,
    DEFAULT_DATA_FD, DEFAULT_METADATA_FD, MAX_INHERITED_FD, MIN_INHERITED_FD,
};

verus! {

/// What number a text stands for, digit by digit: one digit stands for itself, one more digit
/// makes ten times the number and the digit, a plus sign in front of a digit does not matter,
/// and a text that stands for no number does not come to stand for one by what follows. What
/// is no digit, no text at all and a lone sign stand for none, nor does what does not fit.
pub proof fn law_number_of_text(text: Seq<char>, c: char)
    ensures
        descriptor::parsed_u32(Seq::empty()) is None,
        descriptor::parsed_u32(seq!['+']) is None,
        descriptor::parsed_u32(seq![c]) == (if '0' <= c <= '9' {
            Some((c as u32 - '0' as u32) as u32)
        } else {
            None
        }),
        descriptor::parsed_u32(seq!['+', c]) == descriptor::parsed_u32(seq![c]),
        text.len() > 0 && text != seq!['+'] ==> descriptor::parsed_u32(text.push(c)) == match (
            descriptor::parsed_u32(text)
        ) {
            Some(number) => if '0' <= c <= '9' && 10 * number + (c as u32 - '0' as u32)
                <= u32::MAX {
                Some((10 * number + (c as u32 - '0' as u32)) as u32)
            } else {
                None
            },
            None => None,
        },
{
    reveal_with_fuel(descriptor::decimal_value, 2);
    let one = seq![c];
    assert(one.drop_last() =~= Seq::empty());
    assert(seq!['+'].skip(1) =~= Seq::empty());
    assert(one.skip(1) =~= Seq::empty());
    assert(one[0] == c);
    assert(seq!['+', c].skip(1) =~= one);
    if text.len() > 0 && text != seq!['+'] {
        let more = text.push(c);
        let digits = descriptor::unsigned_digits(text);
        let all = descriptor::unsigned_digits(more);
        assert(text[0] == '+' && text.len() == 1 ==> text =~= seq!['+']);
        assert(all =~= digits.push(c));
        assert(all.drop_last() =~= digits);
        assert(all.last() == c);
        assert(forall|i: int| 0 <= i < digits.len() ==> #[trigger] all[i] == digits[i]);
        if descriptor::parsed_u32(text) is Some {
            assert forall|i: int| 0 <= i < all.len() && '0' <= c <= '9' implies
                descriptor::is_digit(#[trigger] all[i]) by {
                if i < digits.len() {
                    assert(descriptor::is_digit(digits[i]));
                }
            }
        } else if forall|i: int|
            0 <= i < digits.len() ==> descriptor::is_digit(#[trigger] digits[i]) {
            assert(descriptor::decimal_value(digits) > u32::MAX);
            assert(descriptor::decimal_value(all) >= descriptor::decimal_value(digits));
        } else {
            let i = choose|i: int|
                0 <= i < digits.len() && !descriptor::is_digit(#[trigger] digits[i]);
            assert(!descriptor::is_digit(all[i]));
        }
    }
}

/// A variable that has a value decides: the descriptor is the number that the value stands
/// for, whichever that is within the range, and no other. The default counts only where the
/// variable has no value.
pub proof fn law_variable_names_the_descriptor(
    value: Option<&str>,
    default_fd: i32,
    result: Result<u32, Fault>,
)
    requires
        call_ensures(parse_fd, (value, default_fd), result),
    ensures
        default_fd < 0 ==> result == Err::<u32, Fault>(Fault::DefaultDescriptor),
        default_fd >= 0 ==> match value {
            Some(text) => {
                &&& forall|fd: u32|
                    result == Ok::<u32, Fault>(fd) <==> #[trigger] descriptor::parsed_u32(text@)
                        == Some(fd) && MIN_INHERITED_FD <= fd <= MAX_INHERITED_FD
                &&& result == Err::<u32, Fault>(Fault::DescriptorSyntax)
                    <==> descriptor::parsed_u32(text@) is None
                &&& result == Err::<u32, Fault>(Fault::DescriptorRange) <==> (
                descriptor::parsed_u32(text@) matches Some(fd) && !(MIN_INHERITED_FD <= fd
                    <= MAX_INHERITED_FD))
            },
            None => result == (if MIN_INHERITED_FD <= default_fd <= MAX_INHERITED_FD {
                Ok::<u32, Fault>(default_fd as u32)
            } else {
                Err(Fault::DescriptorRange)
            }),
        },
        result is Err ==> {
            ||| result->Err_0 == Fault::DefaultDescriptor
            ||| result->Err_0 == Fault::DescriptorSyntax
            ||| result->Err_0 == Fault::DescriptorRange
        },
{
}

/// The bounds of the range.
pub proof fn law_descriptor_bounds()
    ensures
        MIN_INHERITED_FD == 3,
        MAX_INHERITED_FD == 1024,
        DEFAULT_METADATA_FD == 3,
        DEFAULT_DATA_FD == 4,
{
}

/// Each of the two descriptors of the build-log protocol is the one that its own variable
/// names, or its own default; the metadata's failure comes first, and the two must differ.
pub proof fn law_build_log_descriptors_are_those_named(
    supported: bool,
    metadata: Option<&str>,
    data: Option<&str>,
    metadata_fd: Result<u32, Fault>,
    data_fd: Result<u32, Fault>,
    result: Result<(u32, u32), Fault>,
)
    requires
        call_ensures(parse_fd, (metadata, DEFAULT_METADATA_FD), metadata_fd),
        call_ensures(parse_fd, (data, DEFAULT_DATA_FD), data_fd),
        call_ensures(build_log_descriptors, (supported, metadata, data), result),
    ensures
        !supported ==> result == Err::<(u32, u32), Fault>(Fault::BuildLogUnsupported),
        supported && metadata_fd is Err ==> result == Err::<(u32, u32), Fault>(
            metadata_fd->Err_0,
        ),
        supported && metadata_fd is Ok && data_fd is Err ==> result == Err::<(u32, u32), Fault>(
            data_fd->Err_0,
        ),
        supported && metadata_fd is Ok && data_fd is Ok ==> result == (if metadata_fd->Ok_0
            == data_fd->Ok_0 {
            Err::<(u32, u32), Fault>(Fault::DescriptorsCoincide)
        } else {
            Ok((metadata_fd->Ok_0, data_fd->Ok_0))
        }),
{
}

/// The metadata descriptor of the frame protocol is the one that the variable names, or the
/// same default as that of the build-log protocol.
pub proof fn law_legacy_descriptor_is_the_one_named(
    supported: bool,
    metadata: Option<&str>,
    metadata_fd: Result<u32, Fault>,
    result: Result<u32, Fault>,
)
    requires
        call_ensures(parse_fd, (metadata, DEFAULT_METADATA_FD), metadata_fd),
        call_ensures(legacy_descriptor, (supported, metadata), result),
    ensures
        !supported ==> result == Err::<u32, Fault>(Fault::LegacyUnsupported),
        supported ==> result == metadata_fd,
{
}

/// A protocol runs exactly where its own variable has exactly its name; where both do, it is
/// the build-log protocol.
pub proof fn law_protocol_is_asked_for_by_name(
    build_log: Option<&str>,
    legacy: Option<&str>,
    protocol: Option<Protocol>,
)
    requires
        call_ensures(requested_protocol, (build_log, legacy), protocol),
    ensures
        protocol == Some(Protocol::BuildLog) <==> (build_log matches Some(text) && text@
            == "gha-indie-worker.build-log-metadata/v1"@),
        protocol == Some(Protocol::Legacy) <==> protocol != Some(Protocol::BuildLog) && (
        legacy matches Some(text) && text@ == "gha-indie-worker.log-sidecar.v1"@),
{
}

} // verus!
