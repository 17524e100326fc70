//! Why a device goes down, and how an operation on it fails.

use vstd::prelude::*;

verus! {

/// The reason a device is taken down.
#[derive(Clone, Copy, Debug, PartialEq, Eq, Structural)]
pub enum DeviceDownReason {
    Stop,
    Reset,
    Revoked,
    SurpriseRemoval,
}

impl DeviceDownReason {
    /// The reason's name.
    pub open spec fn spec_name(self) -> Seq<char> {
        match self {
            DeviceDownReason::Stop => "Stop"@,
            DeviceDownReason::Reset => "Reset"@,
            DeviceDownReason::Revoked => "Revoked"@,
            DeviceDownReason::SurpriseRemoval => "SurpriseRemoval"@,
        }
    }

    /// The reason's name, as it appears in messages.
    pub fn name(self) -> (name: &'static str)
        ensures
            name@ == self.spec_name(),
    {
        match self {
            DeviceDownReason::Stop => "Stop",
            DeviceDownReason::Reset => "Reset",
            DeviceDownReason::Revoked => "Revoked",
            DeviceDownReason::SurpriseRemoval => "SurpriseRemoval",
        }
    }
}

/// A failed operation of the host, reduced to what a device looks at.
#[derive(Debug)]
pub enum IoError {
    /// The operating system reported an error number.
    Os { code: i32, text: String },
    /// The device itself refused the operation.
    PermissionDenied,
    /// A failure without an error number.
    Other { text: String },
}

impl IoError {
    /// What the failure says of itself.
    pub open spec fn spec_text(self) -> Seq<char> {
        match self {
            IoError::Os { code, text } => text@,
            IoError::PermissionDenied => "permission denied"@,
            IoError::Other { text } => text@,
        }
    }

    /// What the failure says of itself.
    pub fn text(&self) -> (text: &str)
        ensures
            text@ == self.spec_text(),
    {
        match self {
            IoError::Os { code, text } => text.as_str(),
            IoError::PermissionDenied => "permission denied",
            IoError::Other { text } => text.as_str(),
        }
    }

    /// The error number the operating system gave, if it gave one.
    pub open spec fn spec_raw_os_error(self) -> Option<i32> {
        match self {
            IoError::Os { code, text } => Some(code),
            _ => None,
        }
    }

    /// The error number the operating system gave, if it gave one.
    pub fn raw_os_error(&self) -> (code: Option<i32>)
        ensures
            code == self.spec_raw_os_error(),
    {
        match self {
            IoError::Os { code, text } => Some(*code),
            _ => None,
        }
    }
}

/// Everything that can go wrong in a device.
#[derive(Debug)]
pub enum DeviceError {
    Down(DeviceDownReason),
    InvalidLayout(&'static str),
    InvalidQueue { queue: u16, reason: &'static str },
    DmaRange { gpa: u64, length: usize },
    DmaAlignment { alignment: usize },
    Descriptor(&'static str),
    Io(IoError),
    Worker(String),
}

/// The digit `value` of a base up to sixteen, as text.
pub open spec fn digit(value: int) -> Seq<char> {
    if value == 0 { "0"@ } else if value == 1 { "1"@ } else if value == 2 { "2"@ }
    else if value == 3 { "3"@ } else if value == 4 { "4"@ } else if value == 5 { "5"@ }
    else if value == 6 { "6"@ } else if value == 7 { "7"@ } else if value == 8 { "8"@ }
    else if value == 9 { "9"@ } else if value == 10 { "a"@ } else if value == 11 { "b"@ }
    else if value == 12 { "c"@ } else if value == 13 { "d"@ } else if value == 14 { "e"@ }
    else { "f"@ }
}

/// `value` written in `base`, most significant digit first, without leading zeros.
pub open spec fn numeral(value: nat, base: nat) -> Seq<char>
    decreases value,
{
    if base < 2 || value < base {
        digit(value as int)
    } else {
        proof {
            assert(value / base < value) by (nonlinear_arith)
                requires
                    value >= base,
                    base >= 2,
            ;
        }
        numeral(value / base, base) + digit((value % base) as int)
    }
}

fn digit_text(value: u64) -> (text: &'static str)
    requires
        value < 16,
    ensures
        text@ == digit(value as int),
{
    match value {
        0 => "0", 1 => "1", 2 => "2", 3 => "3", 4 => "4", 5 => "5", 6 => "6", 7 => "7",
        8 => "8", 9 => "9", 10 => "a", 11 => "b", 12 => "c", 13 => "d", 14 => "e",
        _ => "f",
    }
}

/// Appends `value` in `base` to `out`.
fn push_numeral(out: &mut String, value: u64, base: u64)
    requires
        2 <= base <= 16,
    ensures
        final(out)@ == old(out)@ + numeral(value as nat, base as nat),
    decreases value,
{
    if value >= base {
        assert(value / base < value) by (nonlinear_arith)
            requires
                value >= base,
                base >= 2,
        ;
        push_numeral(out, value / base, base);
    }
    out.append(digit_text(value % base));
    proof {
        if value >= base {
            assert(out@ =~= old(out)@ + (numeral((value / base) as nat, base as nat) + digit(
                (value % base) as int,
            )));
        } else {
            assert(value % base == value) by (nonlinear_arith)
                requires
                    value < base,
            ;
        }
    }
}

impl DeviceError {
    /// The sentence that describes the error.
    pub open spec fn spec_message(self) -> Seq<char> {
        match self {
            DeviceError::Down(reason) => "device is down: "@ + reason.spec_name(),
            DeviceError::InvalidLayout(text) => "invalid device layout: "@ + text@,
            DeviceError::InvalidQueue { queue, reason } => "invalid queue "@ + numeral(
                queue as nat,
                10,
            ) + ": "@ + reason@,
            DeviceError::DmaRange { gpa, length } => "DMA GPA range 0x"@ + numeral(gpa as nat, 16)
                + " length="@ + numeral(length as nat, 10) + " is not mapped"@,
            DeviceError::DmaAlignment { alignment } => "DMA mapping is not aligned to "@ + numeral(
                alignment as nat,
                10,
            ) + " bytes"@,
            DeviceError::Descriptor(text) => "descriptor chain is malformed: "@ + text@,
            DeviceError::Io(error) => "I/O failed: "@ + error.spec_text(),
            DeviceError::Worker(text) => "blocking device worker failed: "@ + text@,
        }
    }

    /// The sentence that describes the error.
    pub fn message(&self) -> (message: String)
        ensures
            message@ == self.spec_message(),
    {
        let mut out = String::new();
        match self {
            DeviceError::Down(reason) => {
                out.append("device is down: ");
                out.append(reason.name());
            },
            DeviceError::InvalidLayout(text) => {
                out.append("invalid device layout: ");
                out.append(text);
            },
            DeviceError::InvalidQueue { queue, reason } => {
                out.append("invalid queue ");
                push_numeral(&mut out, *queue as u64, 10);
                out.append(": ");
                out.append(reason);
            },
            DeviceError::DmaRange { gpa, length } => {
                out.append("DMA GPA range 0x");
                push_numeral(&mut out, *gpa, 16);
                out.append(" length=");
                push_numeral(&mut out, *length as u64, 10);
                out.append(" is not mapped");
            },
            DeviceError::DmaAlignment { alignment } => {
                out.append("DMA mapping is not aligned to ");
                push_numeral(&mut out, *alignment as u64, 10);
                out.append(" bytes");
            },
            DeviceError::Descriptor(text) => {
                out.append("descriptor chain is malformed: ");
                out.append(text);
            },
            DeviceError::Io(error) => {
                out.append("I/O failed: ");
                out.append(error.text());
            },
            DeviceError::Worker(text) => {
                out.append("blocking device worker failed: ");
                out.append(text.as_str());
            },
        }
        proof {
            assert(out@ =~= self.spec_message());
        }
        out
    }
}

/// The number that text of digits in `base` spells, with the letters `a` to `f` above nine.
pub open spec fn spelled(text: Seq<char>, base: nat) -> nat
    decreases text.len(),
{
    if text.len() == 0 {
        0
    } else {
        spelled(text.drop_last(), base) * base + worth(text.last())
    }
}

/// What a digit stands for.
pub open spec fn worth(digit: char) -> nat {
    if digit as u32 <= '9' as u32 {
        (digit as u32 - '0' as u32) as nat
    } else {
        (digit as u32 - 'a' as u32 + 10) as nat
    }
}

proof fn lemma_digit(value: int)
    requires
        0 <= value < 16,
    ensures
        digit(value).len() == 1,
        worth(digit(value)[0]) == value,
        value > 0 ==> digit(value)[0] != '0',
{
    reveal_strlit("0");
    reveal_strlit("1");
    reveal_strlit("2");
    reveal_strlit("3");
    reveal_strlit("4");
    reveal_strlit("5");
    reveal_strlit("6");
    reveal_strlit("7");
    reveal_strlit("8");
    reveal_strlit("9");
    reveal_strlit("a");
    reveal_strlit("b");
    reveal_strlit("c");
    reveal_strlit("d");
    reveal_strlit("e");
    reveal_strlit("f");
}

/// A number is read back from its digits, in any base up to sixteen, and starts with a zero only if
/// it is zero.
pub proof fn law_numerals_are_read_back(value: nat, base: nat)
    requires
        2 <= base <= 16,
    ensures
        numeral(value, base).len() > 0,
        spelled(numeral(value, base), base) == value,
        value > 0 ==> numeral(value, base)[0] != '0',
    decreases value,
{
    let text = numeral(value, base);
    if value < base {
        lemma_digit(value as int);
        assert(text.drop_last() =~= Seq::empty());
        assert(spelled(text.drop_last(), base) == 0);
        assert(0 * base == 0) by (nonlinear_arith);
        assert(text.last() == digit(value as int)[0]);
    } else {
        assert(value / base < value && value / base > 0) by (nonlinear_arith)
            requires
                value >= base,
                base >= 2,
        ;
        assert(0 <= value % base < base) by (nonlinear_arith)
            requires
                base >= 2,
        ;
        law_numerals_are_read_back(value / base, base);
        lemma_digit((value % base) as int);
        let front = numeral(value / base, base);
        assert(text.drop_last() =~= front);
        assert(text.last() == digit((value % base) as int)[0]);
        assert(value == (value / base) * base + value % base) by (nonlinear_arith)
            requires
                base >= 2,
        ;
        assert(text[0] == front[0]);
        assert(spelled(text, base) == spelled(front, base) * base + value % base);
    }
}

/// The sentence that describes an error names what went wrong: the reason of a device that is down,
/// the number of a bad queue, the address in sixteens and the length of a range that is not mapped,
/// and what was said of it.
pub proof fn law_messages_name_the_error(
    reason: DeviceDownReason,
    text: &'static str,
    queue: u16,
    gpa: u64,
    length: usize,
    failure: IoError,
    owned: String,
)
    ensures
        DeviceError::Down(reason).spec_message() == "device is down: "@ + match reason {
            DeviceDownReason::Stop => "Stop"@,
            DeviceDownReason::Reset => "Reset"@,
            DeviceDownReason::Revoked => "Revoked"@,
            DeviceDownReason::SurpriseRemoval => "SurpriseRemoval"@,
        },
        DeviceError::InvalidLayout(text).spec_message() == "invalid device layout: "@ + text@,
        DeviceError::Descriptor(text).spec_message() == "descriptor chain is malformed: "@ + text@,
        DeviceError::Worker(owned).spec_message() == "blocking device worker failed: "@ + owned@,
        DeviceError::Io(failure).spec_message() == "I/O failed: "@ + match failure {
            IoError::Os { code, text } => text@,
            IoError::PermissionDenied => "permission denied"@,
            IoError::Other { text } => text@,
        },
        (DeviceError::InvalidQueue { queue, reason: text }).spec_message() == "invalid queue "@
            + numeral(queue as nat, 10) + ": "@ + text@,
        (DeviceError::DmaRange { gpa, length }).spec_message() == "DMA GPA range 0x"@ + numeral(
            gpa as nat,
            16,
        ) + " length="@ + numeral(length as nat, 10) + " is not mapped"@,
        (DeviceError::DmaAlignment { alignment: length }).spec_message()
            == "DMA mapping is not aligned to "@ + numeral(length as nat, 10) + " bytes"@,
        failure.spec_raw_os_error() == match failure {
            IoError::Os { code, text } => Some(code),
            _ => None,
        },
{
}

} // verus!
