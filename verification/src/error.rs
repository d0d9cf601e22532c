//! The error type shared by every loading stage.

use vstd::prelude::*;
use vstd::string::StringExecFns;

verus! {

/// Why a load was abandoned. A load either completes or fails as a whole.
#[derive(Debug)]
pub enum BMError {
    LoadingError { msg: String },
}

pub type BMResult<T> = Result<T, BMError>;

/// The answer of an atlas query for a key that has no placement.
#[derive(Debug, Clone, Copy, PartialEq, Eq, Structural)]
pub struct NotFound;

/// What a failure has to say: the message that its error carries.
pub struct Fault(pub Seq<char>);

impl Fault {
    /// Whether `e` is a report of this fault.
    pub open spec fn told_by(self, e: BMError) -> bool {
        e.message() == self.0
    }
}

/// Whether `r` is a failure that reports `fault`.
pub open spec fn fails_with<T>(r: BMResult<T>, fault: Fault) -> bool {
    r matches Err(e) && fault.told_by(e)
}

impl BMError {
    /// The message carried by the error.
    pub open spec fn message(self) -> Seq<char> {
        match self {
            BMError::LoadingError { msg } => msg@,
        }
    }

    /// A loading error with the given message.
    pub fn loading(text: &str) -> (e: BMError)
        ensures
            e.message() == text@,
    {
        BMError::LoadingError { msg: String::from_str(text) }
    }

    /// The error's kind followed by its message.
    pub fn to_string(&self) -> (s: String)
        ensures
            s@ == "LoadingError: "@ + self.message(),
    {
        match self {
            BMError::LoadingError { msg } => String::from_str("LoadingError: ").concat(
                msg.as_str(),
            ),
        }
    }
}

/// The digit characters of `n` in base ten, most significant first.
pub open spec fn decimal(n: nat) -> Seq<char>
    decreases n,
{
    if n < 10 {
        seq![digit(n)]
    } else {
        decimal(n / 10).push(digit(n % 10))
    }
}

/// The character for a single decimal digit.
pub open spec fn digit(d: nat) -> char {
    if d == 0 {
        '0'
    } else if d == 1 {
        '1'
    } else if d == 2 {
        '2'
    } else if d == 3 {
        '3'
    } else if d == 4 {
        '4'
    } else if d == 5 {
        '5'
    } else if d == 6 {
        '6'
    } else if d == 7 {
        '7'
    } else if d == 8 {
        '8'
    } else {
        '9'
    }
}

fn digit_text(d: usize) -> (s: &'static str)
    requires
        d < 10,
    ensures
        s@ == seq![digit(d as nat)],
{
    proof {
        reveal_strlit("0");
        reveal_strlit("1");
        reveal_strlit("2");
        reveal_strlit("3");
        reveal_strlit("4");
        reveal_strlit("5");
        reveal_strlit("6");
        reveal_strlit("7");
        reveal_strlit("8");
        reveal_strlit("9");
    }
    let s = if d == 0 {
        "0"
    } else if d == 1 {
        "1"
    } else if d == 2 {
        "2"
    } else if d == 3 {
        "3"
    } else if d == 4 {
        "4"
    } else if d == 5 {
        "5"
    } else if d == 6 {
        "6"
    } else if d == 7 {
        "7"
    } else if d == 8 {
        "8"
    } else {
        "9"
    };
    assert(s@ =~= seq![digit(d as nat)]);
    s
}

/// Writes a count in base ten.
pub fn decimal_text(n: usize) -> (s: String)
    ensures
        s@ == decimal(n as nat),
    decreases n,
{
    if n < 10 {
        String::from_str(digit_text(n))
    } else {
        let head = decimal_text(n / 10);
        let s = head.concat(digit_text(n % 10));
        assert(s@ =~= decimal(n as nat));
        s
    }
}

} // verus!
