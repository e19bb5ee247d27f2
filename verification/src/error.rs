//! The one error of the library: an argument that breaks a rule of
//! construction.

use vstd::prelude::*;

verus! {

/// The rule that an argument broke.
#[derive(Clone, Copy, Debug, PartialEq, Eq, Structural)]
pub enum InvalidArgument {
    /// The grid size is not between 10 and 5000.
    SizeOutOfRange,
    /// The obstacle ratio is not at least 0 and below one half.
    RatioOutOfRange,
    /// The obstacle list has `len` entries where the configuration asks for
    /// `expected`.
    ObstacleCountMismatch { len: usize, expected: usize },
    /// An obstacle lies outside the grid.
    ObstacleOutOfBounds,
    /// An obstacle lies on the start or on the goal.
    ObstacleOnEndpoint,
    /// An obstacle occurs twice.
    DuplicateObstacle,
    /// A name is empty or holds white space only.
    BlankName,
}

/// The decimal digit for a number below ten.
pub open spec fn digit(d: nat) -> char {
    if d == 0 {
        '0'
    } else if d == 1 {
        '1'
    } else if d == 2 {
        '2'
    } else if d == 3 {
        '3'
    } else if d == 4 {
        '4'
    } else if d == 5 {
        '5'
    } else if d == 6 {
        '6'
    } else if d == 7 {
        '7'
    } else if d == 8 {
        '8'
    } else {
        '9'
    }
}

/// The decimal numeral of a number, without leading zeros.
pub open spec fn decimal(n: nat) -> Seq<char>
    decreases n,
{
    if n < 10 {
        seq![digit(n)]
    } else {
        decimal(n / 10).push(digit(n % 10))
    }
}

fn digit_text(d: usize) -> (text: &'static str)
    requires
        d < 10,
    ensures
        text@ == seq![digit(d as nat)],
{
    proof {
        reveal_strlit("0");
        reveal_strlit("1");
        reveal_strlit("2");
        reveal_strlit("3");
        reveal_strlit("4");
        reveal_strlit("5");
        reveal_strlit("6");
        reveal_strlit("7");
        reveal_strlit("8");
        reveal_strlit("9");
    }
    let text = if d == 0 {
        "0"
    } else if d == 1 {
        "1"
    } else if d == 2 {
        "2"
    } else if d == 3 {
        "3"
    } else if d == 4 {
        "4"
    } else if d == 5 {
        "5"
    } else if d == 6 {
        "6"
    } else if d == 7 {
        "7"
    } else if d == 8 {
        "8"
    } else {
        "9"
    };
    assert(text@ =~= seq![digit(d as nat)]);
    text
}

/// The decimal numeral of a number, without leading zeros.
pub fn decimal_string(n: usize) -> (text: String)
    ensures
        text@ == decimal(n as nat),
    decreases n,
{
    if n < 10 {
        String::from_str(digit_text(n))
    } else {
        let mut text = decimal_string(n / 10);
        let ghost head = text@;
        text.append(digit_text(n % 10));
        assert(text@ =~= head.push(digit((n % 10) as nat)));
        text
    }
}

impl InvalidArgument {
    /// The sentence that names the rule.
    pub open spec fn message_text(self) -> Seq<char> {
        match self {
            InvalidArgument::SizeOutOfRange => "size must be between 10 and 5000"@,
            InvalidArgument::RatioOutOfRange => "obstacle_ratio must be between 0.0 and 0.5"@,
            InvalidArgument::ObstacleCountMismatch { len, expected } => "obstacles length "@ + decimal(
                len as nat,
            ) + " does not match expected "@ + decimal(expected as nat),
            InvalidArgument::ObstacleOutOfBounds => "obstacle coordinate out of bounds"@,
            InvalidArgument::ObstacleOnEndpoint => "obstacles cannot include start/goal"@,
            InvalidArgument::DuplicateObstacle => "duplicate obstacle coordinate"@,
            InvalidArgument::BlankName => "name must not be empty"@,
        }
    }

    /// The sentence that names the rule.
    pub fn message(&self) -> (text: String)
        ensures
            text@ == self.message_text(),
    {
        match self {
            InvalidArgument::SizeOutOfRange => String::from_str("size must be between 10 and 5000"),
            InvalidArgument::RatioOutOfRange => String::from_str("obstacle_ratio must be between 0.0 and 0.5"),
            InvalidArgument::ObstacleCountMismatch { len, expected } => {
                let mut text = String::from_str("obstacles length ");
                let found = decimal_string(*len);
                text.append(found.as_str());
                text.append(" does not match expected ");
                let wanted = decimal_string(*expected);
                text.append(wanted.as_str());
                text
            },
            InvalidArgument::ObstacleOutOfBounds => String::from_str("obstacle coordinate out of bounds"),
            InvalidArgument::ObstacleOnEndpoint => String::from_str("obstacles cannot include start/goal"),
            InvalidArgument::DuplicateObstacle => String::from_str("duplicate obstacle coordinate"),
            InvalidArgument::BlankName => String::from_str("name must not be empty"),
        }
    }
}

} // verus!
