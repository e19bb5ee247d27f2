//! Validation of names.

use crate::error::InvalidArgument;
use vstd::prelude::*;
use vstd::string::StrSliceExecFns;

verus! {

/// The character has the Unicode property White_Space.
pub open spec fn is_white_space(c: char) -> bool {
    let code = c as u32;
    ||| 0x09 <= code <= 0x0D
    ||| code == 0x20
    ||| code == 0x85
    ||| code == 0xA0
    ||| code == 0x1680
    ||| 0x2000 <= code <= 0x200A
    ||| code == 0x2028
    ||| code == 0x2029
    ||| code == 0x202F
    ||| code == 0x205F
    ||| code == 0x3000
}

/// The text is empty or holds white space only.
pub open spec fn is_blank(text: Seq<char>) -> bool {
    forall|i: int| 0 <= i < text.len() ==> is_white_space(#[trigger] text[i])
}

/// Whether the character has the Unicode property White_Space.
pub fn white_space(c: char) -> (r: bool)
    ensures
        r == is_white_space(c),
{
    let code: u32 = c as u32;
    (0x09 <= code && code <= 0x0D) || code == 0x20 || code == 0x85 || code == 0xA0 || code == 0x1680 || (0x2000
        <= code && code <= 0x200A) || code == 0x2028 || code == 0x2029 || code == 0x202F || code == 0x205F || code
        == 0x3000
}

/// Hands the name back unless it is empty or holds white space only.
pub fn validate_name(name: String) -> (r: Result<String, InvalidArgument>)
    ensures
        match r {
            Ok(accepted) => accepted == name && !is_blank(name@),
            Err(e) => e == InvalidArgument::BlankName && is_blank(name@),
        },
{
    let text = name.as_str();
    let len: usize = text.unicode_len();
    let mut i: usize = 0;
    let mut blank: bool = true;
    while i < len && blank
        invariant
            i <= len,
            len == text@.len(),
            text@ == name@,
            blank ==> forall|j: int| 0 <= j < i ==> is_white_space(#[trigger] text@[j]),
            !blank ==> !is_blank(text@),
        decreases len - i,
    {
        if !white_space(text.get_char(i)) {
            blank = false;
        }
        i = i + 1;
    }
    if blank {
        Err(InvalidArgument::BlankName)
    } else {
        Ok(name)
    }
}

} // verus!
