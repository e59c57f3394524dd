use vstd::prelude::*;
use vstd::string::StrSliceExecFns;

verus! {

/// `c` with an ASCII capital letter turned into its small letter; any other character as it is.
pub open spec fn ascii_lowercase(c: char) -> char {
    if 'A' <= c <= 'Z' {
        ((c as u32) + 32) as char
    } else {
        c
    }
}

/// A text with its ASCII capitals turned into small letters.
pub open spec fn ascii_lowercase_text(text: Seq<char>) -> Seq<char> {
    text.map_values(|c: char| ascii_lowercase(c))
}

/// Whether a flag's text switches it on: `1`, `true` or `yes`, in any mix of ASCII case.
pub open spec fn enabled_text(text: Seq<char>) -> bool {
    let lowered = ascii_lowercase_text(text);
    ||| lowered == seq!['1']
    ||| lowered == seq!['t', 'r', 'u', 'e']
    ||| lowered == seq!['y', 'e', 's']
}

/// Whether `c`, with ASCII case ignored, is the small letter `small`.
fn same_letter(c: char, small: char, capital: char) -> (result: bool)
    requires
        'a' <= small <= 'z',
        capital as u32 == small as u32 - 32,
    ensures
        result == (ascii_lowercase(c) == small),
{
    c == small || c == capital
}

/// Whether an environment flag is switched on: it is set, to `1`, `true` or `yes` with ASCII
/// case ignored. Anything else, an empty value and other words for yes included, leaves it off.
pub fn parse_environment_flag(value: Option<&str>) -> (result: bool)
    ensures
        result == (value is Some && enabled_text(value->0@)),
{
    let text = match value {
        Some(text) => text,
        None => return false,
    };
    let n = text.unicode_len();
    let result = if n == 1 {
        text.get_char(0) == '1'
    } else if n == 3 {
        same_letter(text.get_char(0), 'y', 'Y') && same_letter(text.get_char(1), 'e', 'E') && same_letter(
            text.get_char(2),
            's',
            'S',
        )
    } else if n == 4 {
        same_letter(text.get_char(0), 't', 'T') && same_letter(text.get_char(1), 'r', 'R') && same_letter(
            text.get_char(2),
            'u',
            'U',
        ) && same_letter(text.get_char(3), 'e', 'E')
    } else {
        false
    };
    proof {
        let lowered = ascii_lowercase_text(text@);
        assert(lowered.len() == n);
        if n == 1 {
            assert(ascii_lowercase(text@[0]) == '1' <==> text@[0] == '1');
            assert(lowered =~= seq!['1'] <==> lowered[0] == '1');
        } else if n == 3 {
            assert(lowered =~= seq!['y', 'e', 's'] <==> (lowered[0] == 'y' && lowered[1] == 'e' && lowered[2] == 's'));
        } else if n == 4 {
            assert(lowered =~= seq!['t', 'r', 'u', 'e'] <==> (lowered[0] == 't' && lowered[1] == 'r' && lowered[2]
                == 'u' && lowered[3] == 'e'));
        }
    }
    result
}

} // verus!
