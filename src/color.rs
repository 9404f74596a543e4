use vstd::prelude::*;
use vstd::string::StrSliceExecFns;

verus! {

/// Why an HTML color code was rejected.
#[derive(Clone, Copy, Debug, PartialEq, Eq, Structural)]
pub enum HtmlColorConversionError {
    InvalidStringLength,
    MissingHash,
    InvalidCharacter,
}

/// The value of a hexadecimal digit, either case.
pub open spec fn hex_digit(c: char) -> Option<u32> {
    if '0' <= c && c <= '9' {
        Some((c as u32 - '0' as u32) as u32)
    } else if 'a' <= c && c <= 'f' {
        Some((c as u32 - 'a' as u32 + 10) as u32)
    } else if 'A' <= c && c <= 'F' {
        Some((c as u32 - 'A' as u32 + 10) as u32)
    } else {
        None
    }
}

/// Checks the six digit positions from `i` on, in order: the first missing
/// position or non-digit decides the error.
pub open spec fn digits_outcome(s: Seq<char>, i: nat) -> Result<(), HtmlColorConversionError>
    decreases 7 - i,
{
    if i >= 7 {
        Ok(())
    } else if i >= s.len() {
        Err(HtmlColorConversionError::InvalidStringLength)
    } else if hex_digit(s[i as int]) is None {
        Err(HtmlColorConversionError::InvalidCharacter)
    } else {
        digits_outcome(s, i + 1)
    }
}

/// The channel written by the two digits at `i` and `i + 1`.
pub open spec fn channel(s: Seq<char>, i: int) -> u8 {
    (hex_digit(s[i])->Some_0 * 16 + hex_digit(s[i + 1])->Some_0) as u8
}

/// What `#RRGGBB` denotes: the three channels, or why it is rejected.
pub open spec fn parse_hex_spec(s: Seq<char>) -> Result<(u8, u8, u8), HtmlColorConversionError> {
    if s.len() == 0 {
        Err(HtmlColorConversionError::InvalidStringLength)
    } else if s[0] != '#' {
        Err(HtmlColorConversionError::MissingHash)
    } else {
        match digits_outcome(s, 1) {
            Err(e) => Err(e),
            Ok(_) => if s.len() > 7 {
                Err(HtmlColorConversionError::InvalidStringLength)
            } else {
                Ok((channel(s, 1), channel(s, 3), channel(s, 5)))
            },
        }
    }
}

fn hex_value(c: char) -> (r: Option<u32>)
    ensures
        r == hex_digit(c),
        r matches Some(d) ==> d < 16,
{
    if '0' <= c && c <= '9' {
        Some(c as u32 - '0' as u32)
    } else if 'a' <= c && c <= 'f' {
        Some(c as u32 - 'a' as u32 + 10)
    } else if 'A' <= c && c <= 'F' {
        Some(c as u32 - 'A' as u32 + 10)
    } else {
        None
    }
}

/// Parses an HTML color code `#RRGGBB` into its red, green and blue channels.
pub fn parse_hex(code: &str) -> (r: Result<(u8, u8, u8), HtmlColorConversionError>)
    ensures
        r == parse_hex_spec(code@),
{
    let n = code.unicode_len();
    if n == 0 {
        return Err(HtmlColorConversionError::InvalidStringLength);
    }
    if code.get_char(0) != '#' {
        return Err(HtmlColorConversionError::MissingHash);
    }
    let mut digits: Vec<u32> = Vec::new();
    let mut i: usize = 1;
    while i < 7
        invariant
            n == code@.len(),
            n > 0,
            code@[0] == '#',
            1 <= i <= 7,
            digits@.len() == i - 1,
            forall|j: int| 0 <= j < digits@.len() ==> #[trigger] digits@[j] < 16,
            forall|j: int| 0 <= j < digits@.len() ==> j + 1 < code@.len() && hex_digit(code@[j + 1]) == Some(#[trigger] digits@[j]),
            digits_outcome(code@, 1) == digits_outcome(code@, i as nat),
        decreases 7 - i,
    {
        if i >= n {
            return Err(HtmlColorConversionError::InvalidStringLength);
        }
        match hex_value(code.get_char(i)) {
            None => {
                return Err(HtmlColorConversionError::InvalidCharacter);
            },
            Some(d) => {
                digits.push(d);
            },
        }
        i += 1;
    }
    if n > 7 {
        return Err(HtmlColorConversionError::InvalidStringLength);
    }
    let red = (digits[0] * 16 + digits[1]) as u8;
    let green = (digits[2] * 16 + digits[3]) as u8;
    let blue = (digits[4] * 16 + digits[5]) as u8;
    proof {
        assert(digits@[0] == hex_digit(code@[1])->Some_0);
        assert(digits@[1] == hex_digit(code@[2])->Some_0);
        assert(digits@[2] == hex_digit(code@[3])->Some_0);
        assert(digits@[3] == hex_digit(code@[4])->Some_0);
        assert(digits@[4] == hex_digit(code@[5])->Some_0);
        assert(digits@[5] == hex_digit(code@[6])->Some_0);
    }
    Ok((red, green, blue))
}

/// The code of a named palette color.
pub open spec fn palette_spec(name: Seq<char>) -> Option<Seq<char>> {
    if name == "black"@ {
        Some("#000000"@)
    } else if name == "dark_blue"@ {
        Some("#1D2B53"@)
    } else if name == "dark_purple"@ {
        Some("#7E2553"@)
    } else if name == "dark_green"@ {
        Some("#008751"@)
    } else if name == "brown"@ {
        Some("#AB5236"@)
    } else if name == "dark_grey"@ {
        Some("#5F574F"@)
    } else if name == "light_grey"@ {
        Some("#C2C3C7"@)
    } else if name == "white"@ {
        Some("#FFF1E8"@)
    } else if name == "red"@ {
        Some("#FF004D"@)
    } else if name == "orange"@ {
        Some("#FFA300"@)
    } else if name == "yellow"@ {
        Some("#FFEC27"@)
    } else if name == "green"@ {
        Some("#00E436"@)
    } else if name == "blue"@ {
        Some("#29ADFF"@)
    } else if name == "lavender"@ {
        Some("#83769C"@)
    } else if name == "pink"@ {
        Some("#FF77A8"@)
    } else if name == "light_peach"@ {
        Some("#FFCCAA"@)
    } else {
        None
    }
}

/// Whether two strings hold the same characters.
fn same_text(a: &str, b: &str) -> (r: bool)
    ensures
        r == (a@ == b@),
{
    let n = a.unicode_len();
    let m = b.unicode_len();
    if n != m {
        return false;
    }
    let mut i: usize = 0;
    while i < n
        invariant
            n == a@.len(),
            m == b@.len(),
            n == m,
            i <= n,
            forall|j: int| 0 <= j < i ==> a@[j] == b@[j],
        decreases n - i,
    {
        if a.get_char(i) != b.get_char(i) {
            return false;
        }
        i += 1;
    }
    assert(a@ =~= b@);
    true
}

/// The HTML code of a color of the sixteen-color palette, by name.
pub fn palette_code(name: &str) -> (r: Option<&'static str>)
    ensures
        match r {
            Some(code) => palette_spec(name@) == Some(code@),
            None => palette_spec(name@) is None,
        },
{
    if same_text(name, "black") {
        return Some("#000000");
    }
    if same_text(name, "dark_blue") {
        return Some("#1D2B53");
    }
    if same_text(name, "dark_purple") {
        return Some("#7E2553");
    }
    if same_text(name, "dark_green") {
        return Some("#008751");
    }
    if same_text(name, "brown") {
        return Some("#AB5236");
    }
    if same_text(name, "dark_grey") {
        return Some("#5F574F");
    }
    if same_text(name, "light_grey") {
        return Some("#C2C3C7");
    }
    if same_text(name, "white") {
        return Some("#FFF1E8");
    }
    if same_text(name, "red") {
        return Some("#FF004D");
    }
    if same_text(name, "orange") {
        return Some("#FFA300");
    }
    if same_text(name, "yellow") {
        return Some("#FFEC27");
    }
    if same_text(name, "green") {
        return Some("#00E436");
    }
    if same_text(name, "blue") {
        return Some("#29ADFF");
    }
    if same_text(name, "lavender") {
        return Some("#83769C");
    }
    if same_text(name, "pink") {
        return Some("#FF77A8");
    }
    if same_text(name, "light_peach") {
        return Some("#FFCCAA");
    }
    None
}

} // verus!
