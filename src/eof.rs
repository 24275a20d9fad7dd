use vstd::prelude::*;

verus! {

/// What a read instruction stores when the input stream is exhausted.
#[derive(Clone, Copy, Debug, PartialEq, Eq, Structural)]
pub enum EofIndicator {
    /// Store this byte in the current cell.
    Char(u8),
    /// Leave the current cell as it is.
    Unchanged,
}

impl Default for EofIndicator {
    fn default() -> (r: EofIndicator)
        ensures
            r == EofIndicator::Char(0),
    {
        EofIndicator::Char(0)
    }
}

/// The text "Unchanged", which shows [`EofIndicator::Unchanged`].
pub open spec fn unchanged_text() -> Seq<char> {
    seq!['U', 'n', 'c', 'h', 'a', 'n', 'g', 'e', 'd']
}

/// Relies on std's `From<char> for String`: a string holding exactly that one character.
#[verifier::external_body]
fn char_text(c: char) -> (r: String)
    ensures
        r@ == seq![c],
{
    String::from(c)
}

impl EofIndicator {
    /// The text a policy is shown as: the fixed byte read as a Latin-1
    /// character, or the word "Unchanged".
    pub fn shown_text(&self) -> (r: String)
        ensures
            match *self {
                EofIndicator::Char(b) => r@.len() == 1 && r@[0] as u32 == b as u32,
                EofIndicator::Unchanged => r@ == unchanged_text(),
            },
    {
        match *self {
            EofIndicator::Char(b) => char_text(b as char),
            EofIndicator::Unchanged => {
                let r = "Unchanged".to_owned();
                proof {
                    reveal_strlit("Unchanged");
                }
                assert(r@ =~= unchanged_text());
                r
            },
        }
    }
}

/// The word that selects [`EofIndicator::Unchanged`], in lower case.
pub open spec fn unchanged_word() -> Seq<char> {
    seq!['u', 'n', 'c', 'h', 'a', 'n', 'g', 'e', 'd']
}

/// `c` equals the lower-case ASCII letter `t`, ignoring ASCII case.
pub open spec fn same_letter(c: char, t: char) -> bool {
    c == t || c as u32 + 32 == t as u32
}

/// `s` is the word "unchanged" in any mix of ASCII case.
pub open spec fn is_unchanged_word(s: Seq<char>) -> bool {
    s.len() == 9 && forall|i: int| 0 <= i < 9 ==> same_letter(#[trigger] s[i], unchanged_word()[i])
}

pub open spec fn is_digit(c: char) -> bool {
    '0' <= c <= '9'
}

/// The value of the decimal digit `c`.
pub open spec fn digit(c: char) -> nat {
    (c as int - '0' as int) as nat
}

/// `s` is a non-empty run of decimal digits.
pub open spec fn all_digits(s: Seq<char>) -> bool {
    s.len() >= 1 && forall|i: int| 0 <= i < s.len() ==> is_digit(#[trigger] s[i])
}

/// The number that the decimal digits `s` write.
pub open spec fn decimal_value(s: Seq<char>) -> nat
    decreases s.len(),
{
    if s.len() == 0 {
        0
    } else {
        decimal_value(s.drop_last()) * 10 + digit(s.last())
    }
}

/// The byte a decimal text gives: an unsigned byte (0 to 255) with an optional
/// `+`, or else a signed byte (down to -128) stored as its two's-complement bits.
pub open spec fn number_value(s: Seq<char>) -> Option<u8> {
    let rest = s.subrange(1, s.len() as int);
    if all_digits(s) && decimal_value(s) <= 255 {
        Some(decimal_value(s) as u8)
    } else if s.len() >= 1 && s[0] == '+' && all_digits(rest) && decimal_value(rest) <= 255 {
        Some(decimal_value(rest) as u8)
    } else if s.len() >= 1 && s[0] == '-' && all_digits(rest) && decimal_value(rest) <= 128 {
        Some(((256 - decimal_value(rest)) % 256) as u8)
    } else {
        None
    }
}

/// The byte that the escape `\c` stands for: the ASCII control codes null,
/// bell, backspace, tab, line feed, vertical tab, form feed, carriage return
/// and escape.
pub open spec fn escape_value(c: char) -> Option<u8> {
    if c == '0' {
        Some(0)
    } else if c == 'a' {
        Some(7)
    } else if c == 'b' {
        Some(8)
    } else if c == 't' {
        Some(9)
    } else if c == 'n' {
        Some(10)
    } else if c == 'v' {
        Some(11)
    } else if c == 'f' {
        Some(12)
    } else if c == 'r' {
        Some(13)
    } else if c == 'e' {
        Some(27)
    } else {
        None
    }
}

/// The byte a quoted character gives: one ASCII character, or a backslash and
/// an escape letter, between single quotes.
pub open spec fn quoted_value(s: Seq<char>) -> Option<u8> {
    if s.len() >= 2 && s[0] == '\'' && s.last() == '\'' {
        let inner = s.subrange(1, s.len() - 1);
        if inner.len() == 1 && (inner[0] as u32) < 128 {
            Some(inner[0] as u32 as u8)
        } else if inner.len() == 2 && inner[0] == '\\' {
            escape_value(inner[1])
        } else {
            None
        }
    } else {
        None
    }
}

/// The policy that a text names, tried in this order: the word "unchanged"
/// (any ASCII case), a decimal byte, a quoted character.
pub open spec fn parse_eof_spec(s: Seq<char>) -> Option<EofIndicator> {
    if is_unchanged_word(s) {
        Some(EofIndicator::Unchanged)
    } else if number_value(s) is Some {
        Some(EofIndicator::Char(number_value(s)->0))
    } else if quoted_value(s) is Some {
        Some(EofIndicator::Char(quoted_value(s)->0))
    } else {
        None
    }
}

/// A text that names no end-of-input policy.
#[derive(Clone, Copy, Debug, PartialEq, Eq, Structural)]
pub struct EofParseError;

/// The characters of `s`, in order.
fn chars_of(s: &str) -> (r: Vec<char>)
    ensures
        r@ == s@,
{
    let n = s.unicode_len();
    let mut r: Vec<char> = Vec::new();
    let mut i: usize = 0;
    while i < n
        invariant
            n == s@.len(),
            i <= n,
            r@ == s@.subrange(0, i as int),
        decreases n - i,
    {
        r.push(s.get_char(i));
        i = i + 1;
    }
    assert(r@ =~= s@);
    r
}

/// Whether `cs` is the word "unchanged" in any ASCII case.
fn is_unchanged(cs: &Vec<char>) -> (r: bool)
    ensures
        r == is_unchanged_word(cs@),
{
    let word = ['u', 'n', 'c', 'h', 'a', 'n', 'g', 'e', 'd'];
    if cs.len() != 9 {
        return false;
    }
    let mut i: usize = 0;
    while i < 9
        invariant
            cs@.len() == 9,
            word@ == unchanged_word(),
            i <= 9,
            forall|k: int| 0 <= k < i ==> same_letter(#[trigger] cs@[k], unchanged_word()[k]),
        decreases 9 - i,
    {
        let c = cs[i];
        let t = word[i];
        if !(c == t || ((t as u32) >= 32 && (c as u32) == (t as u32) - 32)) {
            return false;
        }
        i = i + 1;
    }
    true
}

/// The value of the digits `cs[from..]` when they are all digits and write a
/// number of at most 255; `None` otherwise.
fn small_decimal(cs: &Vec<char>, from: usize) -> (r: Option<u8>)
    requires
        from <= cs@.len(),
    ensures
        ({
            let s = cs@.subrange(from as int, cs@.len() as int);
            match r {
                Some(v) => all_digits(s) && decimal_value(s) <= 255 && v as nat == decimal_value(s),
                None => !(all_digits(s) && decimal_value(s) <= 255),
            }
        }),
{
    let n = cs.len();
    if from >= n {
        return None;
    }
    let mut i: usize = from;
    let mut v: u32 = 0;
    while i < n
        invariant
            n == cs@.len(),
            from <= i <= n,
            v <= 255,
            forall|k: int| from <= k < i ==> is_digit(#[trigger] cs@[k]),
            v as nat == decimal_value(cs@.subrange(from as int, i as int)),
        decreases n - i,
    {
        let c = cs[i];
        let ghost pre = cs@.subrange(from as int, i as int);
        let ghost next = cs@.subrange(from as int, i + 1);
        assert(next.drop_last() =~= pre);
        if !('0' <= c && c <= '9') {
            assert(!is_digit(cs@.subrange(from as int, n as int)[i - from]));
            return None;
        }
        let w = v * 10 + (c as u32 - '0' as u32);
        if w > 255 {
            proof {
                lemma_decimal_grows(cs@.subrange(from as int, n as int), i + 1 - from);
                assert(cs@.subrange(from as int, n as int).subrange(0, i + 1 - from) =~= next);
            }
            return None;
        }
        v = w;
        i = i + 1;
    }
    assert(cs@.subrange(from as int, i as int) =~= cs@.subrange(from as int, n as int));
    Some(v as u8)
}

/// Appending digits never makes a decimal number smaller.
proof fn lemma_decimal_grows(s: Seq<char>, k: int)
    requires
        0 <= k <= s.len(),
    ensures
        decimal_value(s.subrange(0, k)) <= decimal_value(s),
    decreases s.len() - k,
{
    if k < s.len() {
        lemma_decimal_grows(s, k + 1);
        let longer = s.subrange(0, k + 1);
        assert(longer.drop_last() =~= s.subrange(0, k));
        assert(decimal_value(longer) == decimal_value(s.subrange(0, k)) * 10 + digit(longer.last()));
    } else {
        assert(s.subrange(0, k) =~= s);
    }
}

/// Parses the textual form of an end-of-input policy: the word "unchanged" in
/// any ASCII case; a decimal unsigned byte, with an optional `+`; a decimal
/// signed byte down to -128, taken as its two's-complement bits; or one ASCII
/// character, or a backslash and one of the letters `0 a b t n v f r e`,
/// between single quotes.
pub fn parse_eof(input: &str) -> (r: Result<EofIndicator, EofParseError>)
    ensures
        match parse_eof_spec(input@) {
            Some(v) => r == Ok::<EofIndicator, EofParseError>(v),
            None => r == Err::<EofIndicator, EofParseError>(EofParseError),
        },
{
    let cs = chars_of(input);
    let n = cs.len();
    if is_unchanged(&cs) {
        return Ok(EofIndicator::Unchanged);
    }
    match small_decimal(&cs, 0) {
        Some(v) => {
            assert(cs@.subrange(0, n as int) =~= cs@);
            return Ok(EofIndicator::Char(v));
        },
        None => {
            assert(cs@.subrange(0, n as int) =~= cs@);
        },
    }
    if n >= 1 && cs[0] == '+' {
        if let Some(v) = small_decimal(&cs, 1) {
            return Ok(EofIndicator::Char(v));
        }
    }
    if n >= 1 && cs[0] == '-' {
        if let Some(v) = small_decimal(&cs, 1) {
            if v <= 128 {
                let b: u8 = if v == 0 {
                    0
                } else {
                    (256 - v as u32) as u8
                };
                return Ok(EofIndicator::Char(b));
            }
        }
    }
    if n >= 2 && cs[0] == '\'' && cs[n - 1] == '\'' {
        if n == 3 && (cs[1] as u32) < 128 {
            return Ok(EofIndicator::Char(cs[1] as u32 as u8));
        }
        if n == 4 && cs[1] == '\\' {
            let e = cs[2];
            let v: u8 = if e == '0' {
                0
            } else if e == 'a' {
                7
            } else if e == 'b' {
                8
            } else if e == 't' {
                9
            } else if e == 'n' {
                10
            } else if e == 'v' {
                11
            } else if e == 'f' {
                12
            } else if e == 'r' {
                13
            } else if e == 'e' {
                27
            } else {
                return Err(EofParseError);
            };
            return Ok(EofIndicator::Char(v));
        }
    }
    Err(EofParseError)
}

impl std::str::FromStr for EofIndicator {
    type Err = EofParseError;

    fn from_str(s: &str) -> (r: Result<EofIndicator, EofParseError>)
        ensures
            match parse_eof_spec(s@) {
                Some(v) => r == Ok::<EofIndicator, EofParseError>(v),
                None => r == Err::<EofIndicator, EofParseError>(EofParseError),
            },
    {
        parse_eof(s)
    }
}

} // verus!
