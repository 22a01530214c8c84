use vstd::prelude::*;

verus! {

/// A board coordinate: column `x` and row `y`, both counted from 1.
#[derive(Clone, Copy, Debug, PartialEq, Eq, Structural, Hash)]
pub struct Position(pub u32, pub u32);

impl Position {
    pub fn x(&self) -> (r: u32)
        ensures
            r == self.0,
    {
        self.0
    }

    pub fn y(&self) -> (r: u32)
        ensures
            r == self.1,
    {
        self.1
    }

    /// Reads a coordinate written as one column letter and a decimal row,
    /// such as `D4` or `t19`; `None` when the text is not of that form or
    /// the row does not fit in a `u32`.
    pub fn from_notation(s: &str) -> (r: Option<Position>)
        ensures
            r == notation_position(s@),
    {
        let n = s.unicode_len();
        if n < 2 {
            return None;
        }
        let letter = s.get_char(0);
        if !(('a' <= letter && letter <= 'z') || ('A' <= letter && letter <= 'Z')) {
            return None;
        }
        let ghost digits = s@.subrange(1, s@.len() as int);
        let mut value: u32 = 0;
        let mut i: usize = 1;
        while i < n
            invariant
                n == s@.len(),
                1 <= i <= n,
                digits == s@.subrange(1, n as int),
                forall|j: int| 1 <= j < i ==> is_digit(#[trigger] s@[j]),
                value == digits_value(s@.subrange(1, i as int)),
            decreases n - i,
        {
            let c = s.get_char(i);
            if !('0' <= c && c <= '9') {
                assert(!is_digit(digits[i - 1]));
                return None;
            }
            let d: u32 = (c as u32) - ('0' as u32);
            proof {
                assert(s@.subrange(1, i + 1).drop_last() == s@.subrange(1, i as int));
            }
            if value > (u32::MAX - d) / 10 {
                proof {
                    assert(s@.subrange(1, i + 1).last() == c);
                    assert(digits_value(s@.subrange(1, i + 1)) > u32::MAX) by (nonlinear_arith)
                        requires
                            value > (u32::MAX - d) / 10,
                            d <= 9,
                            digits_value(s@.subrange(1, i + 1)) == value * 10 + d,
                    ;
                    assert(s@.subrange(1, i + 1) == digits.subrange(0, i as int));
                    lemma_digits_prefix_bound(digits, i as int);
                }
                return None;
            }
            value = value * 10 + d;
            i = i + 1;
        }
        proof {
            assert(s@.subrange(1, n as int) == digits);
            assert forall|j: int| 0 <= j < digits.len() implies is_digit(#[trigger] digits[j]) by {
                assert(digits[j] == s@[j + 1]);
            }
        }
        let x: u32 = letter_column_exec(letter);
        Some(Position(x, value))
    }
}

/// Whether `c` is an ASCII decimal digit.
pub open spec fn is_digit(c: char) -> bool {
    '0' <= c <= '9'
}

/// Whether `c` is an ASCII letter.
pub open spec fn is_letter(c: char) -> bool {
    ('a' <= c <= 'z') || ('A' <= c <= 'Z')
}

/// The number that a sequence of decimal digits spells.
pub open spec fn digits_value(s: Seq<char>) -> int
    decreases s.len(),
{
    if s.len() == 0 {
        0
    } else {
        digits_value(s.drop_last()) * 10 + (s.last() as int - '0' as int)
    }
}

/// The column that a letter names: `a` is 1, the letter `i` is skipped, so
/// that `j` is 9 and `z` is 25; upper case reads as lower case.
pub open spec fn letter_column(c: char) -> int {
    let v = if 'a' <= c <= 'z' {
        c as int - 'a' as int + 1
    } else {
        c as int - 'A' as int + 1
    };
    if v >= 9 {
        v - 1
    } else {
        v
    }
}

/// The position that coordinate text names, if it is one letter followed
/// by at least one digit and the row fits in a `u32`.
pub open spec fn notation_position(s: Seq<char>) -> Option<Position> {
    let digits = s.subrange(1, s.len() as int);
    if s.len() >= 2 && is_letter(s[0]) && (forall|j: int| 0 <= j < digits.len() ==> is_digit(
        #[trigger] digits[j],
    )) && digits_value(digits) <= u32::MAX {
        Some(Position(letter_column(s[0]) as u32, digits_value(digits) as u32))
    } else {
        None
    }
}

/// A run of digits is worth at least as much as any of its prefixes.
proof fn lemma_digits_prefix_bound(s: Seq<char>, k: int)
    requires
        0 <= k <= s.len(),
        forall|j: int| 0 <= j < k ==> is_digit(#[trigger] s[j]),
        (forall|j: int| 0 <= j < s.len() ==> is_digit(#[trigger] s[j])) ==> digits_value(
            s.subrange(0, k),
        ) > u32::MAX,
    ensures
        (forall|j: int| 0 <= j < s.len() ==> is_digit(#[trigger] s[j])) ==> digits_value(s)
            > u32::MAX,
    decreases s.len() - k,
{
    if forall|j: int| 0 <= j < s.len() ==> is_digit(#[trigger] s[j]) {
        if k < s.len() {
            let p = s.subrange(0, k + 1);
            assert(p.drop_last() == s.subrange(0, k));
            assert(is_digit(p.last()));
            assert(digits_value(p) > u32::MAX) by (nonlinear_arith)
                requires
                    digits_value(p) == digits_value(s.subrange(0, k)) * 10 + (p.last() as int
                        - '0' as int),
                    digits_value(s.subrange(0, k)) > u32::MAX,
                    p.last() as int - '0' as int >= 0,
            ;
            lemma_digits_prefix_bound(s, k + 1);
        } else {
            assert(s.subrange(0, k) == s);
        }
    }
}

fn letter_column_exec(c: char) -> (r: u32)
    requires
        is_letter(c),
    ensures
        r == letter_column(c),
{
    let v: u32 = if 'a' <= c && c <= 'z' {
        (c as u32) - ('a' as u32) + 1
    } else {
        (c as u32) - ('A' as u32) + 1
    };
    if v >= 9 {
        v - 1
    } else {
        v
    }
}

impl From<(u32, u32)> for Position {
    fn from(pos: (u32, u32)) -> (r: Position) {
        Position(pos.0, pos.1)
    }
}

impl vstd::std_specs::convert::FromSpecImpl<(u32, u32)> for Position {
    open spec fn obeys_from_spec() -> bool {
        true
    }

    open spec fn from_spec(pos: (u32, u32)) -> Position {
        Position(pos.0, pos.1)
    }
}

impl From<(u8, u8)> for Position {
    fn from(pos: (u8, u8)) -> (r: Position) {
        Position(pos.0 as u32, pos.1 as u32)
    }
}

impl vstd::std_specs::convert::FromSpecImpl<(u8, u8)> for Position {
    open spec fn obeys_from_spec() -> bool {
        true
    }

    open spec fn from_spec(pos: (u8, u8)) -> Position {
        Position(pos.0 as u32, pos.1 as u32)
    }
}

impl From<(i32, i32)> for Position {
    fn from(pos: (i32, i32)) -> (r: Position) {
        Position(pos.0 as u32, pos.1 as u32)
    }
}

impl vstd::std_specs::convert::FromSpecImpl<(i32, i32)> for Position {
    open spec fn obeys_from_spec() -> bool {
        true
    }

    open spec fn from_spec(pos: (i32, i32)) -> Position {
        Position(pos.0 as u32, pos.1 as u32)
    }
}

impl From<Position> for (u8, u8) {
    fn from(pos: Position) -> (r: (u8, u8)) {
        (pos.0 as u8, pos.1 as u8)
    }
}

impl vstd::std_specs::convert::FromSpecImpl<Position> for (u8, u8) {
    open spec fn obeys_from_spec() -> bool {
        true
    }

    open spec fn from_spec(pos: Position) -> (u8, u8) {
        (pos.0 as u8, pos.1 as u8)
    }
}

/// Text that is not a coordinate gives position (0, 0), which lies off
/// every board.
impl From<&str> for Position {
    fn from(s: &str) -> (r: Position) {
        match Position::from_notation(s) {
            Some(p) => p,
            None => Position(0, 0),
        }
    }
}

impl vstd::std_specs::convert::FromSpecImpl<&str> for Position {
    open spec fn obeys_from_spec() -> bool {
        true
    }

    open spec fn from_spec(s: &str) -> Position {
        match notation_position(s@) {
            Some(p) => p,
            None => Position(0, 0),
        }
    }
}

/// The character of a decimal digit.
pub open spec fn digit_char(d: nat) -> char {
    ('0' as int + d) as char
}

/// The decimal text of a number, without leading zeros.
pub open spec fn decimal(n: nat) -> Seq<char>
    decreases n,
{
    if n < 10 {
        seq![digit_char(n)]
    } else {
        decimal(n / 10).push(digit_char(n % 10))
    }
}

fn digit_text(d: u32) -> (r: &'static str)
    requires
        d < 10,
    ensures
        r@ == seq![digit_char(d as nat)],
{
    proof {
        reveal_strlit("0");
        reveal_strlit("1");
        reveal_strlit("2");
        reveal_strlit("3");
        reveal_strlit("4");
        reveal_strlit("5");
        reveal_strlit("6");
        reveal_strlit("7");
        reveal_strlit("8");
        reveal_strlit("9");
    }
    match d {
        0 => "0",
        1 => "1",
        2 => "2",
        3 => "3",
        4 => "4",
        5 => "5",
        6 => "6",
        7 => "7",
        8 => "8",
        _ => "9",
    }
}

/// The decimal text of `n`.
pub fn decimal_text(n: u32) -> (r: String)
    ensures
        r@ == decimal(n as nat),
    decreases n,
{
    if n < 10 {
        String::from_str(digit_text(n))
    } else {
        let mut r = decimal_text(n / 10);
        r.append(digit_text(n % 10));
        r
    }
}

impl Position {
    /// The position as text: its column, a dash and its row, as in `3-4`.
    pub fn to_text(&self) -> (r: String)
        ensures
            r@ == decimal(self.0 as nat) + seq!['-'] + decimal(self.1 as nat),
    {
        proof {
            reveal_strlit("-");
        }
        let mut r = decimal_text(self.0);
        r.append("-");
        let y = decimal_text(self.1);
        r.append(y.as_str());
        r
    }
}

} // verus!
