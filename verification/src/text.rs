//! Reading and writing numbers and other small pieces of text.
use vstd::prelude::*;

verus! {

// ---------------------------------------------------------------------------
// White space
// ---------------------------------------------------------------------------
/// The characters with the Unicode property `White_Space`.
pub open spec fn is_space(c: char) -> bool {
    let u = c as u32;
    ||| 0x09 <= u <= 0x0D
    ||| u == 0x20
    ||| u == 0x85
    ||| u == 0xA0
    ||| u == 0x1680
    ||| 0x2000 <= u <= 0x200A
    ||| u == 0x2028
    ||| u == 0x2029
    ||| u == 0x202F
    ||| u == 0x205F
    ||| u == 0x3000
}

/// Text without the white space at its start.
pub open spec fn trimmed_start(s: Seq<char>) -> Seq<char>
    decreases s.len(),
{
    if s.len() > 0 && is_space(s[0]) {
        trimmed_start(s.skip(1))
    } else {
        s
    }
}

/// Text without the white space at its end.
pub open spec fn trimmed_end(s: Seq<char>) -> Seq<char>
    decreases s.len(),
{
    if s.len() > 0 && is_space(s.last()) {
        trimmed_end(s.drop_last())
    } else {
        s
    }
}

/// Text without the white space around it.
pub open spec fn trimmed(s: Seq<char>) -> Seq<char> {
    trimmed_end(trimmed_start(s))
}

proof fn lemma_trimmed_start(s: Seq<char>)
    ensures
        trimmed_start(s).len() == 0 || !is_space(trimmed_start(s)[0]),
    decreases s.len(),
{
    if s.len() > 0 && is_space(s[0]) {
        lemma_trimmed_start(s.skip(1));
    }
}

proof fn lemma_trimmed_end(s: Seq<char>)
    ensures
        trimmed_end(s).len() == 0 || (!is_space(trimmed_end(s).last()) && trimmed_end(s)[0] == s[0]),
    decreases s.len(),
{
    if s.len() > 0 && is_space(s.last()) {
        lemma_trimmed_end(s.drop_last());
    }
}

/// Trimming twice is trimming once.
pub proof fn lemma_trimmed_twice(s: Seq<char>)
    ensures
        trimmed(trimmed(s)) == trimmed(s),
{
    lemma_trimmed_start(s);
    lemma_trimmed_end(trimmed_start(s));
}

fn space(c: char) -> (yes: bool)
    ensures
        yes == is_space(c),
{
    let u: u32 = c as u32;
    (0x09 <= u && u <= 0x0D) || u == 0x20 || u == 0x85 || u == 0xA0 || u == 0x1680 || (0x2000 <= u
        && u <= 0x200A) || u == 0x2028 || u == 0x2029 || u == 0x202F || u == 0x205F || u == 0x3000
}

/// The characters of some text.
pub fn chars_of(s: &str) -> (chars: Vec<char>)
    ensures
        chars@ == s@,
{
    let n: usize = s.unicode_len();
    let mut chars: Vec<char> = Vec::with_capacity(n);
    while chars.len() < n
        invariant
            n == s@.len(),
            chars.len() <= n,
            forall|i: int| 0 <= i < chars.len() ==> chars@[i] == s@[i],
        decreases n - chars.len(),
    {
        let c = s.get_char(chars.len());
        chars.push(c);
    }
    assert(chars@ =~= s@);
    chars
}

/// Text without the white space around it.
pub fn trim(s: &str) -> (t: &str)
    ensures
        t@ == trimmed(s@),
{
    let chars = chars_of(s);
    let n: usize = chars.len();
    let mut from: usize = 0;
    assert(s@.skip(0) =~= s@);
    while from < n && space(chars[from])
        invariant
            from <= n,
            n == chars.len(),
            chars@ == s@,
            trimmed_start(s@) == trimmed_start(s@.skip(from as int)),
        decreases n - from,
    {
        assert(s@.skip(from as int)[0] == s@[from as int]);
        assert(s@.skip(from as int).skip(1) =~= s@.skip(from + 1));
        from = from + 1;
    }
    let ghost rest = s@.skip(from as int);
    assert(trimmed_start(s@) == rest) by {
        if from < n {
            assert(rest[0] == s@[from as int]);
        }
    }
    let mut to: usize = n;
    assert(rest.take((to - from) as int) =~= rest);
    while to > from && space(chars[to - 1])
        invariant
            from <= to <= n,
            n == chars.len(),
            chars@ == s@,
            rest == s@.skip(from as int),
            trimmed_end(rest) == trimmed_end(rest.take((to - from) as int)),
        decreases to,
    {
        assert(rest.take((to - from) as int).last() == s@[to - 1]);
        assert(rest.take((to - from) as int).drop_last() =~= rest.take((to - 1 - from) as int));
        to = to - 1;
    }
    proof {
        let kept = rest.take((to - from) as int);
        if to > from {
            assert(kept.last() == s@[to - 1]);
        }
        assert(s@.subrange(from as int, to as int) =~= kept);
    }
    s.substring_char(from, to)
}

// ---------------------------------------------------------------------------
// Numbers
// ---------------------------------------------------------------------------
/// The value of a digit in a radix of at most 16.
pub open spec fn digit_value(c: char, radix: int) -> Option<int> {
    let u = c as u32;
    let d = if 0x30 <= u <= 0x39 {
        u - 0x30
    } else if 0x41 <= u <= 0x46 {
        u - 0x41 + 10
    } else if 0x61 <= u <= 0x66 {
        u - 0x61 + 10
    } else {
        99
    };
    if d < radix {
        Some(d)
    } else {
        None
    }
}

/// The value of a run of digits; none if some character is not a digit.
pub open spec fn digits_value(s: Seq<char>, radix: int) -> Option<int>
    decreases s.len(),
{
    if s.len() == 0 {
        Some(0)
    } else {
        match (digits_value(s.drop_last(), radix), digit_value(s.last(), radix)) {
            (Some(v), Some(d)) => Some(v * radix + d),
            _ => None,
        }
    }
}

/// The unsigned 64-bit number that some text denotes: at least one digit, after an
/// optional plus sign.
pub open spec fn number(s: Seq<char>, radix: int) -> Option<u64> {
    let digits = if s.len() > 0 && s[0] == '+' {
        s.skip(1)
    } else {
        s
    };
    if digits.len() == 0 {
        None
    } else {
        match digits_value(digits, radix) {
            Some(v) => if v <= u64::MAX {
                Some(v as u64)
            } else {
                None
            },
            None => None,
        }
    }
}

fn digit(c: char, radix: u32) -> (d: Option<u64>)
    requires
        radix <= 16,
    ensures
        match d {
            Some(v) => digit_value(c, radix as int) == Some(v as int) && v < radix,
            None => digit_value(c, radix as int) is None,
        },
{
    let u: u32 = c as u32;
    let d: u32 = if 0x30 <= u && u <= 0x39 {
        u - 0x30
    } else if 0x41 <= u && u <= 0x46 {
        u - 0x41 + 10
    } else if 0x61 <= u && u <= 0x66 {
        u - 0x61 + 10
    } else {
        99
    };
    if d < radix {
        Some(d as u64)
    } else {
        None
    }
}

/// More digits never make a number smaller.
proof fn lemma_digits_grow(s: Seq<char>, k: int, radix: int)
    requires
        0 <= k <= s.len(),
        1 <= radix,
    ensures
        digits_value(s.take(k), radix) is None ==> digits_value(s, radix) is None,
        digits_value(s.take(k), radix) matches Some(v) ==> 0 <= v && (digits_value(s, radix) matches Some(
            t,
        ) ==> v <= t),
    decreases s.len(),
{
    if k == s.len() {
        assert(s.take(k) =~= s);
        if s.len() > 0 {
            lemma_digits_grow(s.drop_last(), s.len() - 1, radix);
            assert(s.drop_last().take(s.len() - 1) =~= s.drop_last());
            if let Some(v) = digits_value(s.drop_last(), radix) {
                assert(0 <= v * radix) by (nonlinear_arith)
                    requires
                        0 <= v,
                        1 <= radix,
                ;
            }
        }
    } else {
        lemma_digits_grow(s.drop_last(), k, radix);
        assert(s.drop_last().take(k) =~= s.take(k));
        if let Some(v) = digits_value(s.drop_last(), radix) {
            if digits_value(s.take(k), radix) is Some {
                assert(v <= v * radix) by (nonlinear_arith)
                    requires
                        0 <= v,
                        1 <= radix,
                ;
            }
        }
    }
}

/// Read the number that the characters from `from` on denote.
fn read_number(chars: &Vec<char>, from: usize, radix: u32) -> (value: Option<u64>)
    requires
        from <= chars.len(),
        2 <= radix <= 16,
    ensures
        value == number(chars@.skip(from as int), radix as int),
{
    let ghost text = chars@.skip(from as int);
    let n: usize = chars.len();
    let mut at: usize = from;
    if at < n && chars[at] == '+' {
        at = at + 1;
    }
    let ghost digits = chars@.skip(at as int);
    proof {
        if from < n {
            assert(text[0] == chars@[from as int]);
            assert(text.skip(1) =~= chars@.skip(from + 1));
        }
        assert(digits == (if text.len() > 0 && text[0] == '+' {
            text.skip(1)
        } else {
            text
        }));
    }
    if at == n {
        return None;
    }
    let start: usize = at;
    let mut value: u64 = 0;
    assert(digits.take(0) =~= Seq::<char>::empty());
    while at < n
        invariant
            start <= at <= n,
            n == chars.len(),
            2 <= radix <= 16,
            text == chars@.skip(from as int),
            digits == chars@.skip(start as int),
            digits.len() == n - start,
            digits.len() > 0,
            number(text, radix as int) == (match digits_value(digits, radix as int) {
                Some(v) => if v <= u64::MAX {
                    Some(v as u64)
                } else {
                    None
                },
                None => None,
            }),
            digits_value(digits.take((at - start) as int), radix as int) == Some(value as int),
        decreases n - at,
    {
        let ghost done = digits.take((at - start) as int);
        let ghost more = digits.take((at + 1 - start) as int);
        proof {
            assert(more.drop_last() =~= done);
            assert(more.last() == chars@[at as int]);
            lemma_digits_grow(digits, (at + 1 - start) as int, radix as int);
        }
        match digit(chars[at], radix) {
            Some(d) => {
                let wide: u128 = value as u128;
                assert(0 <= wide * radix <= 0xFFFF_FFFF_FFFF_FFFF * 16) by (nonlinear_arith)
                    requires
                        0 <= wide <= 0xFFFF_FFFF_FFFF_FFFF,
                        radix <= 16,
                ;
                let next: u128 = wide * radix as u128 + d as u128;
                if next > 0xFFFF_FFFF_FFFF_FFFF {
                    return None;
                }
                value = next as u64;
            },
            None => {
                return None;
            },
        }
        at = at + 1;
    }
    assert(digits.take((n - start) as int) =~= digits);
    Some(value)
}

/// Read an unsigned decimal number.
pub fn parse_decimal(s: &str) -> (value: Option<u64>)
    ensures
        value == number(s@, 10),
{
    let chars = chars_of(s);
    assert(chars@.skip(0) =~= s@);
    read_number(&chars, 0, 10)
}

/// The seed that some text denotes: decimal, or hexadecimal after `0x` or `0X`,
/// with white space around it allowed.
pub open spec fn seed_of(s: Seq<char>) -> Option<u64> {
    let t = trimmed(s);
    if t.len() >= 2 && t[0] == '0' && (t[1] == 'x' || t[1] == 'X') {
        number(t.skip(2), 16)
    } else {
        number(t, 10)
    }
}

/// Read a world seed.
pub fn parse_seed(s: &str) -> (seed: Option<u64>)
    ensures
        seed == seed_of(s@),
{
    let t = trim(s);
    let chars = chars_of(t);
    if chars.len() >= 2 && chars[0] == '0' && (chars[1] == 'x' || chars[1] == 'X') {
        read_number(&chars, 2, 16)
    } else {
        assert(chars@.skip(0) =~= chars@);
        read_number(&chars, 0, 10)
    }
}

// ---------------------------------------------------------------------------
// Writing numbers
// ---------------------------------------------------------------------------
/// The digit of a value below 16, in lower case.
pub open spec fn digit_char(d: int) -> char {
    if d < 10 {
        (0x30 + d) as char
    } else {
        (0x61 + d - 10) as char
    }
}

/// A number in decimal notation.
pub open spec fn decimal(n: nat) -> Seq<char>
    decreases n,
{
    if n < 10 {
        seq![digit_char(n as int)]
    } else {
        decimal(n / 10).push(digit_char((n % 10) as int))
    }
}

/// The last `k` hexadecimal digits of a number.
pub open spec fn hex_digits(n: nat, k: nat) -> Seq<char>
    decreases k,
{
    if k == 0 {
        Seq::empty()
    } else {
        hex_digits(n / 16, (k - 1) as nat).push(digit_char((n % 16) as int))
    }
}

/// A seed as it is shown and edited: sixteen hexadecimal digits after `0x`.
pub open spec fn shown_seed(seed: u64) -> Seq<char> {
    "0x"@ + hex_digits(seed as nat, 16)
}

fn digit_text(d: u64) -> (text: &'static str)
    requires
        d < 16,
    ensures
        text@ == seq![digit_char(d as int)],
{
    match d {
        0 => {
            proof {
                reveal_strlit("0");
            }
            "0"
        },
        1 => {
            proof {
                reveal_strlit("1");
            }
            "1"
        },
        2 => {
            proof {
                reveal_strlit("2");
            }
            "2"
        },
        3 => {
            proof {
                reveal_strlit("3");
            }
            "3"
        },
        4 => {
            proof {
                reveal_strlit("4");
            }
            "4"
        },
        5 => {
            proof {
                reveal_strlit("5");
            }
            "5"
        },
        6 => {
            proof {
                reveal_strlit("6");
            }
            "6"
        },
        7 => {
            proof {
                reveal_strlit("7");
            }
            "7"
        },
        8 => {
            proof {
                reveal_strlit("8");
            }
            "8"
        },
        9 => {
            proof {
                reveal_strlit("9");
            }
            "9"
        },
        10 => {
            proof {
                reveal_strlit("a");
            }
            "a"
        },
        11 => {
            proof {
                reveal_strlit("b");
            }
            "b"
        },
        12 => {
            proof {
                reveal_strlit("c");
            }
            "c"
        },
        13 => {
            proof {
                reveal_strlit("d");
            }
            "d"
        },
        14 => {
            proof {
                reveal_strlit("e");
            }
            "e"
        },
        _ => {
            proof {
                reveal_strlit("f");
            }
            "f"
        },
    }
}

/// Write a number in decimal notation.
pub fn decimal_text(n: u64) -> (text: String)
    ensures
        text@ == decimal(n as nat),
    decreases n,
{
    if n < 10 {
        digit_text(n).to_owned()
    } else {
        let mut text = decimal_text(n / 10);
        text.append(digit_text(n % 10));
        assert(text@ =~= decimal(n as nat));
        text
    }
}

fn hex_text(n: u64, k: u32) -> (text: String)
    ensures
        text@ == hex_digits(n as nat, k as nat),
    decreases k,
{
    if k == 0 {
        String::new()
    } else {
        let mut text = hex_text(n / 16, k - 1);
        text.append(digit_text(n % 16));
        assert(text@ =~= hex_digits(n as nat, k as nat));
        text
    }
}

/// Write a seed as it is shown and edited.
pub fn seed_text(seed: u64) -> (text: String)
    ensures
        text@ == shown_seed(seed),
{
    let mut text = "0x".to_owned();
    let digits = hex_text(seed, 16);
    text.append(digits.as_str());
    text
}

/// A digit reads back from its character, which is neither a sign nor a space.
pub proof fn lemma_digit_char(d: int, radix: int)
    requires
        0 <= d < radix <= 16,
    ensures
        digit_value(digit_char(d), radix) == Some(d),
        digit_char(d) != '+',
        !is_space(digit_char(d)),
{
}

/// A number reads back from its decimal notation.
pub proof fn lemma_decimal_round_trip(n: u64)
    ensures
        number(decimal(n as nat), 10) == Some(n),
{
    lemma_decimal_value(n as nat);
}

proof fn lemma_decimal_value(n: nat)
    ensures
        decimal(n).len() > 0,
        decimal(n)[0] != '+',
        digits_value(decimal(n), 10) == Some(n as int),
    decreases n,
{
    if n < 10 {
        lemma_digit_char(n as int, 10);
        assert(decimal(n).drop_last() =~= Seq::<char>::empty());
        assert(digits_value(decimal(n).drop_last(), 10) == Some(0int));
    } else {
        lemma_decimal_value(n / 10);
        lemma_digit_char((n % 10) as int, 10);
        assert(decimal(n).drop_last() =~= decimal(n / 10));
    }
}

spec fn pow16(k: nat) -> nat
    decreases k,
{
    if k == 0 {
        1
    } else {
        16 * pow16((k - 1) as nat)
    }
}

proof fn lemma_hex_value(n: nat, k: nat)
    requires
        n < pow16(k),
    ensures
        hex_digits(n, k).len() == k,
        digits_value(hex_digits(n, k), 16) == Some(n as int),
        forall|i: int|
            0 <= i < k ==> hex_digits(n, k)[i] != '+' && !is_space(#[trigger] hex_digits(n, k)[i]),
    decreases k,
{
    if k > 0 {
        lemma_hex_value(n / 16, (k - 1) as nat);
        lemma_digit_char((n % 16) as int, 16);
        assert(hex_digits(n, k).drop_last() =~= hex_digits(n / 16, (k - 1) as nat));
    }
}

/// A seed reads back from what is shown of it.
pub proof fn lemma_seed_round_trip(seed: u64)
    ensures
        seed_of(shown_seed(seed)) == Some(seed),
{
    assert(pow16(16) == 0x1_0000_0000_0000_0000) by {
        reveal_with_fuel(pow16, 17);
    }
    lemma_hex_value(seed as nat, 16);
    reveal_strlit("0x");
    let digits = hex_digits(seed as nat, 16);
    let shown = shown_seed(seed);
    assert(shown[0] == '0' && shown[1] == 'x');
    assert(shown.last() == digits[15]);
    assert(trimmed(shown) == shown);
    assert(shown.skip(2) =~= digits);
}

/// What is wrong with a determinism test specification.
#[derive(Clone, Copy, Debug, PartialEq, Eq, Structural)]
pub enum TestSpecError {
    /// There is no colon.
    NotSeedTicks,
    /// What precedes the first colon is not a number.
    BadSeed,
    /// What follows the first colon is not a number.
    BadTicks,
}

/// Position of the first colon.
pub open spec fn colon_at(s: Seq<char>) -> Option<int>
    decreases s.len(),
{
    if s.len() == 0 {
        None
    } else {
        match colon_at(s.drop_last()) {
            Some(k) => Some(k),
            None => if s.last() == ':' {
                Some(s.len() - 1)
            } else {
                None
            },
        }
    }
}

/// The seed and the number of ticks in a text of the form `SEED:TICKS`.
pub open spec fn test_spec(s: Seq<char>) -> Result<(u64, u64), TestSpecError> {
    match colon_at(s) {
        None => Err(TestSpecError::NotSeedTicks),
        Some(k) => match number(s.take(k), 10) {
            None => Err(TestSpecError::BadSeed),
            Some(seed) => match number(s.skip(k + 1), 10) {
                None => Err(TestSpecError::BadTicks),
                Some(ticks) => Ok((seed, ticks)),
            },
        },
    }
}

proof fn lemma_colon_prefix(s: Seq<char>, k: int)
    requires
        0 <= k <= s.len(),
    ensures
        colon_at(s.take(k)) matches Some(p) ==> 0 <= p < k && colon_at(s) == Some(p),
    decreases s.len(),
{
    if k == s.len() {
        assert(s.take(k) =~= s);
        if s.len() > 0 {
            lemma_colon_prefix(s.drop_last(), s.len() - 1);
            assert(s.drop_last().take(s.len() - 1) =~= s.drop_last());
        }
    } else {
        lemma_colon_prefix(s.drop_last(), k);
        assert(s.drop_last().take(k) =~= s.take(k));
    }
}

/// Read a determinism test specification.
pub fn parse_test_spec(spec_text: &str) -> (parsed: Result<(u64, u64), TestSpecError>)
    ensures
        parsed == test_spec(spec_text@),
{
    let chars = chars_of(spec_text);
    let n: usize = chars.len();
    let mut k: usize = 0;
    assert(chars@.take(0) =~= Seq::<char>::empty());
    while k < n && chars[k] != ':'
        invariant
            k <= n,
            n == chars.len(),
            chars@ == spec_text@,
            colon_at(chars@.take(k as int)) is None,
        decreases n - k,
    {
        assert(chars@.take(k + 1).drop_last() =~= chars@.take(k as int));
        k = k + 1;
    }
    if k == n {
        assert(chars@.take(n as int) =~= chars@);
        return Err(TestSpecError::NotSeedTicks);
    }
    proof {
        assert(chars@.take(k + 1).drop_last() =~= chars@.take(k as int));
        lemma_colon_prefix(chars@, k + 1);
        assert(spec_text@.subrange(0, k as int) =~= spec_text@.take(k as int));
        assert(spec_text@.subrange(k + 1, n as int) =~= spec_text@.skip(k + 1));
    }
    let seed = match parse_decimal(spec_text.substring_char(0, k)) {
        Some(v) => v,
        None => {
            return Err(TestSpecError::BadSeed);
        },
    };
    match parse_decimal(spec_text.substring_char(k + 1, n)) {
        Some(ticks) => Ok((seed, ticks)),
        None => Err(TestSpecError::BadTicks),
    }
}

/// Which ticks a determinism test reports: the first five, every tenth and the
/// last.
pub fn reports_tick(tick: u64, last: u64) -> (yes: bool)
    ensures
        yes == (tick <= 5 || tick % 10 == 0 || tick == last),
{
    tick <= 5 || tick % 10 == 0 || tick == last
}

// ---------------------------------------------------------------------------
// File names
// ---------------------------------------------------------------------------
/// A path with a dot and a suffix appended.
pub fn with_extension_suffix(path: &str, suffix: &str) -> (extended: String)
    ensures
        extended@ == path@ + "."@ + suffix@,
{
    let mut extended = path.to_owned();
    extended.append(".");
    extended.append(suffix);
    extended
}

/// Trimming takes the spaces at both ends of a text and nothing else.
pub proof fn lemma_trimmed_is_the_middle(s: Seq<char>) -> (ends: (int, int))
    ensures
        0 <= ends.0 <= ends.1 <= s.len(),
        trimmed(s) == s.subrange(ends.0, ends.1),
        forall|i: int| 0 <= i < ends.0 ==> is_space(#[trigger] s[i]),
        forall|i: int| ends.1 <= i < s.len() ==> is_space(#[trigger] s[i]),
        ends.0 < ends.1 ==> !is_space(s[ends.0]) && !is_space(s[ends.1 - 1]),
{
    let a = lemma_start_of(s);
    let t = trimmed_start(s);
    let b = lemma_end_of(t);
    assert(t.take(b) =~= s.subrange(a, a + b));
    assert forall|i: int| a + b <= i < s.len() implies is_space(#[trigger] s[i]) by {
        assert(t[i - a] == s[i]);
    }
    if b > 0 {
        assert(t[0] == s[a]);
        assert(t[b - 1] == s[a + b - 1]);
    }
    (a, a + b)
}

proof fn lemma_start_of(s: Seq<char>) -> (a: int)
    ensures
        0 <= a <= s.len(),
        trimmed_start(s) == s.skip(a),
        forall|i: int| 0 <= i < a ==> is_space(#[trigger] s[i]),
        a < s.len() ==> !is_space(s[a]),
    decreases s.len(),
{
    if s.len() > 0 && is_space(s[0]) {
        let rest = s.skip(1);
        let a = lemma_start_of(rest);
        assert(rest.skip(a) =~= s.skip(a + 1));
        assert forall|i: int| 0 <= i < a + 1 implies is_space(#[trigger] s[i]) by {
            if i > 0 {
                assert(rest[i - 1] == s[i]);
            }
        }
        if a < rest.len() {
            assert(rest[a] == s[a + 1]);
        }
        a + 1
    } else {
        assert(s.skip(0) =~= s);
        0
    }
}

proof fn lemma_end_of(s: Seq<char>) -> (b: int)
    ensures
        0 <= b <= s.len(),
        trimmed_end(s) == s.take(b),
        forall|i: int| b <= i < s.len() ==> is_space(#[trigger] s[i]),
        b > 0 ==> !is_space(s[b - 1]),
    decreases s.len(),
{
    if s.len() > 0 && is_space(s.last()) {
        let rest = s.drop_last();
        let b = lemma_end_of(rest);
        assert(rest.take(b) =~= s.take(b));
        assert forall|i: int| b <= i < s.len() implies is_space(#[trigger] s[i]) by {
            if i < rest.len() {
                assert(rest[i] == s[i]);
            }
        }
        b
    } else {
        assert(s.take(s.len() as int) =~= s);
        s.len() as int
    }
}

/// A seed and a number of ticks are read from the two sides of the first colon.
pub proof fn lemma_test_specs_are_split_at_the_colon(seed: Seq<char>, ticks: Seq<char>)
    requires
        !seed.contains(':'),
    ensures
        test_spec(seed + seq![':'] + ticks) == (match (number(seed, 10), number(ticks, 10)) {
            (None, _) => Err(TestSpecError::BadSeed),
            (Some(_), None) => Err(TestSpecError::BadTicks),
            (Some(a), Some(b)) => Ok((a, b)),
        }),
        test_spec(seed) == Err::<(u64, u64), TestSpecError>(TestSpecError::NotSeedTicks),
{
    let s = seed + seq![':'] + ticks;
    lemma_no_colon(seed);
    lemma_colon_of(seed, ticks);
    assert(s.take(seed.len() as int) =~= seed);
    assert(s.skip(1 + seed.len() as int) =~= ticks);
}

proof fn lemma_no_colon(s: Seq<char>)
    requires
        !s.contains(':'),
    ensures
        colon_at(s) is None,
    decreases s.len(),
{
    if s.len() > 0 {
        assert(s.contains(s.last()));
        assert forall|i: int| 0 <= i < s.drop_last().len() implies s.drop_last()[i] != ':' by {
            assert(s.contains(s[i]));
        }
        lemma_no_colon(s.drop_last());
    }
}

proof fn lemma_colon_of(seed: Seq<char>, ticks: Seq<char>)
    requires
        !seed.contains(':'),
    ensures
        colon_at(seed + seq![':'] + ticks) == Some(seed.len() as int),
    decreases ticks.len(),
{
    let s = seed + seq![':'] + ticks;
    if ticks.len() == 0 {
        assert(s.drop_last() =~= seed);
        assert(s.last() == ':');
        lemma_no_colon(seed);
    } else {
        assert(s.drop_last() =~= seed + seq![':'] + ticks.drop_last());
        lemma_colon_of(seed, ticks.drop_last());
    }
}

/// Each further digit makes a number as many times larger as the radix says and adds its
/// value; a sign in front changes nothing, and an empty text is no number.
pub proof fn lemma_digits_add_up(s: Seq<char>, d: char, radix: int)
    requires
        s.len() > 0,
        s[0] != '+',
        radix == 10 || radix == 16,
    ensures
        ({
            let more = number(s.push(d), radix);
            match (number(s, radix), digit_value(d, radix)) {
                (Some(v), Some(k)) => more == (if v * radix + k <= u64::MAX {
                    Some((v * radix + k) as u64)
                } else {
                    None
                }),
                _ => more is None,
            }
        }),
        number(seq!['+'] + s, radix) == number(s, radix),
        number(Seq::<char>::empty(), radix) is None,
        number(seq!['+'], radix) is None,
{
    let t = s.push(d);
    assert(t.drop_last() =~= s);
    assert((seq!['+'] + s).skip(1) =~= s);
    assert(seq!['+'].skip(1) =~= Seq::<char>::empty());
    lemma_value_not_negative(s, radix);
    match digits_value(s, radix) {
        Some(v) => {
            if v > u64::MAX {
                assert(v * radix >= v) by (nonlinear_arith)
                    requires
                        v >= 0,
                        radix == 10 || radix == 16,
                ;
            }
        },
        None => {},
    }
}

proof fn lemma_value_not_negative(s: Seq<char>, radix: int)
    requires
        radix == 10 || radix == 16,
    ensures
        digits_value(s, radix) matches Some(v) ==> v >= 0,
    decreases s.len(),
{
    if s.len() > 0 {
        lemma_value_not_negative(s.drop_last(), radix);
    }
}

/// The digits: nought to nine, and in base sixteen the first six letters, large or small.
pub proof fn lemma_digits(c: char)
    ensures
        digit_value(c, 10) == (if '0' <= c <= '9' {
            Some(c as int - '0' as int)
        } else {
            None
        }),
        digit_value(c, 16) == (if '0' <= c <= '9' {
            Some(c as int - '0' as int)
        } else if 'a' <= c <= 'f' {
            Some(c as int - 'a' as int + 10)
        } else if 'A' <= c <= 'F' {
            Some(c as int - 'A' as int + 10)
        } else {
            None
        }),
{
}

/// Of the characters of plain text only the blank and the control characters from the tab to
/// the return are spaces.
pub proof fn lemma_spaces(c: char)
    ensures
        c <= '~' ==> is_space(c) == (c == ' ' || '\t' <= c <= '\r'),
{
}

} // verus!
