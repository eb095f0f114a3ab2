//! Numbers as text: white space, decimal parsing and decimal writing.

use vstd::arithmetic::div_mod::*;
use vstd::arithmetic::power::*;
use vstd::prelude::*;

verus! {

/// Why a text is not a number.
#[derive(Clone, Copy, Debug, PartialEq, Eq, Structural)]
pub enum ParseError {
    /// There is no character at all.
    Empty,
    /// Something other than a digit stands where a digit is expected.
    InvalidDigit,
    /// The digits stand for more than a `u32` holds.
    PosOverflow,
}

/// White space as Unicode defines it.
pub open spec fn is_white_space(c: char) -> bool {
    let n = c as u32;
    ||| 0x09 <= n <= 0x0d
    ||| n == 0x20
    ||| n == 0x85
    ||| n == 0xa0
    ||| n == 0x1680
    ||| 0x2000 <= n <= 0x200a
    ||| n == 0x2028
    ||| n == 0x2029
    ||| n == 0x202f
    ||| n == 0x205f
    ||| n == 0x3000
}

/// Nothing but white space.
pub open spec fn is_blank(s: Seq<char>) -> bool {
    forall|i: int| 0 <= i < s.len() ==> is_white_space(#[trigger] s[i])
}

/// The text without the white space at its end.
pub open spec fn trimmed_end(s: Seq<char>) -> Seq<char>
    decreases s.len(),
{
    if s.len() > 0 && is_white_space(s.last()) {
        trimmed_end(s.drop_last())
    } else {
        s
    }
}

/// The text without the white space at its start.
pub open spec fn trimmed_start(s: Seq<char>) -> Seq<char>
    decreases s.len(),
{
    if s.len() > 0 && is_white_space(s.first()) {
        trimmed_start(s.drop_first())
    } else {
        s
    }
}

/// The text without the white space at either end.
pub open spec fn trimmed(s: Seq<char>) -> Seq<char> {
    trimmed_start(trimmed_end(s))
}

pub open spec fn is_digit(c: char) -> bool {
    '0' <= c <= '9'
}

/// What a digit stands for.
pub open spec fn digit_value(c: char) -> nat {
    (c as u32 - '0' as u32) as nat
}

/// The number that a sequence of digits stands for.
pub open spec fn value(s: Seq<char>) -> nat
    decreases s.len(),
{
    if s.len() == 0 {
        0
    } else {
        10 * value(s.drop_last()) + digit_value(s.last())
    }
}

/// How many digits the text starts with.
pub open spec fn digit_run(s: Seq<char>) -> nat
    decreases s.len(),
{
    if s.len() > 0 && is_digit(s.first()) {
        1 + digit_run(s.drop_first())
    } else {
        0
    }
}

/// The digits of a number, without its sign.
pub open spec fn unsigned(s: Seq<char>) -> Seq<char> {
    if s.len() > 0 && s.first() == '+' {
        s.drop_first()
    } else {
        s
    }
}

/// The `u32` that a text stands for: an optional plus sign and at least one digit,
/// and nothing else. Of two faults the one further left is reported.
pub open spec fn parsed(s: Seq<char>) -> Result<u32, ParseError> {
    let digits = unsigned(s);
    let run = digits.take(digit_run(digits) as int);
    if s.len() == 0 {
        Err(ParseError::Empty)
    } else if value(run) > u32::MAX {
        Err(ParseError::PosOverflow)
    } else if run.len() == 0 || run.len() < digits.len() {
        Err(ParseError::InvalidDigit)
    } else {
        Ok(value(run) as u32)
    }
}

fn white_space(c: char) -> (r: bool)
    ensures
        r == is_white_space(c),
{
    let n: u32 = c as u32;
    (0x09 <= n && n <= 0x0d) || n == 0x20 || n == 0x85 || n == 0xa0 || n == 0x1680 || (0x2000 <= n
        && n <= 0x200a) || n == 0x2028 || n == 0x2029 || n == 0x202f || n == 0x205f || n == 0x3000
}

/// The characters of a text.
fn characters(s: &str) -> (v: Vec<char>)
    ensures
        v@ == s@,
{
    let mut v: Vec<char> = Vec::new();
    for c in it: s.chars()
        invariant
            v@ == it.seq().take(it.index()),
            it.seq() == s@,
    {
        v.push(c);
    }
    v
}

/// The length of a text without the white space at its end.
fn end_of(v: &Vec<char>) -> (n: usize)
    ensures
        n <= v.len(),
        v@.take(n as int) == trimmed_end(v@),
{
    let mut n: usize = v.len();
    assert(v@.take(n as int) == v@);
    while n > 0 && white_space(v[n - 1])
        invariant
            n <= v.len(),
            trimmed_end(v@) == trimmed_end(v@.take(n as int)),
        decreases n,
    {
        assert(v@.take(n as int).drop_last() == v@.take(n - 1));
        n = n - 1;
    }
    n
}

/// Reads the characters `from .. to` as a number.
fn parse_range(v: &Vec<char>, from: usize, to: usize) -> (r: Result<u32, ParseError>)
    requires
        from <= to <= v.len(),
    ensures
        r == parsed(v@.subrange(from as int, to as int)),
{
    let ghost s = v@.subrange(from as int, to as int);
    if from == to {
        return Err(ParseError::Empty);
    }
    let start: usize = if v[from] == '+' {
        from + 1
    } else {
        from
    };
    let ghost digits = unsigned(s);
    assert(digits == v@.subrange(start as int, to as int));
    if start == to {
        return Err(ParseError::InvalidDigit);
    }
    let mut n: u32 = 0;
    let mut i: usize = start;
    while i < to
        invariant
            start <= i <= to <= v.len(),
            start < to,
            from < to,
            s == v@.subrange(from as int, to as int),
            digits == unsigned(s),
            digits == v@.subrange(start as int, to as int),
            n == value(digits.take(i - start)),
            forall|j: int| 0 <= j < i - start ==> is_digit(#[trigger] digits[j]),
        decreases to - i,
    {
        let c: char = v[i];
        let ghost k = i - start;
        assert(digits[k] == c);
        if !('0' <= c && c <= '9') {
            proof {
                lemma_digit_run(digits, k as nat);
            }
            return Err(ParseError::InvalidDigit);
        }
        let d: u32 = c as u32 - '0' as u32;
        assert(digits.take(k + 1).drop_last() == digits.take(k));
        let next: u64 = 10 * n as u64 + d as u64;
        if next > u32::MAX as u64 {
            proof {
                lemma_digit_run_at_least(digits, (k + 1) as nat);
                lemma_value_grows(digits, k + 1, digit_run(digits) as int);
            }
            return Err(ParseError::PosOverflow);
        }
        n = next as u32;
        i = i + 1;
    }
    proof {
        lemma_digit_run_at_least(digits, digits.len());
    }
    Ok(n)
}

/// A run of digits ends at the first character that is none.
proof fn lemma_digit_run(s: Seq<char>, k: nat)
    requires
        k < s.len(),
        forall|j: int| 0 <= j < k ==> is_digit(#[trigger] s[j]),
        !is_digit(s[k as int]),
    ensures
        digit_run(s) == k,
    decreases k,
{
    if k > 0 {
        assert(is_digit(s[0]));
        assert forall|j: int| 0 <= j < k - 1 implies is_digit(#[trigger] s.drop_first()[j]) by {
            assert(s.drop_first()[j] == s[j + 1]);
        }
        lemma_digit_run(s.drop_first(), (k - 1) as nat);
    }
}

/// A text that starts with `k` digits has a run of at least `k`.
proof fn lemma_digit_run_at_least(s: Seq<char>, k: nat)
    requires
        k <= s.len(),
        forall|j: int| 0 <= j < k ==> is_digit(#[trigger] s[j]),
    ensures
        k <= digit_run(s) <= s.len(),
    decreases s.len(),
{
    if k > 0 {
        assert(is_digit(s[0]));
        assert forall|j: int| 0 <= j < k - 1 implies is_digit(#[trigger] s.drop_first()[j]) by {
            assert(s.drop_first()[j] == s[j + 1]);
        }
        lemma_digit_run_at_least(s.drop_first(), (k - 1) as nat);
    } else if s.len() > 0 {
        lemma_digit_run_at_least(s.drop_first(), 0);
    }
}

/// More digits do not make a number smaller.
proof fn lemma_value_grows(s: Seq<char>, i: int, j: int)
    requires
        0 <= i <= j <= s.len(),
    ensures
        value(s.take(i)) <= value(s.take(j)),
    decreases j - i,
{
    if i < j {
        lemma_value_grows(s, i, j - 1);
        assert(s.take(j).drop_last() == s.take(j - 1));
    }
}

/// Reads a number that white space may follow.
pub fn parse_trimmed_end(s: &str) -> (r: Result<u32, ParseError>)
    ensures
        r == parsed(trimmed_end(s@)),
{
    let v: Vec<char> = characters(s);
    let n: usize = end_of(&v);
    assert(v@.subrange(0, n as int) == v@.take(n as int));
    parse_range(&v, 0, n)
}

/// Reads a number that white space may surround.
pub fn parse_trimmed(s: &str) -> (r: Result<u32, ParseError>)
    ensures
        r == parsed(trimmed(s@)),
{
    let v: Vec<char> = characters(s);
    let n: usize = end_of(&v);
    let mut i: usize = 0;
    assert(v@.subrange(0, n as int) == v@.take(n as int));
    while i < n && white_space(v[i])
        invariant
            i <= n <= v.len(),
            trimmed(s@) == trimmed_start(v@.subrange(i as int, n as int)),
        decreases n - i,
    {
        assert(v@.subrange(i as int, n as int).drop_first() == v@.subrange(i + 1, n as int));
        i = i + 1;
    }
    parse_range(&v, i, n)
}

/// The digit that stands for a number below ten.
pub open spec fn digit(k: nat) -> char {
    ('0' as u32 + k) as char
}

/// A number in decimal notation, without leading zeros.
pub open spec fn decimal(n: nat) -> Seq<char>
    decreases n,
{
    if n < 10 {
        seq![digit(n)]
    } else {
        decimal(n / 10).push(digit(n % 10))
    }
}

fn digit_text(k: u32) -> (s: &'static str)
    requires
        k < 10,
    ensures
        s@ == seq![digit(k as nat)],
{
    proof {
        reveal_strlit("0");
        reveal_strlit("1");
        reveal_strlit("2");
        reveal_strlit("3");
        reveal_strlit("4");
        reveal_strlit("5");
        reveal_strlit("6");
        reveal_strlit("7");
        reveal_strlit("8");
        reveal_strlit("9");
    }
    match k {
        0 => "0",
        1 => "1",
        2 => "2",
        3 => "3",
        4 => "4",
        5 => "5",
        6 => "6",
        7 => "7",
        8 => "8",
        _ => "9",
    }
}

/// Writes a number in decimal notation at the end of a text.
pub fn append_decimal(s: &mut String, n: u32)
    ensures
        final(s)@ == old(s)@ + decimal(n as nat),
    decreases n,
{
    if n >= 10 {
        append_decimal(s, n / 10);
    }
    s.append(digit_text(n % 10));
}

/// Every character of a decimal is a digit, and together they stand for the number.
pub proof fn law_decimal_value(n: nat)
    ensures
        decimal(n).len() > 0,
        forall|i: int| 0 <= i < decimal(n).len() ==> is_digit(#[trigger] decimal(n)[i]),
        value(decimal(n)) == n,
    decreases n,
{
    if n < 10 {
        assert(decimal(n).drop_last() == Seq::<char>::empty());
        assert(value(Seq::<char>::empty()) == 0);
    } else {
        law_decimal_value(n / 10);
        assert(decimal(n).drop_last() == decimal(n / 10));
    }
}

/// Reading gives back what writing wrote, also when white space follows.
pub proof fn law_decimal_round_trip(n: u32, rest: Seq<char>)
    requires
        is_blank(rest),
    ensures
        parsed(decimal(n as nat)) == Ok::<u32, ParseError>(n),
        parsed(trimmed_end(decimal(n as nat) + rest)) == Ok::<u32, ParseError>(n),
        parsed(trimmed(decimal(n as nat) + rest)) == Ok::<u32, ParseError>(n),
    decreases rest.len(),
{
    let d = decimal(n as nat);
    law_decimal_value(n as nat);
    if rest.len() > 0 {
        assert((d + rest).drop_last() == d + rest.drop_last());
        assert(is_white_space(rest[rest.len() - 1]));
        law_decimal_round_trip(n, rest.drop_last());
    } else {
        assert(d + rest == d);
        assert(is_digit(d[0]));
        assert(is_digit(d[d.len() - 1]));
        lemma_digit_run_at_least(d, d.len());
        assert(d.take(d.len() as int) == d);
    }
}

proof fn lemma_trimmed_end_after(s: Seq<char>, blank: Seq<char>)
    requires
        is_blank(blank),
    ensures
        trimmed_end(s + blank) == trimmed_end(s),
    decreases blank.len(),
{
    if blank.len() == 0 {
        assert(s + blank == s);
    } else {
        assert(is_white_space(blank[blank.len() - 1]));
        assert((s + blank).drop_last() == s + blank.drop_last());
        lemma_trimmed_end_after(s, blank.drop_last());
    }
}

proof fn lemma_trimmed_end_before(blank: Seq<char>, s: Seq<char>)
    requires
        is_blank(blank),
    ensures
        trimmed_end(s).len() > 0 ==> trimmed_end(blank + s) == blank + trimmed_end(s),
        trimmed_end(s).len() == 0 ==> trimmed_end(blank + s).len() == 0,
    decreases s.len(),
{
    if s.len() == 0 {
        assert(blank + s == Seq::<char>::empty() + blank);
        lemma_trimmed_end_after(Seq::empty(), blank);
    } else if is_white_space(s.last()) {
        assert((blank + s).drop_last() == blank + s.drop_last());
        lemma_trimmed_end_before(blank, s.drop_last());
    }
}

proof fn lemma_trimmed_start_after(blank: Seq<char>, s: Seq<char>)
    requires
        is_blank(blank),
    ensures
        trimmed_start(blank + s) == trimmed_start(s),
    decreases blank.len(),
{
    if blank.len() == 0 {
        assert(blank + s == s);
    } else {
        assert(is_white_space(blank[0]));
        assert((blank + s).drop_first() == blank.drop_first() + s);
        lemma_trimmed_start_after(blank.drop_first(), s);
    }
}

/// White space around a text makes no difference to the trimmed text, and white
/// space after it none to the text trimmed at its end.
pub proof fn law_trimmed_ignores_white_space(before: Seq<char>, s: Seq<char>, after: Seq<char>)
    requires
        is_blank(before),
        is_blank(after),
    ensures
        trimmed(before + s + after) == trimmed(s),
        trimmed_end(s + after) == trimmed_end(s),
{
    lemma_trimmed_end_after(before + s, after);
    lemma_trimmed_end_after(s, after);
    lemma_trimmed_end_before(before, s);
    let t = trimmed_end(s);
    if t.len() > 0 {
        lemma_trimmed_start_after(before, t);
    } else {
        assert(trimmed_end(before + s) == t);
    }
}

proof fn lemma_trimmed_end_prefix(s: Seq<char>)
    ensures
        trimmed_end(s).len() <= s.len(),
        trimmed_end(s) == s.take(trimmed_end(s).len() as int),
    decreases s.len(),
{
    if s.len() > 0 && is_white_space(s.last()) {
        lemma_trimmed_end_prefix(s.drop_last());
        let n = trimmed_end(s).len() as int;
        assert(s.drop_last().take(n) == s.take(n));
    } else {
        assert(s.take(s.len() as int) == s);
    }
}

/// White space before a number that is trimmed at its end only makes it invalid.
pub proof fn law_leading_white_space_is_invalid(s: Seq<char>)
    requires
        s.len() > 0,
        is_white_space(s[0]),
    ensures
        parsed(trimmed_end(s)) == (if is_blank(s) {
            Err::<u32, ParseError>(ParseError::Empty)
        } else {
            Err::<u32, ParseError>(ParseError::InvalidDigit)
        }),
{
    let t = trimmed_end(s);
    lemma_trimmed_end_prefix(s);
    if is_blank(s) {
        lemma_trimmed_end_after(Seq::empty(), s);
        assert(Seq::<char>::empty() + s == s);
    } else {
        if t.len() == 0 {
            lemma_trimmed_end_blank(s);
        }
        assert(t[0] == s[0]);
        assert(unsigned(t) == t);
        assert(t.take(0) == Seq::<char>::empty());
    }
}

proof fn lemma_trimmed_end_blank(s: Seq<char>)
    requires
        trimmed_end(s).len() == 0,
    ensures
        is_blank(s),
    decreases s.len(),
{
    if s.len() > 0 {
        lemma_trimmed_end_blank(s.drop_last());
        assert forall|i: int| 0 <= i < s.len() implies is_white_space(#[trigger] s[i]) by {
            if i < s.len() - 1 {
                assert(s.drop_last()[i] == s[i]);
            }
        }
    }
}

/// White space is exactly the characters that Unicode lists under `White_Space`.
pub proof fn law_white_space(c: char)
    ensures
        is_white_space(c) <==> {
            ||| '\t' <= c <= '\r'
            ||| c == ' '
            ||| c == '\u{85}'
            ||| c == '\u{a0}'
            ||| c == '\u{1680}'
            ||| '\u{2000}' <= c <= '\u{200a}'
            ||| c == '\u{2028}'
            ||| c == '\u{2029}'
            ||| c == '\u{202f}'
            ||| c == '\u{205f}'
            ||| c == '\u{3000}'
        },
{
}

/// Trimming takes all the white space off, and nothing else: what stands between
/// white space and neither starts nor ends with any is what is left.
pub proof fn law_trimmed_is_the_core(before: Seq<char>, core: Seq<char>, after: Seq<char>)
    requires
        forall|i: int| 0 <= i < before.len() ==> is_white_space(#[trigger] before[i]),
        forall|i: int| 0 <= i < after.len() ==> is_white_space(#[trigger] after[i]),
        core.len() > 0 ==> !is_white_space(core[core.len() - 1]),
    ensures
        trimmed_end(core + after) == core,
        core.len() > 0 ==> trimmed_end(before + core + after) == before + core,
        core.len() == 0 ==> trimmed_end(before + core + after) == core,
        core.len() == 0 || !is_white_space(core[0]) ==> trimmed(before + core + after) == core,
{
    law_trimmed_ignores_white_space(before, core, after);
    lemma_trimmed_end_after(before + core, after);
    lemma_trimmed_end_before(before, core);
    assert(trimmed_end(core) == core);
    if core.len() == 0 {
        assert(trimmed_end(before + core + after) == core);
    }
}

/// How a text is read, one character after the other: the empty text, the texts of
/// one character, a sign and one character, and any longer text in terms of the text
/// without its last character. A digit multiplies the number before it by ten and
/// adds itself; the first fault stays.
pub proof fn law_parsed_step(s: Seq<char>, c: char)
    ensures
        parsed(Seq::empty()) == Err::<u32, ParseError>(ParseError::Empty),
        '0' <= c <= '9' ==> parsed(seq![c]) == Ok::<u32, ParseError>((c as u32 - 48) as u32),
        '0' <= c <= '9' ==> parsed(seq!['+', c]) == Ok::<u32, ParseError>((c as u32 - 48) as u32),
        !('0' <= c <= '9') ==> parsed(seq![c]) == Err::<u32, ParseError>(ParseError::InvalidDigit),
        !('0' <= c <= '9') ==> parsed(seq!['+', c]) == Err::<u32, ParseError>(
            ParseError::InvalidDigit,
        ),
        s.len() > 0 && s != seq!['+'] ==> parsed(s.push(c)) == (match parsed(s) {
            Err(e) => Err::<u32, ParseError>(e),
            Ok(v) => if !('0' <= c <= '9') {
                Err(ParseError::InvalidDigit)
            } else if 10 * v + (c as u32 - 48) > 0xffff_ffff {
                Err(ParseError::PosOverflow)
            } else {
                Ok((10 * v + (c as u32 - 48)) as u32)
            },
        }),
{
    let empty = Seq::<char>::empty();
    let one = seq![c];
    let two = seq!['+', c];
    assert(two.drop_first() == one);
    assert(seq!['+'].drop_first() == empty);
    assert(one.drop_first() == empty);
    assert(one.drop_last() == empty);
    assert(digit_run(empty) == 0);
    assert(value(empty) == 0);
    assert(one.take(1) == one);
    assert(one.take(0) == empty);
    assert(empty.take(0) == empty);
    assert(value(one) == digit_value(c));
    if s.len() > 0 && s != seq!['+'] {
        let t = s.push(c);
        let d = unsigned(s);
        let e = unsigned(t);
        assert(e == d.push(c)) by {
            if s.first() == '+' {
                assert(t.drop_first() == s.drop_first().push(c));
            }
        }
        assert(d.len() > 0) by {
            if s.first() == '+' && s.len() == 1 {
                assert(s == seq!['+']);
            }
        }
        let k = digit_run(d);
        lemma_digit_run_bound(d);
        lemma_digit_run_push(d, c);
        let run = d.take(k as int);
        if k < d.len() {
            assert(e.take(k as int) == run);
        } else {
            assert(run == d);
            assert(e.take(k as int) == d);
            assert(e.drop_last() == d);
            assert(e.take((k + 1) as int) == e);
        }
    }
}

proof fn lemma_digit_run_bound(s: Seq<char>)
    ensures
        digit_run(s) <= s.len(),
    decreases s.len(),
{
    if s.len() > 0 {
        lemma_digit_run_bound(s.drop_first());
    }
}

/// A run of digits goes on only where it has not ended.
proof fn lemma_digit_run_push(s: Seq<char>, c: char)
    ensures
        digit_run(s.push(c)) == (if digit_run(s) == s.len() && is_digit(c) {
            digit_run(s) + 1
        } else {
            digit_run(s)
        }),
    decreases s.len(),
{
    let t = s.push(c);
    if s.len() == 0 {
        assert(t.drop_first() == Seq::<char>::empty());
        assert(digit_run(Seq::<char>::empty()) == 0);
    } else {
        assert(t.drop_first() == s.drop_first().push(c));
        lemma_digit_run_push(s.drop_first(), c);
        lemma_digit_run_bound(s.drop_first());
    }
}

/// A text of digits is read as the number whose decimal digits they are: the one with
/// `i` digits after it counts the powers of ten to the `i`.
pub proof fn law_parsed_digits(s: Seq<char>, v: u32, i: nat)
    requires
        parsed(s) == Ok::<u32, ParseError>(v),
        forall|j: int| 0 <= j < s.len() ==> '0' <= #[trigger] s[j] <= '9',
        i < s.len(),
    ensures
        v < pow(10, s.len()),
        s[s.len() - 1 - i] as int - 48 == (v as int / pow(10, i)) % 10,
{
    lemma_all_digits(s);
    assert(s.first() == s[0]);
    assert(s.take(s.len() as int) == s);
    lemma_value_digits(s, i);
}

proof fn lemma_all_digits(s: Seq<char>)
    requires
        forall|j: int| 0 <= j < s.len() ==> '0' <= #[trigger] s[j] <= '9',
    ensures
        digit_run(s) == s.len(),
{
    lemma_digit_run_at_least(s, s.len());
}

proof fn lemma_value_digits(s: Seq<char>, i: nat)
    requires
        forall|j: int| 0 <= j < s.len() ==> '0' <= #[trigger] s[j] <= '9',
        i < s.len(),
    ensures
        value(s) < pow(10, s.len()),
        s[s.len() - 1 - i] as int - 48 == (value(s) as int / pow(10, i)) % 10,
    decreases s.len(),
{
    let n = s.len();
    let init = s.drop_last();
    let v = value(s) as int;
    let u = value(init) as int;
    let d = digit_value(s.last()) as int;
    assert('0' <= s[n - 1] <= '9');
    assert forall|j: int| 0 <= j < init.len() implies '0' <= #[trigger] init[j] <= '9' by {
        assert(init[j] == s[j]);
    }
    reveal(pow);
    lemma_pow0(10);
    if n > 1 {
        lemma_value_digits(init, if i > 0 {
            (i - 1) as nat
        } else {
            0
        });
    } else {
        assert(init == Seq::<char>::empty());
    }
    assert(pow(10, n) == 10 * pow(10, (n - 1) as nat));
    if i == 0 {
        assert(v % 10 == d);
    } else {
        let p = pow(10, (i - 1) as nat);
        lemma_pow_positive(10, (i - 1) as nat);
        assert(pow(10, i) == 10 * p);
        lemma_div_denominator(v, 10, p);
        assert(v / 10 == u);
        assert(init[n - 1 - i] == s[n - 1 - i]);
    }
}

/// A decimal consists of the digits of the number: the one with `i` digits after it
/// counts the powers of ten to the `i`. It has as many digits as the number needs, and
/// zero has one.
pub proof fn law_decimal_digits(n: nat, i: nat)
    requires
        i < decimal(n).len(),
    ensures
        decimal(n)[decimal(n).len() - 1 - i] as int == 48 + (n as int / pow(10, i)) % 10,
        n < pow(10, decimal(n).len()),
        decimal(n).len() > 1 ==> pow(10, (decimal(n).len() - 1) as nat) <= n,
        decimal(n).len() > 0,
    decreases n,
{
    reveal(pow);
    lemma_pow0(10);
    lemma_pow1(10);
    let s = decimal(n);
    if n >= 10 {
        let t = decimal(n / 10);
        let len = t.len();
        law_decimal_value(n / 10);
        law_decimal_digits(n / 10, if i > 0 {
            (i - 1) as nat
        } else {
            0
        });
        assert(pow(10, len + 1) == 10 * pow(10, len));
        assert(pow(10, len) == 10 * pow(10, (len - 1) as nat));
        if i > 0 {
            let p = pow(10, (i - 1) as nat);
            lemma_pow_positive(10, (i - 1) as nat);
            assert(pow(10, i) == 10 * p);
            lemma_div_denominator(n as int, 10, p);
            assert(s[s.len() - 1 - i] == t[t.len() - 1 - (i - 1)]);
        }
    }
}

} // verus!
