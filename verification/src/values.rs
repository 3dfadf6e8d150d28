//! The values of environment variables.

use vstd::prelude::*;
use vstd::string::*;

verus! {

pub open spec fn is_digit(c: char) -> bool {
    '0' as int <= c as int <= '9' as int
}

/// One digit or more, and nothing else.
pub open spec fn is_number(s: Seq<char>) -> bool {
    s.len() > 0 && forall|i: int| 0 <= i < s.len() ==> is_digit(#[trigger] s[i])
}

/// The number that the digits stand for.
pub open spec fn number(s: Seq<char>) -> int
    decreases s.len(),
{
    if s.len() == 0 {
        0
    } else {
        number(s.drop_last()) * 10 + (s.last() as int - '0' as int)
    }
}

/// The text behind a sign, if it has one of those given.
pub open spec fn unsigned_part(s: Seq<char>, minus: bool) -> Seq<char> {
    if s.len() > 0 && (s[0] == '+' || (minus && s[0] == '-')) {
        s.skip(1)
    } else {
        s
    }
}

/// The number in a text: digits, perhaps after a plus sign, of at most `usize::MAX`.
pub open spec fn usize_in(s: Seq<char>) -> Option<int> {
    let body = unsigned_part(s, false);
    if is_number(body) && number(body) <= usize::MAX {
        Some(number(body))
    } else {
        None
    }
}

/// The number in a text: digits, perhaps after a sign, within 64 bits.
pub open spec fn i64_in(s: Seq<char>) -> Option<int> {
    let body = unsigned_part(s, true);
    let n = if s.len() > 0 && s[0] == '-' {
        -number(body)
    } else {
        number(body)
    };
    if is_number(body) && i64::MIN <= n <= i64::MAX {
        Some(n)
    } else {
        None
    }
}

proof fn lemma_number_grows(s: Seq<char>, n: int)
    requires
        0 <= n <= s.len(),
        forall|i: int| 0 <= i < s.len() ==> is_digit(#[trigger] s[i]),
    ensures
        0 <= number(s.take(n)) <= number(s),
    decreases s.len(),
{
    if n < s.len() {
        let rest = s.drop_last();
        assert forall|i: int| 0 <= i < rest.len() implies is_digit(#[trigger] rest[i]) by {
            assert(rest[i] == s[i]);
        }
        lemma_number_grows(rest, n);
        assert(rest.take(n) =~= s.take(n));
        assert(is_digit(s[s.len() - 1]));
    } else {
        assert(s.take(n) =~= s);
        if n > 0 {
            let rest = s.drop_last();
            assert forall|i: int| 0 <= i < rest.len() implies is_digit(#[trigger] rest[i]) by {
                assert(rest[i] == s[i]);
            }
            lemma_number_grows(rest, n - 1);
            assert(rest.take(n - 1) =~= rest);
            assert(is_digit(s[s.len() - 1]));
        }
    }
}

/// The number that the text has from place `from` on, if it fits 64 bits.
fn digits_from(s: &str, from: usize) -> (r: Option<u64>)
    requires
        from <= s@.len(),
    ensures
        ({
            let body = s@.skip(from as int);
            match r {
                Some(n) => is_number(body) && n == number(body),
                None => !is_number(body) || number(body) > u64::MAX,
            }
        }),
{
    let n: usize = s.unicode_len();
    let ghost body = s@.skip(from as int);
    if from == n {
        return None;
    }
    let mut acc: u64 = 0;
    let mut i: usize = from;
    proof {
        assert(body.take(0) =~= Seq::<char>::empty());
    }
    while i < n
        invariant
            from <= i <= n,
            n == s@.len(),
            body == s@.skip(from as int),
            forall|k: int| 0 <= k < i - from ==> is_digit(#[trigger] body[k]),
            acc == number(body.take(i - from)),
        decreases n - i,
    {
        let c: char = s.get_char(i);
        assert(c == body[i - from]);
        if c < '0' || c > '9' {
            assert(!is_digit(body[i - from]));
            return None;
        }
        let d: u64 = (c as u32 - '0' as u32) as u64;
        proof {
            assert(body.take(i - from + 1).drop_last() =~= body.take(i - from));
            assert(number(body.take(i - from + 1)) == acc * 10 + d);
        }
        if acc > (u64::MAX - d) / 10 {
            proof {
                if is_number(body) {
                    lemma_number_grows(body, i - from + 1);
                    assert(acc * 10 + d > u64::MAX);
                }
            }
            return None;
        }
        acc = acc * 10 + d;
        i = i + 1;
    }
    proof {
        assert(body.take(n - from) =~= body);
    }
    Some(acc)
}

/// The number in a text.
pub fn parse_usize(s: &str) -> (r: Option<usize>)
    ensures
        match r {
            Some(n) => usize_in(s@) == Some(n as int),
            None => usize_in(s@) is None,
        },
{
    let n: usize = s.unicode_len();
    let from: usize = if n > 0 && s.get_char(0) == '+' {
        1
    } else {
        0
    };
    assert(s@.skip(0) =~= s@);
    match digits_from(s, from) {
        Some(v) => if v <= usize::MAX as u64 {
            Some(v as usize)
        } else {
            None
        },
        None => None,
    }
}

/// The number in a text, with its sign.
pub fn parse_i64(s: &str) -> (r: Option<i64>)
    ensures
        match r {
            Some(n) => i64_in(s@) == Some(n as int),
            None => i64_in(s@) is None,
        },
{
    let n: usize = s.unicode_len();
    let minus: bool = n > 0 && s.get_char(0) == '-';
    let from: usize = if minus || (n > 0 && s.get_char(0) == '+') {
        1
    } else {
        0
    };
    assert(s@.skip(0) =~= s@);
    match digits_from(s, from) {
        Some(v) => if !minus {
            if v <= i64::MAX as u64 {
                Some(v as i64)
            } else {
                None
            }
        } else if v <= i64::MAX as u64 {
            Some(-(v as i64))
        } else if v == 0x8000_0000_0000_0000 {
            Some(i64::MIN)
        } else {
            None
        },
        None => None,
    }
}

/// Whether two texts are the same.
pub fn same_text(a: &str, b: &str) -> (r: bool)
    ensures
        r == (a@ == b@),
{
    let n: usize = a.unicode_len();
    if n != b.unicode_len() {
        return false;
    }
    let mut i: usize = 0;
    while i < n
        invariant
            i <= n,
            n == a@.len(),
            n == b@.len(),
            forall|k: int| 0 <= k < i ==> #[trigger] a@[k] == b@[k],
        decreases n - i,
    {
        if a.get_char(i) != b.get_char(i) {
            assert(a@[i as int] != b@[i as int]);
            return false;
        }
        i = i + 1;
    }
    assert(a@ =~= b@);
    true
}

/// The value of a variable, as a text.
pub open spec fn value(v: Option<String>) -> Option<Seq<char>> {
    match v {
        Some(s) => Some(s@),
        None => None,
    }
}

/// A variable's number, where it is a positive one.
pub open spec fn positive(v: Option<Seq<char>>) -> Option<int> {
    match v {
        Some(s) => match usize_in(s) {
            Some(n) => if n > 0 {
                Some(n)
            } else {
                None
            },
            None => None,
        },
        None => None,
    }
}

/// A variable's number, where it is a positive one.
pub fn env_usize(v: &Option<String>) -> (r: Option<usize>)
    ensures
        match r {
            Some(n) => positive(value(*v)) == Some(n as int),
            None => positive(value(*v)) is None,
        },
{
    match v {
        Some(s) => match parse_usize(s.as_str()) {
            Some(n) => if n > 0 {
                Some(n)
            } else {
                None
            },
            None => None,
        },
        None => None,
    }
}

/// A variable's number, where it is not negative.
pub open spec fn not_negative(v: Option<Seq<char>>) -> Option<int> {
    match v {
        Some(s) => match i64_in(s) {
            Some(n) => if n >= 0 {
                Some(n)
            } else {
                None
            },
            None => None,
        },
        None => None,
    }
}

/// A variable's number, where it is not negative.
pub fn env_side(v: &Option<String>) -> (r: Option<i64>)
    ensures
        match r {
            Some(n) => not_negative(value(*v)) == Some(n as int),
            None => not_negative(value(*v)) is None,
        },
{
    match v {
        Some(s) => match parse_i64(s.as_str()) {
            Some(n) => if n >= 0 {
                Some(n)
            } else {
                None
            },
            None => None,
        },
        None => None,
    }
}

/// The character as a small letter, if it is a letter of ASCII.
pub open spec fn lowered(c: char) -> char {
    if 'A' as int <= c as int <= 'Z' as int {
        (c as int + 32) as char
    } else {
        c
    }
}

/// The text is "1", or "true" in any case.
pub open spec fn says_yes(s: Seq<char>) -> bool {
    s == seq!['1'] || s.map_values(|c: char| lowered(c)) == seq!['t', 'r', 'u', 'e']
}

/// A switch that is on where its variable says so.
pub open spec fn switched(v: Option<Seq<char>>) -> Option<bool> {
    match v {
        Some(s) => Some(says_yes(s)),
        None => None,
    }
}

fn is_letter(c: char, low: char, up: char) -> (r: bool)
    requires
        'a' as int <= low as int <= 'z' as int,
        up as int == low as int - 32,
    ensures
        r == (lowered(c) == low),
{
    c == low || c == up
}

fn yes(s: &str) -> (r: bool)
    ensures
        r == says_yes(s@),
{
    let n: usize = s.unicode_len();
    let ghost small = s@.map_values(|c: char| lowered(c));
    if n == 1 {
        let r: bool = s.get_char(0) == '1';
        proof {
            if r {
                assert(s@ =~= seq!['1']);
            }
            assert(small.len() == 1);
        }
        return r;
    }
    if n != 4 {
        proof {
            assert(small.len() != 4);
        }
        return false;
    }
    let r: bool = is_letter(s.get_char(0), 't', 'T') && is_letter(s.get_char(1), 'r', 'R')
        && is_letter(s.get_char(2), 'u', 'U') && is_letter(s.get_char(3), 'e', 'E');
    proof {
        let word = seq!['t', 'r', 'u', 'e'];
        assert(word.len() == 4);
        if r {
            assert(small =~= word);
        } else {
            assert(small[0] != word[0] || small[1] != word[1] || small[2] != word[2] || small[3]
                != word[3]);
        }
    }
    r
}

/// A switch that is on where its variable says so.
pub fn env_bool(v: &Option<String>) -> (r: Option<bool>)
    ensures
        r == switched(value(*v)),
{
    match v {
        Some(s) => Some(yes(s.as_str())),
        None => None,
    }
}

/// A switch that is on where its variable is anything but "0", and `usual` without
/// the variable.
pub open spec fn enabled(v: Option<Seq<char>>, usual: bool) -> bool {
    match v {
        Some(s) => s != seq!['0'],
        None => usual,
    }
}

/// A switch that only "0" turns off.
pub fn env_flag(v: &Option<String>, usual: bool) -> (r: bool)
    ensures
        r == enabled(value(*v), usual),
{
    match v {
        Some(s) => {
            let t: &str = s.as_str();
            let zero: bool = t.unicode_len() == 1 && t.get_char(0) == '0';
            proof {
                if zero {
                    assert(t@ =~= seq!['0']);
                }
            }
            !zero
        },
        None => usual,
    }
}

// ---- laws ----


/// The digits of a number add up by their weights: a digit more in front adds itself
/// times its weight.
pub proof fn law_digits_add_up(c: char, s: Seq<char>)
    ensures
        number(seq![c] + s) == (c as int - '0' as int) * vstd::arithmetic::power::pow(
            10,
            s.len(),
        ) + number(s),
        number(Seq::<char>::empty()) == 0,
    decreases s.len(),
{
    let d = c as int - '0' as int;
    let all = seq![c] + s;
    if s.len() == 0 {
        assert(all =~= seq![c]);
        assert(all.drop_last() =~= Seq::<char>::empty());
        vstd::arithmetic::power::lemma_pow0(10);
        assert(number(Seq::<char>::empty()) == 0);
        assert(s =~= Seq::<char>::empty());
    } else {
        let rest = s.drop_last();
        law_digits_add_up(c, rest);
        assert(all.drop_last() =~= seq![c] + rest);
        assert(all.last() == s.last());
        let p = vstd::arithmetic::power::pow(10, rest.len());
        reveal(vstd::arithmetic::power::pow);
        assert(vstd::arithmetic::power::pow(10, s.len()) == 10 * p);
        assert((d * p + number(rest)) * 10 == d * (10 * p) + number(rest) * 10) by (nonlinear_arith);
    }
}

/// A text reads as a number exactly where it is digits, perhaps after a plus sign, and
/// the number is small enough.
pub proof fn law_number_is_read(s: &str, r: Option<usize>, digits: Seq<char>)
    requires
        call_ensures(parse_usize, (s,), r),
        s@ == digits || s@ == seq!['+'] + digits,
        digits.len() > 0,
        digits[0] != '+',
    ensures
        r is Some <==> (forall|i: int|
            0 <= i < digits.len() ==> '0' as int <= #[trigger] digits[i] as int <= '9' as int)
            && number(digits) <= usize::MAX,
        r matches Some(n) ==> n == number(digits),
{
    if s@ == digits {
        assert(unsigned_part(s@, false) == digits);
    } else {
        assert(unsigned_part(s@, false) =~= digits);
    }
    if forall|i: int|
        0 <= i < digits.len() ==> '0' as int <= #[trigger] digits[i] as int <= '9' as int {
        assert(is_number(digits));
    } else {
        let i = choose|i: int|
            0 <= i < digits.len() && !('0' as int <= #[trigger] digits[i] as int <= '9' as int);
        assert(!is_digit(digits[i]));
    }
}

/// A text reads as a number with a sign exactly where it is digits, perhaps after one
/// sign, and the number fits 64 bits; a minus sign makes it negative.
pub proof fn law_signed_number_is_read(s: &str, r: Option<i64>, digits: Seq<char>, minus: bool)
    requires
        call_ensures(parse_i64, (s,), r),
        minus ==> s@ == seq!['-'] + digits,
        !minus ==> s@ == digits || s@ == seq!['+'] + digits,
        digits.len() > 0,
        digits[0] != '+',
        digits[0] != '-',
    ensures
        ({
            let n = if minus {
                -number(digits)
            } else {
                number(digits)
            };
            &&& r is Some <==> (forall|i: int|
                0 <= i < digits.len() ==> '0' as int <= #[trigger] digits[i] as int <= '9' as int)
                && i64::MIN <= n <= i64::MAX
            &&& r matches Some(v) ==> v == n
        }),
{
    assert(unsigned_part(s@, true) =~= digits);
    if forall|i: int|
        0 <= i < digits.len() ==> '0' as int <= #[trigger] digits[i] as int <= '9' as int {
        assert(is_number(digits));
    } else {
        let i = choose|i: int|
            0 <= i < digits.len() && !('0' as int <= #[trigger] digits[i] as int <= '9' as int);
        assert(!is_digit(digits[i]));
    }
}

/// A text without a digit behind its sign, or with two signs, is no number.
pub proof fn law_signs_alone_are_no_number(s: &str, r: Option<usize>, q: Option<i64>)
    requires
        call_ensures(parse_usize, (s,), r),
        call_ensures(parse_i64, (s,), q),
        s@.len() == 0 || s@ == seq!['+'] || s@ == seq!['-'] || (s@.len() > 1 && (s@[1] == '+'
            || s@[1] == '-')),
    ensures
        r is None,
        q is None,
{
    let (a, b) = (unsigned_part(s@, false), unsigned_part(s@, true));
    if s@.len() > 1 {
        assert(!is_digit(s@[1]));
        if a == s@ {
            assert(!is_digit(a[1]));
        } else {
            assert(!is_digit(a[0]));
        }
        if b == s@ {
            assert(!is_digit(b[1]));
        } else {
            assert(!is_digit(b[0]));
        }
    } else if s@.len() == 1 {
        assert(!is_digit(s@[0]));
        if a == s@ {
            assert(!is_digit(a[0]));
        }
    }
}

/// A variable counts where it is a positive number: one that is missing, no number or
/// zero does not.
pub proof fn law_only_positive_counts_are_taken(v: &Option<String>, r: Option<usize>)
    requires
        call_ensures(env_usize, (v,), r),
    ensures
        *v is None ==> r is None,
        r != Some(0usize),
        *v matches Some(s) ==> {
            &&& r matches Some(n) ==> usize_in(s@) == Some(n as int)
            &&& r is None ==> usize_in(s@) is None || usize_in(s@) == Some(0int)
        },
{
    if let Some(s) = v {
        let body = unsigned_part(s@, false);
        if is_number(body) {
            lemma_number_grows(body, 0);
        }
    }
}

/// A side counts where it is a number that is not negative.
pub proof fn law_only_sides_are_taken(v: &Option<String>, r: Option<i64>)
    requires
        call_ensures(env_side, (v,), r),
    ensures
        *v is None ==> r is None,
        r matches Some(n) ==> n >= 0,
        *v matches Some(s) ==> {
            &&& r matches Some(n) ==> i64_in(s@) == Some(n as int)
            &&& r is None ==> i64_in(s@) is None || (i64_in(s@) matches Some(n) && n < 0)
        },
{
}

/// A switch is on where its variable is "1", or "true" in capital or small letters.
pub proof fn law_switch_is_on(v: &Option<String>, r: Option<bool>)
    requires
        call_ensures(env_bool, (v,), r),
    ensures
        *v is None <==> r is None,
        *v matches Some(s) ==> (r == Some(true) <==> {
            ||| s@.len() == 1 && s@[0] == '1'
            ||| {
                &&& s@.len() == 4
                &&& s@[0] == 't' || s@[0] == 'T'
                &&& s@[1] == 'r' || s@[1] == 'R'
                &&& s@[2] == 'u' || s@[2] == 'U'
                &&& s@[3] == 'e' || s@[3] == 'E'
            }
        }),
{
    if let Some(s) = v {
        let t = s@;
        let low = t.map_values(|c: char| lowered(c));
        let word = seq!['t', 'r', 'u', 'e'];
        if t.len() == 1 && t[0] == '1' {
            assert(t =~= seq!['1']);
        }
        if t.len() == 4 {
            lemma_lowered(t[0], 't');
            lemma_lowered(t[1], 'r');
            lemma_lowered(t[2], 'u');
            lemma_lowered(t[3], 'e');
            assert(low[0] == lowered(t[0]) && low[1] == lowered(t[1]) && low[2] == lowered(t[2])
                && low[3] == lowered(t[3]));
            if lowered(t[0]) == 't' && lowered(t[1]) == 'r' && lowered(t[2]) == 'u' && lowered(t[3])
                == 'e' {
                assert(low =~= word);
            } else {
                assert(low != word) by {
                    assert(word[0] == 't' && word[1] == 'r' && word[2] == 'u' && word[3] == 'e');
                }
            }
        } else {
            assert(low.len() != word.len());
        }
    }
}

proof fn lemma_lowered(c: char, low: char)
    requires
        'a' as int <= low as int <= 'z' as int,
    ensures
        lowered(c) == low <==> c == low || c as int == low as int - 32,
{
}

/// A switch that is on by default is turned off by "0" alone.
pub proof fn law_only_zero_turns_off(v: &Option<String>, usual: bool, r: bool)
    requires
        call_ensures(env_flag, (v, usual), r),
    ensures
        *v is None ==> r == usual,
        *v matches Some(s) ==> (!r <==> s@.len() == 1 && s@[0] == '0'),
{
    if let Some(s) = v {
        if s@.len() == 1 && s@[0] == '0' {
            assert(s@ =~= seq!['0']);
        }
    }
}

} // verus!
