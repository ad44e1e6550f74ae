//! Small text helpers: decimal numerals and whitespace trimming.
use vstd::prelude::*;
use vstd::string::*;

verus! {

/// Appends one character to a string; calls `String::push`.
#[verifier::external_body]
pub(crate) fn push_char(s: &mut String, c: char)
    ensures
        final(s)@ == old(s)@.push(c),
{
    s.push(c);
}

/// The character of a decimal digit.
pub open spec fn digit_char(d: nat) -> char {
    (48 + d) as char
}

/// Decimal digits of a natural number, most significant first, without
/// leading zeros (zero is written `0`).
pub open spec fn decimal_digits(n: nat) -> Seq<char>
    decreases n,
{
    if n < 10 {
        seq![digit_char(n)]
    } else {
        decimal_digits(n / 10).push(digit_char(n % 10))
    }
}

/// Decimal numeral of an integer, with a leading `-` when negative.
pub open spec fn decimal(n: int) -> Seq<char> {
    if n < 0 {
        seq!['-'] + decimal_digits((-n) as nat)
    } else {
        decimal_digits(n as nat)
    }
}

fn append_digits(s: &mut String, n: u64)
    ensures
        final(s)@ == old(s)@ + decimal_digits(n as nat),
    decreases n,
{
    if n >= 10 {
        append_digits(s, n / 10);
    }
    let d = (n % 10) as u8;
    push_char(s, (48u8 + d) as char);
    proof {
        assert(final(s)@ =~= old(s)@ + decimal_digits(n as nat));
    }
}

/// Appends the decimal numeral of `n` to `s`.
pub fn append_decimal(s: &mut String, n: i32)
    ensures
        final(s)@ == old(s)@ + decimal(n as int),
{
    if n < 0 {
        push_char(s, '-');
        let m = (-(n as i64)) as u64;
        append_digits(s, m);
        proof {
            assert(final(s)@ =~= old(s)@ + decimal(n as int));
        }
    } else {
        append_digits(s, n as u64);
    }
}

} // verus!

verus! {

/// Whether a character has the Unicode `White_Space` property, the
/// characters that `char::is_whitespace` accepts.
pub open spec fn is_white_space(c: char) -> bool {
    let u = c as u32;
    ||| 0x9 <= u <= 0xD
    ||| u == 0x20
    ||| u == 0x85
    ||| u == 0xA0
    ||| u == 0x1680
    ||| 0x2000 <= u <= 0x200A
    ||| u == 0x2028
    ||| u == 0x2029
    ||| u == 0x202F
    ||| u == 0x205F
    ||| u == 0x3000
}

/// Whether a character has the Unicode `White_Space` property.
pub fn is_white_space_exec(c: char) -> (b: bool)
    ensures
        b == is_white_space(c),
{
    let u = c as u32;
    (0x9 <= u && u <= 0xD) || u == 0x20 || u == 0x85 || u == 0xA0 || u == 0x1680 || (0x2000 <= u
        && u <= 0x200A) || u == 0x2028 || u == 0x2029 || u == 0x202F || u == 0x205F || u == 0x3000
}

/// `s` without its leading white space.
pub open spec fn trim_start_spec(s: Seq<char>) -> Seq<char>
    decreases s.len(),
{
    if s.len() > 0 && is_white_space(s[0]) {
        trim_start_spec(s.drop_first())
    } else {
        s
    }
}

/// `s` without its trailing white space.
pub open spec fn trim_end_spec(s: Seq<char>) -> Seq<char>
    decreases s.len(),
{
    if s.len() > 0 && is_white_space(s.last()) {
        trim_end_spec(s.drop_last())
    } else {
        s
    }
}

/// `s` without leading and trailing white space, as `str::trim` gives it.
pub open spec fn trim_spec(s: Seq<char>) -> Seq<char> {
    trim_end_spec(trim_start_spec(s))
}

proof fn lemma_trim_start_skip(s: Seq<char>, i: int)
    requires
        0 <= i <= s.len(),
        forall|j: int| 0 <= j < i ==> is_white_space(#[trigger] s[j]),
    ensures
        trim_start_spec(s) == trim_start_spec(s.subrange(i, s.len() as int)),
    decreases i,
{
    if i == 0 {
        assert(s.subrange(0, s.len() as int) =~= s);
    } else {
        let t = s.drop_first();
        assert forall|j: int| 0 <= j < i - 1 implies is_white_space(#[trigger] t[j]) by {
            assert(t[j] == s[j + 1]);
        }
        lemma_trim_start_skip(t, i - 1);
        assert(t.subrange(i - 1, t.len() as int) =~= s.subrange(i, s.len() as int));
    }
}

proof fn lemma_trim_end_skip(s: Seq<char>, e: int)
    requires
        0 <= e <= s.len(),
        forall|j: int| e <= j < s.len() ==> is_white_space(#[trigger] s[j]),
    ensures
        trim_end_spec(s) == trim_end_spec(s.subrange(0, e)),
    decreases s.len() - e,
{
    if e == s.len() {
        assert(s.subrange(0, e) =~= s);
    } else {
        let t = s.drop_last();
        lemma_trim_end_skip(t, e);
        assert(t.subrange(0, e) =~= s.subrange(0, e));
    }
}

/// `s` without leading and trailing white space.
pub fn trim(s: &str) -> (t: String)
    ensures
        t@ == trim_spec(s@),
{
    let n = s.unicode_len();
    let mut a: usize = 0;
    while a < n && is_white_space_exec(s.get_char(a))
        invariant
            n == s@.len(),
            a <= n,
            forall|j: int| 0 <= j < a ==> is_white_space(#[trigger] s@[j]),
        decreases n - a,
    {
        a = a + 1;
    }
    let mut b: usize = n;
    while b > a && is_white_space_exec(s.get_char(b - 1))
        invariant
            n == s@.len(),
            a <= b <= n,
            forall|j: int| b <= j < n ==> is_white_space(#[trigger] s@[j]),
        decreases b - a,
    {
        b = b - 1;
    }
    let part = s.substring_char(a, b);
    proof {
        lemma_trim_start_skip(s@, a as int);
        let u = s@.subrange(a as int, n as int);
        if a < n {
            assert(!is_white_space(u[0]));
        }
        assert(trim_start_spec(u) == u);
        assert forall|j: int| b - a <= j < u.len() implies is_white_space(#[trigger] u[j]) by {
            assert(u[j] == s@[j + a]);
        }
        lemma_trim_end_skip(u, b - a);
        let w = u.subrange(0, b - a);
        assert(w =~= s@.subrange(a as int, b as int));
        if b > a {
            assert(w.last() == s@[b - 1]);
        }
        assert(trim_end_spec(w) == w);
    }
    part.to_owned()
}

} // verus!

verus! {

proof fn lemma_trim_start_props(s: Seq<char>)
    ensures
        exists|a: int|
            0 <= a <= s.len() && trim_start_spec(s) == s.subrange(a, s.len() as int) && (forall|j: int|
                0 <= j < a ==> is_white_space(#[trigger] s[j])),
        trim_start_spec(s).len() == 0 || !is_white_space(trim_start_spec(s)[0]),
    decreases s.len(),
{
    if s.len() > 0 && is_white_space(s[0]) {
        let t = s.drop_first();
        lemma_trim_start_props(t);
        let a = choose|a: int|
            0 <= a <= t.len() && trim_start_spec(t) == t.subrange(a, t.len() as int) && (forall|j: int|
                0 <= j < a ==> is_white_space(#[trigger] t[j]));
        assert(t.subrange(a, t.len() as int) =~= s.subrange(a + 1, s.len() as int));
        assert forall|j: int| 0 <= j < a + 1 implies is_white_space(#[trigger] s[j]) by {
            if j > 0 {
                assert(s[j] == t[j - 1]);
            }
        }
    } else {
        assert(s.subrange(0, s.len() as int) =~= s);
    }
}

proof fn lemma_trim_end_props(s: Seq<char>)
    ensures
        exists|b: int|
            0 <= b <= s.len() && trim_end_spec(s) == s.subrange(0, b) && (forall|j: int|
                b <= j < s.len() ==> is_white_space(#[trigger] s[j])),
        trim_end_spec(s).len() == 0 || !is_white_space(trim_end_spec(s).last()),
    decreases s.len(),
{
    if s.len() > 0 && is_white_space(s.last()) {
        let t = s.drop_last();
        lemma_trim_end_props(t);
        let b = choose|b: int|
            0 <= b <= t.len() && trim_end_spec(t) == t.subrange(0, b) && (forall|j: int|
                b <= j < t.len() ==> is_white_space(#[trigger] t[j]));
        assert(t.subrange(0, b) =~= s.subrange(0, b));
        assert forall|j: int| b <= j < s.len() implies is_white_space(#[trigger] s[j]) by {
            if j < s.len() - 1 {
                assert(s[j] == t[j]);
            }
        }
    } else {
        assert(s.subrange(0, s.len() as int) =~= s);
    }
}

/// Trimming keeps a contiguous part of the text, drops only white space
/// around it, and leaves no white space at either end.
pub proof fn lemma_trim_shape(s: Seq<char>)
    ensures
        exists|a: int, b: int|
            0 <= a <= b <= s.len() && trim_spec(s) == s.subrange(a, b) && (forall|j: int|
                0 <= j < a ==> is_white_space(#[trigger] s[j])) && (forall|j: int|
                b <= j < s.len() ==> is_white_space(#[trigger] s[j])),
        trim_spec(s).len() > 0 ==> !is_white_space(trim_spec(s)[0]) && !is_white_space(
            trim_spec(s).last(),
        ),
{
    let u = trim_start_spec(s);
    lemma_trim_start_props(s);
    lemma_trim_end_props(u);
    let a = choose|a: int|
        0 <= a <= s.len() && trim_start_spec(s) == s.subrange(a, s.len() as int) && (forall|j: int|
            0 <= j < a ==> is_white_space(#[trigger] s[j]));
    let b = choose|b: int|
        0 <= b <= u.len() && trim_end_spec(u) == u.subrange(0, b) && (forall|j: int|
            b <= j < u.len() ==> is_white_space(#[trigger] u[j]));
    assert(u.subrange(0, b) =~= s.subrange(a, a + b));
    assert forall|j: int| a + b <= j < s.len() implies is_white_space(#[trigger] s[j]) by {
        assert(s[j] == u[j - a]);
    }
    if trim_spec(s).len() > 0 {
        let t = trim_spec(s);
        assert(t[0] == u[0]);
        if b == u.len() {
            assert(u.len() > 0);
        }
    }
}

/// Trimming twice trims no more than trimming once.
pub proof fn lemma_trim_idempotent(s: Seq<char>)
    ensures
        trim_spec(trim_spec(s)) == trim_spec(s),
{
    let t = trim_spec(s);
    lemma_trim_shape(s);
    if t.len() > 0 {
        assert(trim_start_spec(t) == t);
        assert(trim_end_spec(t) == t);
    }
}

} // verus!

verus! {

/// Whether a character is a decimal digit.
pub open spec fn is_digit(c: char) -> bool {
    48 <= (c as int) <= 57
}

proof fn lemma_digits_shape(n: nat)
    ensures
        decimal_digits(n).len() >= 1,
        n >= 10 ==> decimal_digits(n).len() >= 2,
        forall|i: int| 0 <= i < decimal_digits(n).len() ==> is_digit(#[trigger] decimal_digits(n)[i]),
    decreases n,
{
    if n >= 10 {
        lemma_digits_shape(n / 10);
        let s = decimal_digits(n / 10);
        assert forall|i: int| 0 <= i < s.push(digit_char(n % 10)).len() implies is_digit(
            #[trigger] s.push(digit_char(n % 10))[i],
        ) by {
            if i < s.len() {
                assert(s.push(digit_char(n % 10))[i] == s[i]);
            }
        }
    }
}

proof fn lemma_digits_injective(a: nat, b: nat)
    requires
        decimal_digits(a) == decimal_digits(b),
    ensures
        a == b,
    decreases a,
{
    lemma_digits_shape(a);
    lemma_digits_shape(b);
    if a < 10 && b < 10 {
        assert(decimal_digits(a)[0] == digit_char(a));
        assert(decimal_digits(b)[0] == digit_char(b));
    } else if a >= 10 && b >= 10 {
        let (sa, sb) = (decimal_digits(a), decimal_digits(b));
        assert(sa.last() == digit_char(a % 10));
        assert(sb.last() == digit_char(b % 10));
        assert(sa.drop_last() =~= decimal_digits(a / 10));
        assert(sb.drop_last() =~= decimal_digits(b / 10));
        lemma_digits_injective(a / 10, b / 10);
    }
}

/// Decimal numerals hold only digits after an optional leading minus
/// sign, and different integers have different numerals.
pub proof fn lemma_decimal_injective(a: int, b: int)
    ensures
        forall|i: int| 0 <= i < decimal(a).len() ==> is_digit(#[trigger] decimal(a)[i]) || (i == 0
            && decimal(a)[i] == '-'),
        decimal(a) == decimal(b) ==> a == b,
{
    let (ma, mb) = ((if a < 0 { -a } else { a }) as nat, (if b < 0 { -b } else { b }) as nat);
    lemma_digits_shape(ma);
    lemma_digits_shape(mb);
    if a < 0 {
        assert forall|i: int| 0 <= i < decimal(a).len() implies is_digit(#[trigger] decimal(a)[i]) || (i == 0
            && decimal(a)[i] == '-') by {
            if i > 0 {
                assert(decimal(a)[i] == decimal_digits(ma)[i - 1]);
            }
        }
    }
    if decimal(a) == decimal(b) {
        if a < 0 && b < 0 {
            assert(decimal(a).drop_first() =~= decimal_digits(ma));
            assert(decimal(b).drop_first() =~= decimal_digits(mb));
            lemma_digits_injective(ma, mb);
        } else if a >= 0 && b >= 0 {
            lemma_digits_injective(ma, mb);
        } else if a < 0 {
            assert(decimal(a)[0] == '-');
            assert(is_digit(decimal_digits(mb)[0]));
        } else {
            assert(decimal(b)[0] == '-');
            assert(is_digit(decimal_digits(ma)[0]));
        }
    }
}

} // verus!

verus! {

/// The code points of the Unicode `White_Space` property.
pub open spec fn white_space_table() -> Seq<int> {
    seq![
        0x9, 0xA, 0xB, 0xC, 0xD, 0x20, 0x85, 0xA0, 0x1680,
        0x2000, 0x2001, 0x2002, 0x2003, 0x2004, 0x2005, 0x2006, 0x2007, 0x2008, 0x2009, 0x200A,
        0x2028, 0x2029, 0x202F, 0x205F, 0x3000,
    ]
}

/// A character counts as white space exactly when its code point is in
/// the Unicode `White_Space` table; in particular no printable ASCII
/// character (`!` to `~`: letters, digits, punctuation) is white space.
pub proof fn lemma_white_space_is_unicode_table(c: char)
    ensures
        is_white_space(c) <==> white_space_table().contains(c as int),
        0x21 <= (c as int) <= 0x7E ==> !is_white_space(c),
{
    let t = white_space_table();
    let u = c as int;
    if is_white_space(c) {
        if 0x9 <= u <= 0xD {
            assert(t[u - 0x9] == u);
        } else if 0x2000 <= u <= 0x200A {
            assert(t[u - 0x2000 + 9] == u);
        } else if u == 0x20 {
            assert(t[5] == u);
        } else if u == 0x85 {
            assert(t[6] == u);
        } else if u == 0xA0 {
            assert(t[7] == u);
        } else if u == 0x1680 {
            assert(t[8] == u);
        } else if u == 0x2028 {
            assert(t[20] == u);
        } else if u == 0x2029 {
            assert(t[21] == u);
        } else if u == 0x202F {
            assert(t[22] == u);
        } else if u == 0x205F {
            assert(t[23] == u);
        } else {
            assert(t[24] == u);
        }
    }
    if t.contains(u) {
        let k = choose|k: int| 0 <= k < t.len() && t[k] == u;
        assert(0 <= k < 25);
    }
}

/// Trimming strips only white space: a text that begins (or ends) with a
/// printable ASCII character keeps that first (or last) character, and a
/// text without white space at either end is left unchanged.
pub proof fn lemma_trim_keeps_non_white_space(s: Seq<char>)
    ensures
        s.len() > 0 && 0x21 <= (s[0] as int) <= 0x7E ==> trim_spec(s).len() > 0 && trim_spec(s)[0]
            == s[0],
        s.len() > 0 && 0x21 <= (s.last() as int) <= 0x7E ==> trim_spec(s).len() > 0 && trim_spec(
            s,
        ).last() == s.last(),
        s.len() > 0 && !is_white_space(s[0]) && !is_white_space(s.last()) ==> trim_spec(s) == s,
{
    lemma_trim_shape(s);
    if s.len() > 0 {
        lemma_white_space_is_unicode_table(s[0]);
        lemma_white_space_is_unicode_table(s.last());
        let (a, b) = choose|a: int, b: int|
            0 <= a <= b <= s.len() && trim_spec(s) == s.subrange(a, b) && (forall|j: int|
                0 <= j < a ==> is_white_space(#[trigger] s[j])) && (forall|j: int|
                b <= j < s.len() ==> is_white_space(#[trigger] s[j]));
        if !is_white_space(s[0]) {
            assert(a == 0);
            if b == 0 {
                assert(is_white_space(s[0]));
            }
        }
        if !is_white_space(s.last()) {
            assert(b == s.len());
            if a == s.len() {
                assert(is_white_space(s[s.len() - 1]));
            }
        }
        if !is_white_space(s[0]) && !is_white_space(s.last()) {
            assert(s.subrange(0, s.len() as int) =~= s);
        }
    }
}

/// The value of a string of decimal digits, most significant first.
pub open spec fn digits_value(s: Seq<char>) -> int
    decreases s.len(),
{
    if s.len() == 0 {
        0
    } else {
        10 * digits_value(s.drop_last()) + (s.last() as int - 48)
    }
}

/// The value of a numeral: digits, optionally after a minus sign.
pub open spec fn numeral_value(s: Seq<char>) -> int {
    if s.len() > 0 && s[0] == '-' {
        -digits_value(s.drop_first())
    } else {
        digits_value(s)
    }
}

proof fn lemma_digits_value(n: nat)
    ensures
        digits_value(decimal_digits(n)) == n,
    decreases n,
{
    if n >= 10 {
        lemma_digits_value(n / 10);
        let s = decimal_digits(n);
        assert(s.drop_last() == decimal_digits(n / 10));
        assert(s.last() == digit_char(n % 10));
        assert((digit_char(n % 10) as int) == 48 + n % 10);
        assert(n == 10 * (n / 10) + n % 10);
    } else {
        let s = decimal_digits(n);
        assert(s.drop_last() =~= Seq::<char>::empty());
        assert(digits_value(s.drop_last()) == 0);
        assert(s.last() == digit_char(n));
        assert((digit_char(n) as int) == 48 + n);
    }
}

/// A decimal numeral reads back as the integer it was made from.
pub proof fn lemma_decimal_value(n: int)
    ensures
        numeral_value(decimal(n)) == n,
{
    let m = (if n < 0 { -n } else { n }) as nat;
    lemma_digits_value(m);
    lemma_digits_shape(m);
    if n < 0 {
        assert(decimal(n).drop_first() =~= decimal_digits(m));
    } else {
        assert(is_digit(decimal_digits(m)[0]));
    }
}

} // verus!
