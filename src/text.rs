//! Character-level model of dice text: decimal numerals, terminal
//! markers, marker stripping and the ", " separated list form.
use vstd::prelude::*;

verus! {

/// The escape character that opens every terminal marker.
pub open spec fn esc() -> char {
    '\x1B'
}

pub open spec fn is_digit(c: char) -> bool {
    '0' <= c && c <= '9'
}

/// Value of a decimal digit character.
pub open spec fn digit_val(c: char) -> int {
    c as int - '0' as int
}

/// The digit character for `d` in `0..10`.
pub open spec fn digit_char(d: int) -> char {
    if d == 0 {
        '0'
    } else if d == 1 {
        '1'
    } else if d == 2 {
        '2'
    } else if d == 3 {
        '3'
    } else if d == 4 {
        '4'
    } else if d == 5 {
        '5'
    } else if d == 6 {
        '6'
    } else if d == 7 {
        '7'
    } else if d == 8 {
        '8'
    } else {
        '9'
    }
}

/// A non-empty run of decimal digits.
pub open spec fn is_decimal(s: Seq<char>) -> bool {
    s.len() > 0 && forall|i: int| 0 <= i < s.len() ==> is_digit(#[trigger] s[i])
}

/// The base-10 value of a run of digits, most significant first.
pub open spec fn digits_value(s: Seq<char>) -> int
    decreases s.len(),
{
    if s.len() == 0 {
        0
    } else {
        digits_value(s.drop_last()) * 10 + digit_val(s.last())
    }
}

/// The value of `s` read as an unsigned 32-bit decimal integer: no sign, no
/// blanks, at least one digit, and small enough to fit.
pub open spec fn number_value(s: Seq<char>) -> Option<u32> {
    if is_decimal(s) && digits_value(s) <= u32::MAX {
        Some(digits_value(s) as u32)
    } else {
        None
    }
}

/// The shortest decimal numeral of `n`.
pub open spec fn decimal(n: nat) -> Seq<char>
    decreases n,
{
    if n < 10 {
        seq![digit_char(n as int)]
    } else {
        decimal(n / 10).push(digit_char((n % 10) as int))
    }
}

/// No escape character anywhere in `s`.
pub open spec fn plain(s: Seq<char>) -> bool {
    forall|i: int| 0 <= i < s.len() ==> #[trigger] s[i] != esc()
}

/// No `c` anywhere in `s`.
pub open spec fn free_of(s: Seq<char>, c: char) -> bool {
    forall|i: int| 0 <= i < s.len() ==> #[trigger] s[i] != c
}

pub open spec fn reset_code() -> Seq<char> {
    seq![esc(), '[', '0', 'm']
}

pub open spec fn strike_code() -> Seq<char> {
    seq![esc(), '[', '9', 'm']
}

pub open spec fn red_code() -> Seq<char> {
    seq![esc(), '[', '3', '1', 'm']
}

pub open spec fn green_code() -> Seq<char> {
    seq![esc(), '[', '3', '2', 'm']
}

/// `s` marked as a critical failure.
pub open spec fn red_text(s: Seq<char>) -> Seq<char> {
    red_code() + s + reset_code()
}

/// `s` marked as a critical success.
pub open spec fn green_text(s: Seq<char>) -> Seq<char> {
    green_code() + s + reset_code()
}

/// `s` marked as struck through.
pub open spec fn struck(s: Seq<char>) -> Seq<char> {
    strike_code() + s + reset_code()
}

/// `s` with every marker removed: an escape character and everything up to
/// and including the next `m` are dropped. `inside` says whether a marker
/// is already open.
pub open spec fn strip_from(s: Seq<char>, inside: bool) -> Seq<char>
    decreases s.len(),
{
    if s.len() == 0 {
        seq![]
    } else if inside {
        strip_from(s.drop_first(), s[0] != 'm')
    } else if s[0] == esc() {
        strip_from(s.drop_first(), true)
    } else {
        seq![s[0]] + strip_from(s.drop_first(), false)
    }
}

pub open spec fn strip_markers(s: Seq<char>) -> Seq<char> {
    strip_from(s, false)
}

/// Whether a strike-through marker starts at the front of `s`.
pub open spec fn strike_at_front(s: Seq<char>) -> bool {
    s.len() >= 4 && s[0] == esc() && s[1] == '[' && s[2] == '9' && s[3] == 'm'
}

/// How many strike-through markers occur in `s`.
pub open spec fn strike_count(s: Seq<char>) -> nat
    decreases s.len(),
{
    if s.len() == 0 {
        0
    } else {
        (if strike_at_front(s) { 1nat } else { 0nat }) + strike_count(s.drop_first())
    }
}

/// No escape character among the last three characters of `s`, so no marker
/// can straddle the end of `s` and whatever follows it.
pub open spec fn tail_clear(s: Seq<char>) -> bool {
    forall|i: int| 0 <= i < s.len() && s.len() - 3 <= i ==> #[trigger] s[i] != esc()
}

/// The parts in order, with ", " between each two neighbours.
pub open spec fn join_list(parts: Seq<Seq<char>>) -> Seq<char>
    decreases parts.len(),
{
    if parts.len() == 0 {
        seq![]
    } else if parts.len() == 1 {
        parts[0]
    } else {
        join_list(parts.drop_last()) + seq![',', ' '] + parts.last()
    }
}

pub proof fn lemma_digit_char(d: int)
    requires
        0 <= d < 10,
    ensures
        is_digit(digit_char(d)),
        digit_val(digit_char(d)) == d,
{
}

pub proof fn lemma_decimal(n: nat)
    ensures
        is_decimal(decimal(n)),
        digits_value(decimal(n)) == n,
    decreases n,
{
    if n < 10 {
        lemma_digit_char(n as int);
        assert(decimal(n).drop_last() =~= seq![]);
        assert(digits_value(seq![]) == 0);
        assert(decimal(n).last() == digit_char(n as int));
    } else {
        lemma_decimal(n / 10);
        lemma_digit_char((n % 10) as int);
        assert(decimal(n).drop_last() =~= decimal(n / 10));
        assert(decimal(n).last() == digit_char((n % 10) as int));
        assert(n == (n / 10) * 10 + n % 10) by (nonlinear_arith);
    }
}

pub proof fn lemma_digits_nonneg(s: Seq<char>)
    requires
        forall|i: int| 0 <= i < s.len() ==> is_digit(#[trigger] s[i]),
    ensures
        digits_value(s) >= 0,
    decreases s.len(),
{
    if s.len() > 0 {
        lemma_digits_nonneg(s.drop_last());
    }
}

/// A longer prefix of a run of digits is worth at least as much.
pub proof fn lemma_prefix_value_grows(s: Seq<char>, i: int, j: int)
    requires
        0 <= i <= j <= s.len(),
        forall|k: int| 0 <= k < s.len() ==> is_digit(#[trigger] s[k]),
    ensures
        digits_value(s.take(i)) <= digits_value(s.take(j)),
    decreases j - i,
{
    if i < j {
        lemma_prefix_value_grows(s, i, j - 1);
        assert(s.take(j).drop_last() =~= s.take(j - 1));
        lemma_digits_nonneg(s.take(j - 1));
        assert(digits_value(s.take(j - 1)) <= digits_value(s.take(j - 1)) * 10) by (nonlinear_arith)
            requires
                digits_value(s.take(j - 1)) >= 0,
        ;
    }
}

/// Plain text passes through marker stripping unchanged.
pub proof fn lemma_strip_plain_prefix(s: Seq<char>, t: Seq<char>)
    requires
        plain(s),
    ensures
        strip_from(s + t, false) == s + strip_from(t, false),
    decreases s.len(),
{
    if s.len() == 0 {
        assert(s + t =~= t);
        assert(s + strip_from(t, false) =~= strip_from(t, false));
    } else {
        assert((s + t).drop_first() =~= s.drop_first() + t);
        assert((s + t)[0] == s[0]);
        lemma_strip_plain_prefix(s.drop_first(), t);
        assert(seq![s[0]] + (s.drop_first() + strip_from(t, false)) =~= s + strip_from(t, false));
    }
}

/// The rest of an open marker, through its closing `m`, is dropped.
proof fn lemma_strip_inside(u: Seq<char>, t: Seq<char>)
    requires
        u.len() >= 1,
        u.last() == 'm',
        forall|i: int| 0 <= i < u.len() - 1 ==> #[trigger] u[i] != 'm',
    ensures
        strip_from(u + t, true) == strip_from(t, false),
    decreases u.len(),
{
    assert((u + t).drop_first() =~= u.drop_first() + t);
    if u.len() == 1 {
        assert(u.drop_first() + t =~= t);
    } else {
        assert(u[0] != 'm');
        lemma_strip_inside(u.drop_first(), t);
    }
}

/// A whole marker is dropped by stripping.
pub proof fn lemma_strip_marker(code: Seq<char>, t: Seq<char>)
    requires
        code.len() >= 2,
        code[0] == esc(),
        code.last() == 'm',
        forall|i: int| 1 <= i < code.len() - 1 ==> #[trigger] code[i] != 'm',
    ensures
        strip_from(code + t, false) == strip_from(t, false),
{
    assert((code + t).drop_first() =~= code.drop_first() + t);
    assert forall|i: int| 0 <= i < code.drop_first().len() - 1 implies #[trigger] code.drop_first()[i]
        != 'm' by {
        assert(code.drop_first()[i] == code[i + 1]);
    }
    lemma_strip_inside(code.drop_first(), t);
}

pub proof fn lemma_strikes_plain(s: Seq<char>)
    requires
        plain(s),
    ensures
        strike_count(s) == 0,
    decreases s.len(),
{
    if s.len() > 0 {
        lemma_strikes_plain(s.drop_first());
    }
}

/// Strike markers of a concatenation add up when none straddles the seam.
pub proof fn lemma_strikes_concat(a: Seq<char>, b: Seq<char>)
    requires
        tail_clear(a),
    ensures
        strike_count(a + b) == strike_count(a) + strike_count(b),
    decreases a.len(),
{
    if a.len() == 0 {
        assert(a + b =~= b);
    } else {
        assert((a + b).drop_first() =~= a.drop_first() + b);
        assert(tail_clear(a.drop_first())) by {
            assert forall|i: int|
                0 <= i < a.drop_first().len() && a.drop_first().len() - 3 <= i implies #[trigger] a.drop_first()[i]
                != esc() by {
                assert(a.drop_first()[i] == a[i + 1]);
            }
        }
        lemma_strikes_concat(a.drop_first(), b);
        if a.len() < 4 {
            assert(a[0] != esc());
        }
        assert(strike_at_front(a + b) == strike_at_front(a));
    }
}

/// Facts about the fixed markers.
pub proof fn lemma_codes()
    ensures
        strike_count(strike_code()) == 1,
        strike_count(reset_code()) == 0,
        strike_count(red_code()) == 0,
        strike_count(green_code()) == 0,
        tail_clear(strike_code()),
        tail_clear(reset_code()),
        tail_clear(red_code()),
        tail_clear(green_code()),
        free_of(strike_code(), ','),
        free_of(reset_code(), ','),
        free_of(red_code(), ','),
        free_of(green_code(), ','),
{
    lemma_strikes_plain(strike_code().drop_first());
    lemma_strikes_plain(reset_code().drop_first());
    lemma_strikes_plain(red_code().drop_first());
    lemma_strikes_plain(green_code().drop_first());
}

} // verus!
