//! Properties of dice notation and rendered rolls, proved from the
//! contracts of `parse_roll` and `roll_dice`.
use crate::dice::{
    first_d, group_shows, lemma_first_d, notation, pair_text, roll_text, rolls_show, shown,
    valid_draws, DiceError,
};
use crate::text::{
    decimal, digits_value, free_of, is_decimal, is_digit, join_list, lemma_codes, lemma_decimal,
    lemma_strikes_concat, lemma_strikes_plain, lemma_strip_marker, lemma_strip_plain_prefix,
    number_value, plain, red_code, red_text, green_code, green_text, reset_code, strike_code,
    strike_count, strip_from, strip_markers, tail_clear,
};
use vstd::prelude::*;

verus! {

/// Digits never include the letter `d`.
proof fn lemma_numeral_has_no_d(s: Seq<char>)
    requires
        forall|i: int| 0 <= i < s.len() ==> is_digit(#[trigger] s[i]),
    ensures
        !s.contains('d'),
{
    assert forall|i: int| 0 <= i < s.len() implies s[i] != 'd' by {
        assert(is_digit(s[i]));
    }
}

/// An optional count numeral, `d`, and a sides numeral parse to that count
/// (one when the count is left out) and those sides; a sides numeral alone
/// parses to one die with that many sides.
pub proof fn law_parse_numerals(n: Seq<char>, m: Seq<char>)
    requires
        n.len() == 0 || (is_decimal(n) && 1 <= digits_value(n) <= u32::MAX),
        is_decimal(m),
        1 <= digits_value(m) <= u32::MAX,
    ensures
        notation(n + seq!['d'] + m) == Ok::<(u32, u32), DiceError>(
            (
                if n.len() == 0 {
                    1u32
                } else {
                    digits_value(n) as u32
                },
                digits_value(m) as u32,
            ),
        ),
        notation(m) == Ok::<(u32, u32), DiceError>((1u32, digits_value(m) as u32)),
{
    lemma_numeral_has_no_d(m);
    let s = n + seq!['d'] + m;
    let k = n.len() as int;
    assert forall|j: int| 0 <= j < k implies s[j] != 'd' by {
        assert(s[j] == n[j]);
        assert(is_digit(n[j]));
    }
    assert(s[k] == 'd');
    lemma_first_d(s, k);
    assert(s.contains('d'));
    assert(s.take(first_d(s)) =~= n);
    assert(s.skip(first_d(s) + 1) =~= m);
}

proof fn lemma_free_concat(a: Seq<char>, b: Seq<char>, c: char)
    requires
        free_of(a, c),
        free_of(b, c),
    ensures
        free_of(a + b, c),
{
    assert forall|i: int| 0 <= i < (a + b).len() implies #[trigger] (a + b)[i] != c by {
        if i < a.len() {
            assert((a + b)[i] == a[i]);
        } else {
            assert((a + b)[i] == b[i - a.len()]);
        }
    }
}

proof fn lemma_plain_facts(s: Seq<char>)
    requires
        plain(s),
    ensures
        tail_clear(s),
        strike_count(s) == 0,
        strip_markers(s) == s,
{
    lemma_strikes_plain(s);
    lemma_strip_plain_prefix(s, seq![]);
    assert(s + seq![] =~= s);
    assert(strip_from(seq![], false) =~= seq![]);
    assert(s + strip_from(seq![], false) =~= s);
}

proof fn lemma_numeral_facts(v: nat)
    ensures
        plain(decimal(v)),
        free_of(decimal(v), ','),
        decimal(v).len() >= 1,
{
    lemma_decimal(v);
    let d = decimal(v);
    assert forall|i: int| 0 <= i < d.len() implies #[trigger] d[i] != crate::text::esc() && d[i]
        != ',' by {
        assert(is_digit(d[i]));
    }
}

/// A numeral between an opening marker and the reset marker.
proof fn lemma_marked_facts(code: Seq<char>, d: Seq<char>)
    requires
        code == red_code() || code == green_code(),
        plain(d),
        free_of(d, ','),
    ensures
        strip_markers(code + d + reset_code()) == d,
        free_of(code + d + reset_code(), ','),
        tail_clear(code + d + reset_code()),
        strike_count(code + d + reset_code()) == 0,
{
    lemma_codes();
    let t = code + d + reset_code();
    assert(t =~= code + (d + reset_code()));
    lemma_strip_marker(code, d + reset_code());
    lemma_strip_plain_prefix(d, reset_code());
    lemma_strip_marker(reset_code(), seq![]);
    assert(reset_code() + seq![] =~= reset_code());
    assert(strip_from(seq![], false) =~= seq![]);
    assert(d + seq![] =~= d);
    lemma_free_concat(d, reset_code(), ',');
    lemma_free_concat(code, d + reset_code(), ',');
    assert forall|i: int| 0 <= i < t.len() && t.len() - 3 <= i implies #[trigger] t[i]
        != crate::text::esc() by {
        assert(t[i] == reset_code()[i - code.len() - d.len()]);
    }
    lemma_plain_facts(d);
    lemma_strikes_concat(d, reset_code());
    lemma_strikes_concat(code, d + reset_code());
}

/// What holds of one rendered die.
proof fn lemma_shown_facts(t: Seq<char>, v: int, sides: int)
    requires
        shown(t, v, sides),
        1 <= v <= sides <= u32::MAX,
    ensures
        strip_markers(t) == decimal(v as nat),
        number_value(decimal(v as nat)) == Some(v as u32),
        free_of(t, ','),
        tail_clear(t),
        strike_count(t) == 0,
{
    lemma_decimal(v as nat);
    lemma_numeral_facts(v as nat);
    let d = decimal(v as nat);
    if t == d {
        lemma_plain_facts(d);
    } else if v == 1 {
        assert(t == red_text(d));
        lemma_marked_facts(red_code(), d);
    } else {
        assert(t == green_text(d));
        lemma_marked_facts(green_code(), d);
    }
}

/// A single plain roll, markers stripped, reads as a number from one to the
/// number of sides.
pub proof fn law_single_roll_reads_as_face(out: Seq<char>, sides: u32)
    requires
        roll_text(out, sides, 1, false, false),
    ensures
        number_value(strip_markers(out)) matches Some(v) && 1 <= v <= sides,
{
    let (draws, groups) = choose|draws: Seq<u32>, groups: Seq<Seq<char>>|
        #[trigger] rolls_show(groups, draws, sides, false, false) && valid_draws(draws, sides)
            && groups.len() == 1 && out == join_list(groups);
    assert(group_shows(groups[0], draws, 0, sides, false, false));
    lemma_shown_facts(groups[0], draws[0] as int, sides as int);
}

/// Plain rolls split at ", " into exactly `count` pieces; each, markers
/// stripped, reads as a number from one to the number of sides.
pub proof fn law_plain_rolls_read_as_faces(out: Seq<char>, sides: u32, count: u32)
    requires
        roll_text(out, sides, count, false, false),
    ensures
        exists|parts: Seq<Seq<char>>|
            parts.len() == count && out == #[trigger] join_list(parts) && forall|i: int|
                0 <= i < parts.len() ==> free_of(#[trigger] parts[i], ',') && (number_value(
                    strip_markers(parts[i]),
                ) matches Some(v) && 1 <= v <= sides),
{
    let (draws, groups) = choose|draws: Seq<u32>, groups: Seq<Seq<char>>|
        #[trigger] rolls_show(groups, draws, sides, false, false) && valid_draws(draws, sides)
            && groups.len() == count && out == join_list(groups);
    assert forall|i: int| 0 <= i < groups.len() implies free_of(#[trigger] groups[i], ',') && (
    number_value(strip_markers(groups[i])) matches Some(v) && 1 <= v <= sides) by {
        assert(group_shows(groups[i], draws, i, sides, false, false));
        lemma_shown_facts(groups[i], draws[i] as int, sides as int);
    }
    assert(join_list(groups) == out);
}

/// What holds of one rendered pair.
proof fn lemma_pair_facts(f1: Seq<char>, f2: Seq<char>, keep_first: bool)
    requires
        free_of(f1, ','),
        free_of(f2, ','),
        tail_clear(f1),
        tail_clear(f2),
        strike_count(f1) == 0,
        strike_count(f2) == 0,
    ensures
        pair_text(f1, f2, keep_first).len() >= 2,
        pair_text(f1, f2, keep_first)[0] == '(',
        pair_text(f1, f2, keep_first).last() == ')',
        free_of(pair_text(f1, f2, keep_first), ','),
        strike_count(pair_text(f1, f2, keep_first)) == 1,
{
    lemma_codes();
    let open = seq!['('];
    let close = seq![')'];
    let gap = seq![' '];
    lemma_plain_facts(open);
    lemma_plain_facts(close);
    lemma_plain_facts(gap);
    let p = pair_text(f1, f2, keep_first);
    if keep_first {
        let r5 = reset_code() + close;
        let r4 = f2 + r5;
        let r3 = strike_code() + r4;
        let r2 = gap + r3;
        let r1 = f1 + r2;
        assert(p =~= open + r1);
        lemma_strikes_concat(reset_code(), close);
        lemma_strikes_concat(f2, r5);
        lemma_strikes_concat(strike_code(), r4);
        lemma_strikes_concat(gap, r3);
        lemma_strikes_concat(f1, r2);
        lemma_strikes_concat(open, r1);
        lemma_free_concat(reset_code(), close, ',');
        lemma_free_concat(f2, r5, ',');
        lemma_free_concat(strike_code(), r4, ',');
        lemma_free_concat(gap, r3, ',');
        lemma_free_concat(f1, r2, ',');
        lemma_free_concat(open, r1, ',');
    } else {
        let r5 = f2 + close;
        let r4 = gap + r5;
        let r3 = reset_code() + r4;
        let r2 = f1 + r3;
        let r1 = strike_code() + r2;
        assert(p =~= open + r1);
        lemma_strikes_concat(f2, close);
        lemma_strikes_concat(gap, r5);
        lemma_strikes_concat(reset_code(), r4);
        lemma_strikes_concat(f1, r3);
        lemma_strikes_concat(strike_code(), r2);
        lemma_strikes_concat(open, r1);
        lemma_free_concat(f2, close, ',');
        lemma_free_concat(gap, r5, ',');
        lemma_free_concat(reset_code(), r4, ',');
        lemma_free_concat(f1, r3, ',');
        lemma_free_concat(strike_code(), r2, ',');
        lemma_free_concat(open, r1, ',');
    }
}

/// Rolls with advantage or disadvantage split at ", " into exactly `count`
/// pieces, each wrapped in one pair of parentheses and holding exactly one
/// strike-through marker.
pub proof fn law_paired_rolls_strike_one(
    out: Seq<char>,
    sides: u32,
    count: u32,
    advantage: bool,
    disadvantage: bool,
)
    requires
        roll_text(out, sides, count, advantage, disadvantage),
        advantage || disadvantage,
    ensures
        exists|parts: Seq<Seq<char>>|
            parts.len() == count && out == #[trigger] join_list(parts) && forall|i: int|
                0 <= i < parts.len() ==> free_of(#[trigger] parts[i], ',') && parts[i].len() >= 2
                    && parts[i][0] == '(' && parts[i].last() == ')' && strike_count(parts[i])
                    == 1,
{
    let (draws, groups) = choose|draws: Seq<u32>, groups: Seq<Seq<char>>|
        #[trigger] rolls_show(groups, draws, sides, advantage, disadvantage) && valid_draws(
            draws,
            sides,
        ) && groups.len() == count && out == join_list(groups);
    assert forall|i: int| 0 <= i < groups.len() implies free_of(#[trigger] groups[i], ',')
        && groups[i].len() >= 2 && groups[i][0] == '(' && groups[i].last() == ')' && strike_count(
        groups[i],
    ) == 1 by {
        assert(group_shows(groups[i], draws, i, sides, advantage, true));
        let (f1, f2) = choose|f1: Seq<char>, f2: Seq<char>|
            shown(f1, draws[2 * i] as int, sides as int) && shown(
                f2,
                draws[2 * i + 1] as int,
                sides as int,
            ) && groups[i] == #[trigger] pair_text(
                f1,
                f2,
                crate::dice::first_wins(draws[2 * i] as int, draws[2 * i + 1] as int, advantage),
            );
        lemma_shown_facts(f1, draws[2 * i] as int, sides as int);
        lemma_shown_facts(f2, draws[2 * i + 1] as int, sides as int);
        lemma_pair_facts(
            f1,
            f2,
            crate::dice::first_wins(draws[2 * i] as int, draws[2 * i + 1] as int, advantage),
        );
    }
    assert(join_list(groups) == out);
}

/// A single roll with advantage or disadvantage is one parenthesised pair
/// holding exactly one strike-through marker.
pub proof fn law_single_paired_roll(out: Seq<char>, sides: u32, advantage: bool, disadvantage: bool)
    requires
        roll_text(out, sides, 1, advantage, disadvantage),
        advantage || disadvantage,
    ensures
        out.len() >= 2,
        out[0] == '(',
        out.last() == ')',
        strike_count(out) == 1,
{
    law_paired_rolls_strike_one(out, sides, 1, advantage, disadvantage);
    let parts = choose|parts: Seq<Seq<char>>|
        parts.len() == 1 && out == #[trigger] join_list(parts) && forall|i: int|
            0 <= i < parts.len() ==> free_of(#[trigger] parts[i], ',') && parts[i].len() >= 2
                && parts[i][0] == '(' && parts[i].last() == ')' && strike_count(parts[i]) == 1;
    assert(free_of(parts[0], ','));
}

} // verus!
