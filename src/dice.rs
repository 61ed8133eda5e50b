//! Dice notation ("2d20", "d6", "20") and dice rolling with advantage and
//! disadvantage.
use crate::text::{
    decimal, digit_char, digit_val, digits_value, is_decimal, is_digit, join_list,
    lemma_prefix_value_grows, number_value, plain, red_text, green_text, strike_code,
    reset_code,
};
use colored::Colorize;
use rand::Rng;
use vstd::prelude::*;

verus! {

#[derive(Debug, Clone, Copy, PartialEq, Eq, Structural)]
pub enum DiceError {
    InvalidSides,
    InvalidCount,
    InvalidFormat,
}

/// Index of the first `d` in `s` (its length when there is none).
pub open spec fn first_d(s: Seq<char>) -> int
    decreases s.len(),
{
    if s.len() == 0 {
        0
    } else if s[0] == 'd' {
        0
    } else {
        1 + first_d(s.drop_first())
    }
}

/// The meaning of a dice expression: split on `d` into one segment (the
/// sides, one die) or two (count, which defaults to one when empty, and
/// sides); anything else is a format error.
pub open spec fn notation(s: Seq<char>) -> Result<(u32, u32), DiceError> {
    if !s.contains('d') {
        match number_value(s) {
            Some(sides) => Ok((1u32, sides)),
            None => Err(DiceError::InvalidFormat),
        }
    } else {
        let head = s.take(first_d(s));
        let tail = s.skip(first_d(s) + 1);
        let count = if head.len() == 0 {
            Some(1u32)
        } else {
            number_value(head)
        };
        if tail.contains('d') {
            Err(DiceError::InvalidFormat)
        } else {
            match (count, number_value(tail)) {
                (Some(c), Some(n)) => Ok((c, n)),
                _ => Err(DiceError::InvalidFormat),
            }
        }
    }
}

pub proof fn lemma_first_d(s: Seq<char>, k: int)
    requires
        0 <= k < s.len(),
        s[k] == 'd',
        forall|j: int| 0 <= j < k ==> s[j] != 'd',
    ensures
        first_d(s) == k,
    decreases k,
{
    if k > 0 {
        assert(s[0] != 'd');
        lemma_first_d(s.drop_first(), k - 1);
    }
}

/// Position of the first `d` in `s`, or its length when there is none.
fn find_d(s: &str) -> (r: usize)
    ensures
        r <= s@.len(),
        forall|j: int| 0 <= j < r ==> s@[j] != 'd',
        r < s@.len() ==> s@[r as int] == 'd',
{
    let n = s.unicode_len();
    let mut k: usize = 0;
    while k < n
        invariant
            n == s@.len(),
            k <= n,
            forall|j: int| 0 <= j < k ==> s@[j] != 'd',
        decreases n - k,
    {
        if s.get_char(k) == 'd' {
            return k;
        }
        k = k + 1;
    }
    k
}

/// Reads `s` as an unsigned decimal integer that fits in 32 bits.
fn parse_number(s: &str) -> (r: Option<u32>)
    ensures
        r == number_value(s@),
{
    let n = s.unicode_len();
    if n == 0 {
        return None;
    }
    let mut acc: u64 = 0;
    let mut i: usize = 0;
    while i < n
        invariant
            n == s@.len(),
            i <= n,
            acc == digits_value(s@.take(i as int)),
            acc <= u32::MAX,
            forall|k: int| 0 <= k < i ==> is_digit(#[trigger] s@[k]),
        decreases n - i,
    {
        let c = s.get_char(i);
        if !('0' <= c && c <= '9') {
            assert(!is_digit(s@[i as int]));
            return None;
        }
        let d = (c as u32 - '0' as u32) as u64;
        assert(s@.take(i + 1).drop_last() =~= s@.take(i as int));
        assert(d == digit_val(s@[i as int]));
        let next = acc * 10 + d;
        assert(next == digits_value(s@.take(i + 1)));
        if next > u32::MAX as u64 {
            proof {
                if is_decimal(s@) {
                    lemma_prefix_value_grows(s@, i + 1, n as int);
                    assert(s@.take(n as int) =~= s@);
                }
            }
            return None;
        }
        acc = next;
        i = i + 1;
    }
    assert(s@.take(n as int) =~= s@);
    Some(acc as u32)
}

/// Parses a dice expression into `(count, sides)`. No range check is made
/// here: a count of zero or fewer than two sides is left to `roll_dice`.
pub fn parse_roll(roll_str: &str) -> (r: Result<(u32, u32), DiceError>)
    ensures
        r == notation(roll_str@),
{
    let n = roll_str.unicode_len();
    let k = find_d(roll_str);
    if k == n {
        assert(!roll_str@.contains('d'));
        return match parse_number(roll_str) {
            Some(sides) => Ok((1, sides)),
            None => Err(DiceError::InvalidFormat),
        };
    }
    proof {
        lemma_first_d(roll_str@, k as int);
    }
    let head = roll_str.substring_char(0, k);
    let tail = roll_str.substring_char(k + 1, n);
    assert(head@ =~= roll_str@.take(k as int));
    assert(tail@ =~= roll_str@.skip(k + 1));
    let k2 = find_d(tail);
    if k2 < tail.unicode_len() {
        assert(tail@.contains('d'));
        return Err(DiceError::InvalidFormat);
    }
    assert(!tail@.contains('d'));
    let count = if k == 0 {
        Some(1u32)
    } else {
        parse_number(head)
    };
    match (count, parse_number(tail)) {
        (Some(c), Some(sides)) => Ok((c, sides)),
        _ => Err(DiceError::InvalidFormat),
    }
}

/// How a single die showing `v` is rendered: a 1 may carry the critical
/// failure marker, the top face the critical success marker, and any other
/// value is the bare numeral. Whether a marker is present is up to the
/// terminal colouring, which the environment switches on or off.
pub open spec fn shown(t: Seq<char>, v: int, sides: int) -> bool {
    if v == 1 {
        t == decimal(1) || t == red_text(decimal(1))
    } else if v == sides {
        t == decimal(v as nat) || t == green_text(decimal(v as nat))
    } else {
        t == decimal(v as nat)
    }
}

/// Whether the first of two dice is kept: the higher under advantage, the
/// lower otherwise; a tie keeps the first.
pub open spec fn first_wins(roll1: int, roll2: int, advantage: bool) -> bool {
    if advantage {
        roll1 >= roll2
    } else {
        roll1 <= roll2
    }
}

/// Two rendered dice in draw order, in parentheses, the one not kept struck
/// through.
pub open spec fn pair_text(f1: Seq<char>, f2: Seq<char>, keep_first: bool) -> Seq<char> {
    if keep_first {
        seq!['('] + f1 + seq![' '] + strike_code() + f2 + reset_code() + seq![')']
    } else {
        seq!['('] + strike_code() + f1 + reset_code() + seq![' '] + f2 + seq![')']
    }
}

/// The `i`-th group of a roll rendered from `draws`: one die, or under
/// advantage or disadvantage the pair drawn at `2 * i` and `2 * i + 1`.
pub open spec fn group_shows(
    g: Seq<char>,
    draws: Seq<u32>,
    i: int,
    sides: u32,
    advantage: bool,
    paired: bool,
) -> bool {
    if paired {
        exists|f1: Seq<char>, f2: Seq<char>|
            shown(f1, draws[2 * i] as int, sides as int) && shown(
                f2,
                draws[2 * i + 1] as int,
                sides as int,
            ) && g == #[trigger] pair_text(
                f1,
                f2,
                first_wins(draws[2 * i] as int, draws[2 * i + 1] as int, advantage),
            )
    } else {
        shown(g, draws[i] as int, sides as int)
    }
}

/// `groups` render `draws` in order, one group per die or per pair.
pub open spec fn rolls_show(
    groups: Seq<Seq<char>>,
    draws: Seq<u32>,
    sides: u32,
    advantage: bool,
    disadvantage: bool,
) -> bool {
    let paired = advantage || disadvantage;
    &&& draws.len() == if paired {
        2 * groups.len()
    } else {
        groups.len()
    }
    &&& forall|i: int|
        0 <= i < groups.len() ==> group_shows(#[trigger] groups[i], draws, i, sides, advantage, paired)
}

/// Every draw is a face of the die.
pub open spec fn valid_draws(draws: Seq<u32>, sides: u32) -> bool {
    forall|i: int| 0 <= i < draws.len() ==> 1 <= #[trigger] draws[i] <= sides
}

/// `out` is a possible result of rolling `count` times: some faces were
/// drawn, rendered group by group, and joined with ", ".
pub open spec fn roll_text(
    out: Seq<char>,
    sides: u32,
    count: u32,
    advantage: bool,
    disadvantage: bool,
) -> bool {
    exists|draws: Seq<u32>, groups: Seq<Seq<char>>|
        #[trigger] rolls_show(groups, draws, sides, advantage, disadvantage) && valid_draws(
            draws,
            sides,
        ) && groups.len() == count && out == join_list(groups)
}

#[verifier::external_type_specification]
#[verifier::external_body]
pub struct ExThreadRng(rand::rngs::ThreadRng);

pub assume_specification[ rand::thread_rng ]() -> rand::rngs::ThreadRng;

/// Relies on rand's `Rng::gen_range` over `1..=sides`: a value in that
/// range. It panics on an empty range, which `requires` rules out.
#[verifier::external_body]
fn draw(rng: &mut rand::rngs::ThreadRng, sides: u32) -> (r: u32)
    requires
        1 <= sides,
    ensures
        1 <= r <= sides,
{
    rng.gen_range(1..=sides)
}

/// Relies on colored's `Colorize::red` displayed through `ToString`: the
/// text unchanged when colouring is off, else the text between the red
/// marker and the reset marker (text without an escape is not altered).
#[verifier::external_body]
fn paint_red(s: &str) -> (r: String)
    requires
        plain(s@),
    ensures
        r@ == s@ || r@ == red_text(s@),
{
    s.red().to_string()
}

/// Relies on colored's `Colorize::green` displayed through `ToString`: the
/// text unchanged when colouring is off, else the text between the green
/// marker and the reset marker (text without an escape is not altered).
#[verifier::external_body]
fn paint_green(s: &str) -> (r: String)
    requires
        plain(s@),
    ensures
        r@ == s@ || r@ == green_text(s@),
{
    s.green().to_string()
}

fn digit_str(d: u32) -> (r: &'static str)
    requires
        d < 10,
    ensures
        r@ == seq![digit_char(d as int)],
{
    proof {
        reveal_strlit("0");
        reveal_strlit("1");
        reveal_strlit("2");
        reveal_strlit("3");
        reveal_strlit("4");
        reveal_strlit("5");
        reveal_strlit("6");
        reveal_strlit("7");
        reveal_strlit("8");
        reveal_strlit("9");
    }
    match d {
        0 => "0",
        1 => "1",
        2 => "2",
        3 => "3",
        4 => "4",
        5 => "5",
        6 => "6",
        7 => "7",
        8 => "8",
        _ => "9",
    }
}

/// The decimal numeral of `n`.
pub fn decimal_text(n: u32) -> (r: String)
    ensures
        r@ == decimal(n as nat),
    decreases n,
{
    if n < 10 {
        String::from_str(digit_str(n))
    } else {
        let mut r = decimal_text(n / 10);
        r.append(digit_str(n % 10));
        r
    }
}

/// Renders one die showing `roll`, marking a 1 and the top face.
fn format_roll(roll: u32, sides: u32) -> (r: String)
    ensures
        shown(r@, roll as int, sides as int),
{
    let text = decimal_text(roll);
    proof {
        crate::text::lemma_decimal(roll as nat);
    }
    if roll == 1 {
        paint_red(text.as_str())
    } else if roll == sides {
        paint_green(text.as_str())
    } else {
        text
    }
}

/// Whether the first of two dice is the one kept.
pub fn roll1_wins(roll1: u32, roll2: u32, advantage: bool) -> (r: bool)
    ensures
        r == first_wins(roll1 as int, roll2 as int, advantage),
{
    if advantage {
        roll1 >= roll2
    } else {
        roll1 <= roll2
    }
}

/// Renders two dice as a parenthesised pair with the one not kept struck
/// through.
pub fn pair_group(f1: &str, f2: &str, keep_first: bool) -> (r: String)
    ensures
        r@ == pair_text(f1@, f2@, keep_first),
{
    proof {
        reveal_strlit("(");
        reveal_strlit(" \x1B[9m");
        reveal_strlit("\x1B[0m)");
        reveal_strlit("(\x1B[9m");
        reveal_strlit("\x1B[0m ");
        reveal_strlit(")");
    }
    let mut r = String::new();
    if keep_first {
        r.append("(");
        r.append(f1);
        r.append(" \x1B[9m");
        r.append(f2);
        r.append("\x1B[0m)");
        assert(r@ =~= pair_text(f1@, f2@, keep_first));
    } else {
        r.append("(\x1B[9m");
        r.append(f1);
        r.append("\x1B[0m ");
        r.append(f2);
        r.append(")");
        assert(r@ =~= pair_text(f1@, f2@, keep_first));
    }
    r
}

/// Joins the parts in order with ", ".
pub fn join_rolls(parts: &Vec<String>) -> (r: String)
    ensures
        r@ == join_list(parts@.map_values(|p: String| p@)),
{
    let ghost views = parts@.map_values(|p: String| p@);
    let mut r = String::new();
    let mut i: usize = 0;
    while i < parts.len()
        invariant
            i <= parts@.len(),
            views == parts@.map_values(|p: String| p@),
            r@ == join_list(views.take(i as int)),
        decreases parts@.len() - i,
    {
        assert(views.take(i + 1).drop_last() =~= views.take(i as int));
        assert(views.take(i + 1).last() == parts@[i as int]@);
        assert(views.take(i + 1).len() == i + 1);
        if i > 0 {
            let ghost before = r@;
            proof {
                reveal_strlit(", ");
            }
            r.append(", ");
            r.append(parts[i].as_str());
            assert(r@ =~= before + seq![',', ' '] + parts@[i as int]@);
            assert(join_list(views.take(i + 1)) == join_list(views.take(i as int)) + seq![',', ' ']
                + parts@[i as int]@);
        } else {
            r.append(parts[i].as_str());
            assert(views.take(i + 1)[0] == parts@[i as int]@);
            assert(r@ =~= join_list(views.take(i + 1)));
        }
        i = i + 1;
    }
    assert(views.take(i as int) =~= views);
    r
}

/// Renders drawn faces group by group: one die per group, or under
/// advantage or disadvantage two consecutive draws per group.
pub fn render_rolls(sides: u32, advantage: bool, disadvantage: bool, draws: &Vec<u32>) -> (r: Vec<
    String,
>)
    requires
        (advantage || disadvantage) ==> draws@.len() % 2 == 0,
    ensures
        rolls_show(r@.map_values(|g: String| g@), draws@, sides, advantage, disadvantage),
{
    let paired = advantage || disadvantage;
    let len = draws.len();
    let n = if paired {
        len / 2
    } else {
        len
    };
    let mut groups: Vec<String> = Vec::new();
    let mut i: usize = 0;
    while i < n
        invariant
            paired == (advantage || disadvantage),
            n == if paired {
                draws@.len() / 2
            } else {
                draws@.len()
            },
            paired ==> draws@.len() % 2 == 0,
            len == draws@.len(),
            i <= n,
            groups@.len() == i,
            forall|j: int|
                0 <= j < i ==> group_shows(
                    #[trigger] groups@[j]@,
                    draws@,
                    j,
                    sides,
                    advantage,
                    paired,
                ),
        decreases n - i,
    {
        if paired {
            assert(2 * i + 1 < draws@.len()) by (nonlinear_arith)
                requires
                    i < n,
                    n == draws@.len() / 2,
            ;
            let roll1 = draws[2 * i];
            let roll2 = draws[2 * i + 1];
            let f1 = format_roll(roll1, sides);
            let f2 = format_roll(roll2, sides);
            let keep_first = roll1_wins(roll1, roll2, advantage);
            let g = pair_group(f1.as_str(), f2.as_str(), keep_first);
            assert(group_shows(g@, draws@, i as int, sides, advantage, paired));
            groups.push(g);
        } else {
            let g = format_roll(draws[i], sides);
            groups.push(g);
        }
        i = i + 1;
    }
    let ghost views = groups@.map_values(|g: String| g@);
    assert forall|j: int| 0 <= j < views.len() implies group_shows(
        #[trigger] views[j],
        draws@,
        j,
        sides,
        advantage,
        paired,
    ) by {
        assert(views[j] == groups@[j]@);
    }
    groups
}

/// Rolls `count` dice of `sides` faces. Under advantage or disadvantage
/// each roll is a pair of dice, rendered in draw order with the one not kept
/// struck through; advantage wins when both are asked for. The rolls are
/// joined with ", ".
pub fn roll_dice(sides: u32, count: u32, advantage: bool, disadvantage: bool) -> (r: Result<
    String,
    DiceError,
>)
    ensures
        sides < 2 ==> r == Err::<String, DiceError>(DiceError::InvalidSides),
        sides >= 2 && count < 1 ==> r == Err::<String, DiceError>(DiceError::InvalidCount),
        sides >= 2 && count >= 1 ==> (r matches Ok(out) && roll_text(
            out@,
            sides,
            count,
            advantage,
            disadvantage,
        )),
{
    if sides < 2 {
        return Err(DiceError::InvalidSides);
    }
    if count < 1 {
        return Err(DiceError::InvalidCount);
    }
    let paired = advantage || disadvantage;
    let mut rng = rand::thread_rng();
    let mut draws: Vec<u32> = Vec::new();
    let mut i: u32 = 0;
    while i < count
        invariant
            2 <= sides,
            i <= count,
            paired == (advantage || disadvantage),
            draws@.len() == if paired {
                2 * i
            } else {
                i as int
            } as int,
            valid_draws(draws@, sides),
        decreases count - i,
    {
        if paired {
            let roll1 = draw(&mut rng, sides);
            let roll2 = draw(&mut rng, sides);
            draws.push(roll1);
            draws.push(roll2);
        } else {
            let roll = draw(&mut rng, sides);
            draws.push(roll);
        }
        i = i + 1;
    }
    let groups = render_rolls(sides, advantage, disadvantage, &draws);
    let out = join_rolls(&groups);
    let ghost views = groups@.map_values(|g: String| g@);
    assert(rolls_show(views, draws@, sides, advantage, disadvantage));
    Ok(out)
}

} // verus!
