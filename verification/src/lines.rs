use vstd::prelude::*;

use crate::paytable::{contains, Paytable};

verus! {

/// Length of the longest prefix of `s` whose elements all satisfy `ok`.
pub open spec fn leading_run(s: Seq<i64>, ok: spec_fn(i64) -> bool) -> nat
    decreases s.len(),
{
    if s.len() > 0 && ok(s[0]) {
        1 + leading_run(s.drop_first(), ok)
    } else {
        0
    }
}

proof fn lemma_leading_run(s: Seq<i64>, ok: spec_fn(i64) -> bool, n: int)
    requires
        0 <= n <= s.len(),
        forall|k: int| 0 <= k < n ==> ok(#[trigger] s[k]),
        n == s.len() || !ok(s[n]),
    ensures
        leading_run(s, ok) == n,
    decreases n,
{
    if n > 0 {
        let t = s.drop_first();
        assert forall|k: int| 0 <= k < n - 1 implies ok(#[trigger] t[k]) by {
            assert(t[k] == s[k + 1]);
        }
        if n < s.len() {
            assert(t[n - 1] == s[n]);
        }
        lemma_leading_run(t, ok, n - 1);
    } else {
        if s.len() > 0 {
            assert(!ok(s[0]));
        }
    }
}

/// The leading run is the longest prefix that satisfies `ok`: every element
/// in it does, and the element right after it, if any, does not.
pub proof fn lemma_leading_run_is_longest(s: Seq<i64>, ok: spec_fn(i64) -> bool)
    ensures
        leading_run(s, ok) <= s.len(),
        forall|k: int| 0 <= k < leading_run(s, ok) ==> ok(#[trigger] s[k]),
        leading_run(s, ok) < s.len() ==> !ok(s[leading_run(s, ok) as int]),
    decreases s.len(),
{
    if s.len() > 0 && ok(s[0]) {
        let t = s.drop_first();
        lemma_leading_run_is_longest(t, ok);
        assert forall|k: int| 0 <= k < leading_run(s, ok) implies ok(#[trigger] s[k]) by {
            if k > 0 {
                assert(s[k] == t[k - 1]);
            }
        }
        if leading_run(s, ok) < s.len() {
            assert(s[leading_run(s, ok) as int] == t[leading_run(t, ok) as int]);
        }
    }
}

pub open spec fn wild_pred(wilds: Seq<i64>) -> spec_fn(i64) -> bool {
    |x: i64| wilds.contains(x)
}

pub open spec fn line_pred(wilds: Seq<i64>, flag: i64) -> spec_fn(i64) -> bool {
    |x: i64| wilds.contains(x) || x == flag
}

/// Number of wilds the line starts with.
pub open spec fn wild_count(s: Seq<i64>, wilds: Seq<i64>) -> nat {
    leading_run(s, wild_pred(wilds))
}

/// The symbol a line pays for: its first symbol that is no wild, or its first
/// symbol when all are wild.
pub open spec fn line_flag(s: Seq<i64>, wilds: Seq<i64>) -> i64 {
    let n = wild_count(s, wilds);
    if n < s.len() {
        s[n as int]
    } else {
        s[0]
    }
}

/// Number of leading symbols that are wild or the line's symbol.
pub open spec fn line_count(s: Seq<i64>, wilds: Seq<i64>) -> nat {
    leading_run(s, line_pred(wilds, line_flag(s, wilds)))
}

/// The wild symbols of a paytable, when it has them.
pub open spec fn wilds_of(t: Paytable) -> Seq<i64> {
    match t.wilds {
        Some(w) => w@,
        None => Seq::empty(),
    }
}

/// A line can be counted against the paytable: it is not empty, the paytable
/// has wilds, and both pay-list lookups stay inside their lists.
pub open spec fn count_line_ready(s: Seq<i64>, t: Paytable) -> bool {
    let w = wilds_of(t);
    &&& 0 < s.len() <= i64::MAX
    &&& t.wilds is Some
    &&& w.len() > 0
    &&& t.pay_in_range(w[0], wild_count(s, w) as int)
    &&& t.pay_in_range(line_flag(s, w), line_count(s, w) as int)
}

/// The win of one line, as `(score, symbol, count)`: the line's symbol with its
/// count, or the first wild with the leading wild count, whichever pays more
/// (ties go to the symbol, which must pay above zero); none when neither
/// pays, or when the symbol is a scatter that does not pay on lines and the
/// wilds pay nothing.
pub open spec fn count_line_spec(s: Seq<i64>, t: Paytable) -> Option<(i64, i64, i64)> {
    let w = wilds_of(t);
    let wild_num = wild_count(s, w);
    let flag = line_flag(s, w);
    let normal_num = line_count(s, w);
    let wild_score = t.pay(w[0], wild_num as int);
    let normal_score = t.pay(flag, normal_num as int);
    if t.scatters@.contains(flag) && wild_score <= 0 && !t.scatter_is_online {
        None
    } else if normal_score > 0 && normal_score >= wild_score {
        Some((normal_score, flag, normal_num as i64))
    } else if wild_score > normal_score {
        Some((wild_score, w[0], wild_num as i64))
    } else {
        None
    }
}

/// Scores one line of symbols against the paytable (see `count_line_spec`).
pub fn count_line(slice: &Vec<i64>, calculator: &Paytable) -> (r: Option<(i64, i64, i64)>)
    requires
        count_line_ready(slice@, *calculator),
    ensures
        r == count_line_spec(slice@, *calculator),
        r matches Some(v) ==> 0 <= v.2 <= slice.len(),
        ({
            let w = wilds_of(*calculator);
            let wild_num = wild_count(slice@, w);
            let flag = line_flag(slice@, w);
            let normal_num = line_count(slice@, w);
            let wild_score = calculator.pay(w[0], wild_num as int);
            let normal_score = calculator.pay(flag, normal_num as int);
            let wild_win = Some((wild_score, w[0], wild_num as i64));
            let normal_win = Some((normal_score, flag, normal_num as i64));
            &&& wild_score > 0 && wild_score > normal_score ==> r == wild_win
            &&& normal_score > 0 && normal_score >= wild_score && (wild_score > 0
                || !calculator.scatters@.contains(flag) || calculator.scatter_is_online) ==> r == normal_win
            &&& calculator.scatters@.contains(flag) && wild_score <= 0 && !calculator.scatter_is_online ==> r is None
            &&& wild_score <= normal_score && normal_score <= 0 ==> r is None
            &&& r is Some ==> r == wild_win || r == normal_win
        }),
{
    let wilds = calculator.wilds.as_ref().unwrap();
    let ghost w = wilds@;
    proof {
        assert(w == wilds_of(*calculator));
    }
    let mut wild_num: usize = 0;
    while wild_num < slice.len()
        invariant
            wild_num <= slice.len(),
            forall|k: int| 0 <= k < wild_num ==> #[trigger] wild_pred(w)(slice@[k]),
            w == wilds@,
        ensures
            wild_num <= slice.len(),
            forall|k: int| 0 <= k < wild_num ==> #[trigger] wild_pred(w)(slice@[k]),
            wild_num == slice.len() || !wild_pred(w)(slice@[wild_num as int]),
        decreases slice.len() - wild_num,
    {
        if !contains(wilds, slice[wild_num]) {
            break;
        }
        wild_num += 1;
    }
    proof {
        lemma_leading_run(slice@, wild_pred(w), wild_num as int);
    }
    let flag = if wild_num < slice.len() {
        slice[wild_num]
    } else {
        slice[0]
    };
    let mut normal_num: usize = 0;
    while normal_num < slice.len()
        invariant
            normal_num <= slice.len(),
            forall|k: int| 0 <= k < normal_num ==> #[trigger] line_pred(w, flag)(slice@[k]),
            w == wilds@,
        ensures
            normal_num <= slice.len(),
            forall|k: int| 0 <= k < normal_num ==> #[trigger] line_pred(w, flag)(slice@[k]),
            normal_num == slice.len() || !line_pred(w, flag)(slice@[normal_num as int]),
        decreases slice.len() - normal_num,
    {
        let x = slice[normal_num];
        if !(contains(wilds, x) || x == flag) {
            break;
        }
        normal_num += 1;
    }
    proof {
        lemma_leading_run(slice@, line_pred(w, flag), normal_num as int);
    }
    let wild_score = calculator.pay_at(wilds[0], wild_num);
    let normal_score = calculator.pay_at(flag, normal_num);
    if contains(&calculator.scatters, flag) && wild_score <= 0 && !calculator.scatter_is_online {
        return None;
    }
    if normal_score > 0 && normal_score >= wild_score {
        return Some((normal_score, flag, normal_num as i64));
    }
    if wild_score > normal_score {
        return Some((wild_score, wilds[0], wild_num as i64));
    }
    None
}


/// The jackpot symbol: a jackpot line only counts when all its counted
/// symbols really are this symbol (wilds do not stand in for it).
pub const JACKPOT_SYMBOL: i64 = 94;

/// The symbols a payline picks: on column `i`, the row `line[i]`.
pub open spec fn payline_symbols(reels: Seq<Vec<i64>>, line: Seq<usize>) -> Seq<i64> {
    Seq::new(line.len(), |i: int| reels[line[i] as int]@[i])
}

/// Every position of the payline exists on the reels.
pub open spec fn payline_fits(reels: Seq<Vec<i64>>, line: Seq<usize>) -> bool {
    forall|i: int| 0 <= i < line.len() ==> #[trigger] line[i] < reels.len() && i < reels[line[i] as int]@.len()
}

/// A jackpot win whose counted symbols are not all the jackpot symbol.
pub open spec fn invalid_jackpot(symbols: Seq<i64>, v: (i64, i64, i64)) -> bool {
    v.1 == JACKPOT_SYMBOL && exists|i: int| 0 <= i < v.2 && symbols[i] != JACKPOT_SYMBOL
}

/// The win a payline brings, if any.
pub open spec fn payline_win(reels: Seq<Vec<i64>>, t: Paytable, line: Seq<usize>) -> Option<(i64, i64, i64)> {
    let symbols = payline_symbols(reels, line);
    match count_line_spec(symbols, t) {
        Some(v) => if invalid_jackpot(symbols, v) { None } else { Some(v) },
        None => None,
    }
}

/// The wins of all paylines, in payline order.
pub open spec fn winlines_spec(reels: Seq<Vec<i64>>, t: Paytable, lines: Seq<Vec<usize>>) -> Seq<(i64, i64, i64)>
    decreases lines.len(),
{
    if lines.len() == 0 {
        Seq::empty()
    } else {
        let p = winlines_spec(reels, t, lines.drop_last());
        match payline_win(reels, t, lines.last()@) {
            Some(v) => p.push(v),
            None => p,
        }
    }
}

/// Total pay of the wins at `line_bet` per line.
pub open spec fn wins_total(wins: Seq<(i64, i64, i64)>, line_bet: i64) -> int
    decreases wins.len(),
{
    if wins.len() == 0 {
        0
    } else {
        wins_total(wins.drop_last(), line_bet) + wins.last().0 * line_bet
    }
}

/// Each win and each running total fits in an `i64`.
pub open spec fn wins_fit(wins: Seq<(i64, i64, i64)>, line_bet: i64) -> bool {
    &&& forall|k: int| 0 <= k < wins.len() ==> i64::MIN <= #[trigger] wins[k].0 * line_bet <= i64::MAX
    &&& forall|k: int| 0 <= k <= wins.len() ==> i64::MIN <= #[trigger] wins_total(wins.take(k), line_bet) <= i64::MAX
}

/// Every payline fits the reels and can be scored, and the pay adds up within `i64`.
pub open spec fn winlines_ready(reels: Seq<Vec<i64>>, t: Paytable, lines: Seq<Vec<usize>>, line_bet: i64) -> bool {
    &&& forall|k: int| 0 <= k < lines.len() ==> payline_fits(reels, #[trigger] lines[k]@)
    &&& forall|k: int| 0 <= k < lines.len() ==> count_line_ready(payline_symbols(reels, #[trigger] lines[k]@), t)
    &&& wins_fit(winlines_spec(reels, t, lines), line_bet)
}

proof fn lemma_winlines_prefix(reels: Seq<Vec<i64>>, t: Paytable, lines: Seq<Vec<usize>>, k: int)
    requires
        0 <= k < lines.len(),
    ensures
        winlines_spec(reels, t, lines.take(k + 1)) == match payline_win(reels, t, lines[k]@) {
            Some(v) => winlines_spec(reels, t, lines.take(k)).push(v),
            None => winlines_spec(reels, t, lines.take(k)),
        },
{
    assert(lines.take(k + 1).drop_last() =~= lines.take(k));
}

proof fn lemma_winlines_is_prefix(reels: Seq<Vec<i64>>, t: Paytable, lines: Seq<Vec<usize>>, k: int)
    requires
        0 <= k <= lines.len(),
    ensures
        winlines_spec(reels, t, lines.take(k)).len() <= winlines_spec(reels, t, lines).len(),
        winlines_spec(reels, t, lines.take(k)) =~= winlines_spec(reels, t, lines).take(
            winlines_spec(reels, t, lines.take(k)).len() as int,
        ),
    decreases lines.len() - k,
{
    if k < lines.len() {
        lemma_winlines_is_prefix(reels, t, lines, k + 1);
        lemma_winlines_prefix(reels, t, lines, k);
    } else {
        assert(lines.take(k) =~= lines);
    }
}

proof fn lemma_wins_total_push(wins: Seq<(i64, i64, i64)>, v: (i64, i64, i64), line_bet: i64)
    ensures
        wins_total(wins.push(v), line_bet) == wins_total(wins, line_bet) + v.0 * line_bet,
{
    assert(wins.push(v).drop_last() =~= wins);
}

/// Whether a win claims the jackpot symbol while one of its counted
/// symbols is something else.
fn is_invalid_jackpot_line(slice: &Vec<i64>, v: (i64, i64, i64)) -> (r: bool)
    requires
        v.2 <= slice.len(),
    ensures
        r == invalid_jackpot(slice@, v),
{
    if v.1 != JACKPOT_SYMBOL {
        return false;
    }
    let mut i: i64 = 0;
    while i < v.2
        invariant
            0 <= i,
            i <= v.2 || i == 0,
            v.2 <= slice.len(),
            v.1 == JACKPOT_SYMBOL,
            forall|j: int| 0 <= j < i ==> slice@[j] == JACKPOT_SYMBOL,
        decreases v.2 - i,
    {
        if slice[i as usize] != JACKPOT_SYMBOL {
            return true;
        }
        i += 1;
    }
    false
}

/// Scores every payline: the wins of the lines that pay, in payline order, and
/// their total at `line_bet` per line.
pub fn get_winlines(
    reels: &Vec<Vec<i64>>,
    calculator: &Paytable,
    paylines: &Vec<Vec<usize>>,
    line_bet: i64,
) -> (r: (Vec<(i64, i64, i64)>, i64))
    requires
        winlines_ready(reels@, *calculator, paylines@, line_bet),
    ensures
        r.0@ == winlines_spec(reels@, *calculator, paylines@),
        r.1 == wins_total(r.0@, line_bet),
        forall|k: int| 0 <= k < r.0@.len() ==> #[trigger] line_win_sound(reels@, *calculator, paylines@, r.0@[k]),
{
    proof {
        lemma_wins_come_from_paylines(reels@, *calculator, paylines@);
    }
    let ghost all = winlines_spec(reels@, *calculator, paylines@);
    let mut lines: Vec<(i64, i64, i64)> = Vec::new();
    let mut wins: i64 = 0;
    proof {
        assert(paylines@.take(0) =~= Seq::<Vec<usize>>::empty());
    }
    for k in 0..paylines.len()
        invariant
            winlines_ready(reels@, *calculator, paylines@, line_bet),
            all == winlines_spec(reels@, *calculator, paylines@),
            lines@ == winlines_spec(reels@, *calculator, paylines@.take(k as int)),
            wins == wins_total(lines@, line_bet),
    {
        let line_array = &paylines[k];
        proof {
            assert(payline_fits(reels@, paylines@[k as int]@));
            assert(count_line_ready(payline_symbols(reels@, paylines@[k as int]@), *calculator));
        }
        let mut slice: Vec<i64> = Vec::new();
        for i in 0..line_array.len()
            invariant
                line_array@ == paylines@[k as int]@,
                payline_fits(reels@, line_array@),
                slice@ == payline_symbols(reels@, line_array@).take(i as int),
        {
            proof {
                assert(line_array@[i as int] < reels@.len());
            }
            slice.push(reels[line_array[i]][i]);
            proof {
                assert(slice@ =~= payline_symbols(reels@, line_array@).take(i + 1));
            }
        }
        proof {
            assert(slice@ =~= payline_symbols(reels@, line_array@));
            lemma_winlines_prefix(reels@, *calculator, paylines@, k as int);
        }
        match count_line(&slice, calculator) {
            Some(v) => {
                let is_invalid_jackpot = is_invalid_jackpot_line(&slice, v);
                if !is_invalid_jackpot {
                    proof {
                        lemma_winlines_is_prefix(reels@, *calculator, paylines@, k + 1);
                        lemma_wins_total_push(lines@, v, line_bet);
                    }
                    lines.push(v);
                    wins = wins + v.0 * line_bet;
                }
            },
            None => {},
        }
    }
    proof {
        assert(paylines@.take(paylines@.len() as int) =~= paylines@);
    }
    (lines, wins)
}


/// A win that some payline brings: the line counts to exactly this win, and
/// a jackpot win has the jackpot symbol on every position it counts, from the
/// first one on.
pub open spec fn line_win_sound(reels: Seq<Vec<i64>>, t: Paytable, lines: Seq<Vec<usize>>, v: (i64, i64, i64)) -> bool {
    exists|j: int|
        0 <= j < lines.len() && count_line_spec(payline_symbols(reels, #[trigger] lines[j]@), t) == Some(v) && (
        v.1 == JACKPOT_SYMBOL ==> forall|i: int| 0 <= i < v.2 ==> payline_symbols(reels, lines[j]@)[i] == JACKPOT_SYMBOL)
}

/// Every win comes from a payline that counts to it, and no jackpot win has
/// anything but the jackpot symbol (not even a wild) among its counted
/// symbols.
pub proof fn lemma_wins_come_from_paylines(reels: Seq<Vec<i64>>, t: Paytable, lines: Seq<Vec<usize>>)
    ensures
        forall|k: int|
            0 <= k < winlines_spec(reels, t, lines).len() ==> #[trigger] line_win_sound(
                reels,
                t,
                lines,
                winlines_spec(reels, t, lines)[k],
            ),
    decreases lines.len(),
{
    if lines.len() > 0 {
        let d = lines.drop_last();
        lemma_wins_come_from_paylines(reels, t, d);
        let p = winlines_spec(reels, t, d);
        let ws = winlines_spec(reels, t, lines);
        assert forall|k: int| 0 <= k < ws.len() implies #[trigger] line_win_sound(reels, t, lines, ws[k]) by {
            if k < p.len() {
                assert(ws[k] == p[k]);
                assert(line_win_sound(reels, t, d, p[k]));
                let j = choose|j: int|
                    0 <= j < d.len() && count_line_spec(payline_symbols(reels, #[trigger] d[j]@), t) == Some(p[k])
                        && (p[k].1 == JACKPOT_SYMBOL ==> forall|i: int|
                        0 <= i < p[k].2 ==> payline_symbols(reels, d[j]@)[i] == JACKPOT_SYMBOL);
                assert(lines[j] == d[j]);
            } else {
                let j = lines.len() - 1;
                assert(lines[j] == lines.last());
                let symbols = payline_symbols(reels, lines[j]@);
                assert(payline_win(reels, t, lines[j]@) == Some(ws[k]));
                assert(!invalid_jackpot(symbols, ws[k]));
            }
        }
    }
}

/// No paying line is lost: there is at most one win per payline, and every
/// payline that counts to a win, unless it is a jackpot win with something other
/// than the jackpot symbol among its counted symbols, brings that win.
pub proof fn lemma_paying_lines_kept(reels: Seq<Vec<i64>>, t: Paytable, lines: Seq<Vec<usize>>)
    ensures
        winlines_spec(reels, t, lines).len() <= lines.len(),
        forall|j: int, v: (i64, i64, i64)|
            #![trigger lines[j], winlines_spec(reels, t, lines).contains(v)]
            0 <= j < lines.len() && count_line_spec(payline_symbols(reels, lines[j]@), t) == Some(v)
                && (v.1 != JACKPOT_SYMBOL || forall|i: int|
                0 <= i < v.2 ==> payline_symbols(reels, lines[j]@)[i] == JACKPOT_SYMBOL) ==> winlines_spec(
                reels,
                t,
                lines,
            ).contains(v),
    decreases lines.len(),
{
    if lines.len() > 0 {
        let d = lines.drop_last();
        lemma_paying_lines_kept(reels, t, d);
        let p = winlines_spec(reels, t, d);
        let ws = winlines_spec(reels, t, lines);
        assert forall|j: int, v: (i64, i64, i64)|
            #![trigger lines[j], ws.contains(v)]
            0 <= j < lines.len() && count_line_spec(payline_symbols(reels, lines[j]@), t) == Some(v)
                && (v.1 != JACKPOT_SYMBOL || forall|i: int|
                0 <= i < v.2 ==> payline_symbols(reels, lines[j]@)[i] == JACKPOT_SYMBOL) implies ws.contains(v) by {
            if j < d.len() {
                assert(lines[j] == d[j]);
                assert(d[j] == lines[j]);
                assert(p.contains(v));
                let m = choose|m: int| 0 <= m < p.len() && p[m] == v;
                match payline_win(reels, t, lines.last()@) {
                    Some(x) => {
                        assert(ws == p.push(x));
                        assert(ws[m] == v);
                    },
                    None => {},
                }
            } else {
                let symbols = payline_symbols(reels, lines[j]@);
                assert(lines[j] == lines.last());
                assert(!invalid_jackpot(symbols, v));
                assert(ws == p.push(v));
                assert(ws[p.len() as int] == v);
            }
        }
    }
}

/// Pay scales with the bet: the lines that win never depend on the bet
/// (`winlines_spec` has none), and their total at bet `b` is `b` times their
/// total at bet 1.
pub proof fn lemma_line_wins_scale(wins: Seq<(i64, i64, i64)>, b: i64)
    ensures
        wins_total(wins, b) == b * wins_total(wins, 1),
    decreases wins.len(),
{
    if wins.len() > 0 {
        lemma_line_wins_scale(wins.drop_last(), b);
        let p = wins_total(wins.drop_last(), 1);
        let x = wins.last().0 as int;
        let bi = b as int;
        assert(bi * p + x * bi == bi * (p + x * 1)) by (nonlinear_arith);
    }
}

} // verus!
