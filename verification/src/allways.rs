use vstd::prelude::*;

use crate::lines::wilds_of;
use crate::paytable::{contains, Paytable};

verus! {

/// A way being built: the symbol it pays for and, per column reached, how many
/// of its symbols that column holds.
struct Winline {
    kind: i64,
    num: Vec<usize>,
}

spec fn way_view(w: Winline) -> (i64, Seq<usize>) {
    (w.kind, w.num@)
}

spec fn ways_view(ws: Seq<Winline>) -> Seq<(i64, Seq<usize>)> {
    ws.map_values(|w: Winline| way_view(w))
}

/// Index of the first way for symbol `sym`, or `ways.len()`.
pub open spec fn first_kind(ways: Seq<(i64, Seq<usize>)>, sym: i64) -> int
    decreases ways.len(),
{
    if ways.len() == 0 {
        0
    } else {
        let f = first_kind(ways.drop_last(), sym);
        if f < ways.len() - 1 {
            f
        } else if ways.last().0 == sym {
            ways.len() - 1
        } else {
            ways.len() as int
        }
    }
}

/// Index of the first way that `sym` joins in a later column: the first way for
/// `sym`, or the very first way when `sym` is wild; `ways.len()` when none.
pub open spec fn first_joined(ways: Seq<(i64, Seq<usize>)>, sym: i64, wilds: Seq<i64>) -> int {
    if wilds.contains(sym) && ways.len() > 0 {
        0
    } else {
        first_kind(ways, sym)
    }
}

/// A symbol of the first column: it adds one to the way of its own symbol, or
/// opens a new way unless it is a scatter.
pub open spec fn step_first_column(ways: Seq<(i64, Seq<usize>)>, sym: i64, scatters: Seq<i64>) -> Seq<(i64, Seq<usize>)> {
    let j = first_kind(ways, sym);
    if j < ways.len() {
        let num = ways[j].1;
        ways.update(j, (ways[j].0, num.update(num.len() - 1, (num.last() + 1) as usize)))
    } else if !scatters.contains(sym) {
        ways.push((sym, seq![1usize]))
    } else {
        ways
    }
}

/// A symbol of column `col > 0`: it counts for the first way it joins, adding
/// one to that way's count for this column, or starting a new count when the
/// way's counts do not already reach this column.
pub open spec fn step_later_column(ways: Seq<(i64, Seq<usize>)>, sym: i64, wilds: Seq<i64>, col: int) -> Seq<(i64, Seq<usize>)> {
    let j = first_joined(ways, sym, wilds);
    if j < ways.len() {
        let num = ways[j].1;
        let new_num = if num.len() == col + 1 {
            num.update(num.len() - 1, (num.last() + 1) as usize)
        } else {
            num.push(1usize)
        };
        ways.update(j, (ways[j].0, new_num))
    } else {
        ways
    }
}

/// Counts are positive and bounded by `b`, and there are at most `b` ways each
/// of at most `b` columns.
spec fn ways_bounded(ways: Seq<(i64, Seq<usize>)>, b: int) -> bool {
    &&& ways.len() <= b
    &&& forall|j: int|
        0 <= j < ways.len() ==> 1 <= (#[trigger] ways[j]).1.len() <= b && forall|e: int|
            0 <= e < ways[j].1.len() ==> 1 <= #[trigger] ways[j].1[e] <= b
}

proof fn lemma_first_kind_char(ways: Seq<(i64, Seq<usize>)>, sym: i64, i: int)
    requires
        0 <= i <= ways.len(),
        i < ways.len() ==> ways[i].0 == sym,
        forall|j: int| 0 <= j < i ==> ways[j].0 != sym,
    ensures
        first_kind(ways, sym) == i,
    decreases ways.len(),
{
    if ways.len() > 0 {
        if i < ways.len() - 1 {
            lemma_first_kind_char(ways.drop_last(), sym, i);
        } else {
            lemma_first_kind_char(ways.drop_last(), sym, ways.len() - 1);
        }
    }
}

/// Index of the first way with `kind == sym`, or `ways.len()`.
fn find_kind(ways: &Vec<Winline>, sym: i64) -> (j: usize)
    ensures
        j == first_kind(ways_view(ways@), sym),
{
    let ghost wv = ways_view(ways@);
    let mut j: usize = 0;
    while j < ways.len()
        invariant
            j <= ways.len(),
            wv == ways_view(ways@),
            forall|k: int| 0 <= k < j ==> wv[k].0 != sym,
        decreases ways.len() - j,
    {
        if ways[j].kind == sym {
            proof {
                lemma_first_kind_char(wv, sym, j as int);
            }
            return j;
        }
        j += 1;
    }
    proof {
        lemma_first_kind_char(wv, sym, j as int);
    }
    j
}

/// Adds one to the last count of way `j`.
fn bump_last(ways: &mut Vec<Winline>, j: usize, Ghost(b): Ghost<int>)
    requires
        j < old(ways).len(),
        ways_bounded(ways_view(old(ways)@), b),
        b < usize::MAX,
    ensures
        ways_view(final(ways)@) == ways_view(old(ways)@).update(
            j as int,
            (
                old(ways)@[j as int].kind,
                old(ways)@[j as int].num@.update(
                    old(ways)@[j as int].num@.len() - 1,
                    (old(ways)@[j as int].num@.last() + 1) as usize,
                ),
            ),
        ),
{
    let ghost wv = ways_view(ways@);
    proof {
        assert(wv[j as int] == way_view(ways@[j as int]));
    }
    let len = ways[j].num.len();
    let last = ways[j].num[len - 1];
    ways[j].num.set(len - 1, last + 1);
    proof {
        assert(ways_view(ways@) =~= wv.update(
            j as int,
            (
                old(ways)@[j as int].kind,
                old(ways)@[j as int].num@.update(
                    old(ways)@[j as int].num@.len() - 1,
                    (old(ways)@[j as int].num@.last() + 1) as usize,
                ),
            ),
        ));
    }
}


proof fn lemma_bounded_grow(ways: Seq<(i64, Seq<usize>)>, b: int)
    requires
        ways_bounded(ways, b),
    ensures
        ways_bounded(ways, b + 1),
{
}

/// Adds a symbol of the first column (see `step_first_column`).
fn add_first_column_symbol(ways: &mut Vec<Winline>, sym: i64, scatters: &Vec<i64>, Ghost(b): Ghost<int>)
    requires
        ways_bounded(ways_view(old(ways)@), b),
        0 <= b < usize::MAX,
    ensures
        ways_view(final(ways)@) == step_first_column(ways_view(old(ways)@), sym, scatters@),
        ways_bounded(ways_view(final(ways)@), b + 1),
{
    let ghost wv = ways_view(ways@);
    let j = find_kind(ways, sym);
    if j < ways.len() {
        bump_last(ways, j, Ghost(b));
        proof {
            let nw = ways_view(ways@);
            assert forall|k: int| 0 <= k < nw.len() implies 1 <= (#[trigger] nw[k]).1.len() <= b + 1
                && forall|e: int| 0 <= e < nw[k].1.len() ==> 1 <= #[trigger] nw[k].1[e] <= b + 1 by {
                assert(wv[k] == way_view(old(ways)@[k]));
                if k != j {
                    assert(nw[k] == wv[k]);
                }
            }
        }
    } else if !contains(scatters, sym) {
        let mut num: Vec<usize> = Vec::new();
        num.push(1);
        ways.push(Winline { kind: sym, num });
        proof {
            let nw = ways_view(ways@);
            assert(nw =~= wv.push((sym, seq![1usize])));
            assert forall|k: int| 0 <= k < nw.len() implies 1 <= (#[trigger] nw[k]).1.len() <= b + 1
                && forall|e: int| 0 <= e < nw[k].1.len() ==> 1 <= #[trigger] nw[k].1[e] <= b + 1 by {
                if k < wv.len() {
                    assert(nw[k] == wv[k]);
                }
            }
        }
    } else {
        proof {
            lemma_bounded_grow(wv, b);
        }
    }
}

/// Adds a symbol of column `col > 0` (see `step_later_column`).
fn add_later_column_symbol(
    ways: &mut Vec<Winline>,
    sym: i64,
    wilds: &Vec<i64>,
    col: usize,
    Ghost(b): Ghost<int>,
)
    requires
        ways_bounded(ways_view(old(ways)@), b),
        0 <= b < usize::MAX,
        col < usize::MAX,
    ensures
        ways_view(final(ways)@) == step_later_column(ways_view(old(ways)@), sym, wilds@, col as int),
        ways_bounded(ways_view(final(ways)@), b + 1),
{
    let ghost wv = ways_view(ways@);
    let is_wild = contains(wilds, sym);
    let mut j: usize = 0;
    while j < ways.len()
        invariant
            j <= ways.len(),
            wv == ways_view(ways@),
            is_wild == wilds@.contains(sym),
            forall|k: int| 0 <= k < j ==> wv[k].0 != sym && !is_wild,
        ensures
            j <= ways.len(),
            forall|k: int| 0 <= k < j ==> wv[k].0 != sym && !is_wild,
            j < ways.len() ==> (ways@[j as int].kind == sym || is_wild),
        decreases ways.len() - j,
    {
        if sym == ways[j].kind || is_wild {
            break;
        }
        j += 1;
    }
    proof {
        assert(forall|k: int| 0 <= k < j ==> wv[k].0 != sym && !is_wild);
        if j > 0 {
            assert(0 <= 0int < j);
            assert(wv[0int].0 != sym && !is_wild);
        }
        if j < ways.len() && !is_wild {
            assert(wv[j as int] == way_view(ways@[j as int]));
            lemma_first_kind_char(wv, sym, j as int);
        } else if j == ways.len() {
            lemma_first_kind_char(wv, sym, j as int);
        }
        assert(j == first_joined(wv, sym, wilds@));
    }
    if j < ways.len() {
        let length = ways[j].num.len();
        if length == col + 1 {
            bump_last(ways, j, Ghost(b));
        } else {
            ways[j].num.push(1);
            proof {
                assert(ways_view(ways@) =~= wv.update(
                    j as int,
                    (wv[j as int].0, wv[j as int].1.push(1usize)),
                ));
            }
        }
        proof {
            let nw = ways_view(ways@);
            assert forall|k: int| 0 <= k < nw.len() implies 1 <= (#[trigger] nw[k]).1.len() <= b + 1
                && forall|e: int| 0 <= e < nw[k].1.len() ==> 1 <= #[trigger] nw[k].1[e] <= b + 1 by {
                assert(wv[k] == way_view(old(ways)@[k]));
                if k != j {
                    assert(nw[k] == wv[k]);
                }
            }
        }
    } else {
        proof {
            lemma_bounded_grow(wv, b);
        }
    }
}


/// The ways after the first `rows` symbols of column `col` were added.
pub open spec fn column_pass(
    ways: Seq<(i64, Seq<usize>)>,
    reels: Seq<Vec<i64>>,
    col: int,
    rows: int,
    wilds: Seq<i64>,
    scatters: Seq<i64>,
) -> Seq<(i64, Seq<usize>)>
    decreases rows,
{
    if rows <= 0 {
        ways
    } else {
        let prev = column_pass(ways, reels, col, rows - 1, wilds, scatters);
        let sym = reels[rows - 1]@[col];
        if col == 0 {
            step_first_column(prev, sym, scatters)
        } else {
            step_later_column(prev, sym, wilds, col)
        }
    }
}

/// The ways after the first `cols` columns of the reels were added, column by
/// column and, within a column, row by row.
pub open spec fn build_ways(reels: Seq<Vec<i64>>, cols: int, wilds: Seq<i64>, scatters: Seq<i64>) -> Seq<(i64, Seq<usize>)>
    decreases cols,
{
    if cols <= 0 {
        Seq::empty()
    } else {
        column_pass(build_ways(reels, cols - 1, wilds, scatters), reels, cols - 1, reels.len() as int, wilds, scatters)
    }
}

/// The ways the reels form against the paytable.
pub open spec fn all_ways(reels: Seq<Vec<i64>>, t: Paytable) -> Seq<(i64, Seq<usize>)> {
    build_ways(reels, reels[0]@.len() as int, wilds_of(t), t.scatters@)
}

/// Product of the counts.
pub open spec fn product(num: Seq<usize>) -> int
    decreases num.len(),
{
    if num.len() == 0 {
        1
    } else {
        product(num.drop_last()) * num.last()
    }
}

/// The pay-list entry of a way: by its symbol and its number of columns.
pub open spec fn way_score(t: Paytable, w: (i64, Seq<usize>)) -> i64 {
    t.pay(w.0, w.1.len() as int)
}

/// What a way wins: the product of its counts, times its score, times the bet.
pub open spec fn way_win(t: Paytable, w: (i64, Seq<usize>), line_bet: i64) -> int {
    product(w.1) * way_score(t, w) * line_bet
}

/// The ways whose score is above zero, with what each wins, in order.
pub open spec fn paying_ways(t: Paytable, ways: Seq<(i64, Seq<usize>)>, line_bet: i64) -> Seq<(int, Seq<usize>)>
    decreases ways.len(),
{
    if ways.len() == 0 {
        Seq::empty()
    } else {
        let p = paying_ways(t, ways.drop_last(), line_bet);
        let w = ways.last();
        if way_score(t, w) > 0 {
            p.push((way_win(t, w, line_bet), w.1))
        } else {
            p
        }
    }
}

/// Sum of the wins.
pub open spec fn ways_total(ws: Seq<(int, Seq<usize>)>) -> int
    decreases ws.len(),
{
    if ws.len() == 0 {
        0
    } else {
        ways_total(ws.drop_last()) + ws.last().0
    }
}

pub open spec fn in_i64(x: int) -> bool {
    i64::MIN <= x <= i64::MAX
}

/// Every way's pay list is a list (or absent) that reaches its length, and
/// every product, win and running total fits in an `i64`.
pub open spec fn scoring_ready(t: Paytable, ways: Seq<(i64, Seq<usize>)>, line_bet: i64) -> bool {
    let pw = paying_ways(t, ways, line_bet);
    &&& forall|k: int| 0 <= k < ways.len() ==> t.row_is_list_or_absent((#[trigger] ways[k]).0)
    &&& forall|k: int| 0 <= k < ways.len() ==> t.pay_in_range((#[trigger] ways[k]).0, ways[k].1.len() as int)
    &&& forall|k: int|
        0 <= k < ways.len() && way_score(t, #[trigger] ways[k]) > 0 ==> {
            &&& product(ways[k].1) <= i64::MAX
            &&& in_i64(product(ways[k].1) * way_score(t, ways[k]))
            &&& in_i64(way_win(t, ways[k], line_bet))
        }
    &&& forall|k: int| 0 <= k <= pw.len() ==> in_i64(#[trigger] ways_total(pw.take(k)))
}

/// The reels are a non-empty grid no smaller than its first row, and the ways
/// they form can be scored within `i64`.
pub open spec fn allway_ready(reels: Seq<Vec<i64>>, t: Paytable, line_bet: i64) -> bool {
    &&& reels.len() > 0
    &&& forall|j: int| 0 <= j < reels.len() ==> (#[trigger] reels[j])@.len() >= reels[0]@.len()
    &&& reels.len() * reels[0]@.len() < usize::MAX
    &&& scoring_ready(t, all_ways(reels, t), line_bet)
}

/// The wins as integers and count lists.
pub open spec fn wins_view(v: Seq<(i64, Vec<usize>)>) -> Seq<(int, Seq<usize>)> {
    v.map_values(|x: (i64, Vec<usize>)| (x.0 as int, x.1@))
}

proof fn lemma_product_pos(num: Seq<usize>)
    requires
        forall|i: int| 0 <= i < num.len() ==> num[i] >= 1,
    ensures
        product(num) >= 1,
    decreases num.len(),
{
    if num.len() > 0 {
        lemma_product_pos(num.drop_last());
        let p = product(num.drop_last());
        let x = num.last() as int;
        assert(p * x >= 1) by (nonlinear_arith)
            requires
                x >= 1,
                p >= 1,
        ;
    }
}

proof fn lemma_product_grows(num: Seq<usize>, e: int)
    requires
        0 <= e <= num.len(),
        forall|i: int| 0 <= i < num.len() ==> num[i] >= 1,
    ensures
        1 <= product(num.take(e)) <= product(num),
    decreases num.len() - e,
{
    lemma_product_pos(num.take(e));
    if e < num.len() {
        lemma_product_grows(num, e + 1);
        assert(num.take(e + 1).drop_last() =~= num.take(e));
        let p = product(num.take(e));
        let x = num[e] as int;
        assert(p * x >= p) by (nonlinear_arith)
            requires
                x >= 1,
                p >= 1,
        ;
    } else {
        assert(num.take(e) =~= num);
    }
}


/// Adds every symbol of the first `columns` columns, column by column.
fn build_winlines(reels: &Vec<Vec<i64>>, wilds: &Vec<i64>, scatters: &Vec<i64>) -> (ways: Vec<Winline>)
    requires
        reels.len() > 0,
        forall|j: int| 0 <= j < reels.len() ==> (#[trigger] reels[j])@.len() >= reels[0]@.len(),
        reels.len() * reels[0]@.len() < usize::MAX,
    ensures
        ways_view(ways@) == build_ways(reels@, reels[0]@.len() as int, wilds@, scatters@),
        ways_bounded(ways_view(ways@), reels.len() * reels[0]@.len()),
{
    let rows = reels.len();
    let columns = reels[0].len();
    let mut winlines: Vec<Winline> = Vec::new();
    proof {
        assert(ways_view(winlines@) =~= Seq::<(i64, Seq<usize>)>::empty());
    }
    for i in 0..columns
        invariant
            rows == reels.len(),
            rows > 0,
            columns == reels[0]@.len(),
            forall|j: int| 0 <= j < reels.len() ==> (#[trigger] reels[j])@.len() >= columns,
            rows * columns < usize::MAX,
            ways_view(winlines@) == build_ways(reels@, i as int, wilds@, scatters@),
            ways_bounded(ways_view(winlines@), i * rows),
    {
        let ghost start = ways_view(winlines@);
        proof {
            assert(i * rows + rows <= rows * columns) by (nonlinear_arith)
                requires
                    i < columns,
            ;
        }
        for j in 0..rows
            invariant
                rows == reels.len(),
                rows > 0,
                columns == reels[0]@.len(),
                i < columns,
                forall|j: int| 0 <= j < reels.len() ==> (#[trigger] reels[j])@.len() >= columns,
                i * rows + rows <= rows * columns,
                rows * columns < usize::MAX,
                start == build_ways(reels@, i as int, wilds@, scatters@),
                ways_view(winlines@) == column_pass(start, reels@, i as int, j as int, wilds@, scatters@),
                ways_bounded(ways_view(winlines@), i * rows + j),
        {
            proof {
                assert(reels@[j as int]@.len() >= columns);
            }
            let curr_sym = reels[j][i];
            if i == 0 {
                add_first_column_symbol(&mut winlines, curr_sym, scatters, Ghost(i * rows + j));
            } else {
                add_later_column_symbol(&mut winlines, curr_sym, wilds, i, Ghost(i * rows + j));
            }
        }
        proof {
            assert((i + 1) * rows == i * rows + rows) by (nonlinear_arith);
        }
    }
    proof {
        assert(columns * rows == rows * columns) by (nonlinear_arith);
    }
    winlines
}


proof fn lemma_paying_ways_prefix(t: Paytable, ways: Seq<(i64, Seq<usize>)>, line_bet: i64, k: int)
    requires
        0 <= k <= ways.len(),
    ensures
        paying_ways(t, ways.take(k), line_bet).len() <= paying_ways(t, ways, line_bet).len(),
        paying_ways(t, ways.take(k), line_bet) =~= paying_ways(t, ways, line_bet).take(
            paying_ways(t, ways.take(k), line_bet).len() as int,
        ),
    decreases ways.len() - k,
{
    if k < ways.len() {
        lemma_paying_ways_prefix(t, ways, line_bet, k + 1);
        assert(ways.take(k + 1).drop_last() =~= ways.take(k));
    } else {
        assert(ways.take(k) =~= ways);
    }
}

proof fn lemma_ways_total_push(ws: Seq<(int, Seq<usize>)>, x: (int, Seq<usize>))
    ensures
        ways_total(ws.push(x)) == ways_total(ws) + x.0,
{
    assert(ws.push(x).drop_last() =~= ws);
}

/// Scores the ways: each way whose score is above zero wins the product of its
/// counts times its score times the bet.
fn score_winlines(winlines: Vec<Winline>, calculator: &Paytable, line_bet: i64, Ghost(b): Ghost<int>) -> (r: (Vec<(i64, Vec<usize>)>, i64))
    requires
        ways_bounded(ways_view(winlines@), b),
        scoring_ready(*calculator, ways_view(winlines@), line_bet),
    ensures
        wins_view(r.0@) == paying_ways(*calculator, ways_view(winlines@), line_bet),
        r.1 == ways_total(wins_view(r.0@)),
{
    let ghost ways = ways_view(winlines@);
    let ghost all = paying_ways(*calculator, ways, line_bet);
    let mut winlines = winlines;
    let mut lines: Vec<(i64, Vec<usize>)> = Vec::new();
    let mut total_wins: i64 = 0;
    proof {
        assert(ways.take(0) =~= Seq::<(i64, Seq<usize>)>::empty());
        assert(wins_view(lines@) =~= Seq::<(int, Seq<usize>)>::empty());
    }
    let n_ways = winlines.len();
    for k in 0..n_ways
        invariant
            n_ways == ways.len(),
            ways_bounded(ways, b),
            scoring_ready(*calculator, ways, line_bet),
            all == paying_ways(*calculator, ways, line_bet),
            winlines.len() == ways.len(),
            forall|m: int| k <= m < ways.len() ==> way_view(#[trigger] winlines@[m]) == ways[m],
            wins_view(lines@) == paying_ways(*calculator, ways.take(k as int), line_bet),
            total_wins == ways_total(wins_view(lines@)),
    {
        let ghost w = ways[k as int];
        proof {
            assert(way_view(winlines@[k as int]) == w);
            assert(calculator.pay_in_range(w.0, w.1.len() as int));
            assert(ways.take(k + 1).drop_last() =~= ways.take(k as int));
            assert(ways.take(k + 1).last() == w);
            lemma_paying_ways_prefix(*calculator, ways, line_bet, k + 1);
        }
        let kind = winlines[k].kind;
        let n = winlines[k].num.len();
        let score = calculator.pay_at(kind, n);
        if score > 0 {
            let mut num: Vec<usize> = Vec::new();
            std::mem::swap(&mut num, &mut winlines[k].num);
            proof {
                assert(num@ == w.1);
                assert(forall|e: int| 0 <= e < num@.len() ==> num@[e] >= 1) by {
                    assert(ways_bounded(ways, b));
                    assert(ways[k as int] == w);
                }
            }
            let mut num_multi: i64 = 1;
            proof {
                assert(num@.take(0) =~= Seq::<usize>::empty());
            }
            for e in 0..num.len()
                invariant
                    forall|i: int| 0 <= i < num@.len() ==> num@[i] >= 1,
                    product(num@) <= i64::MAX,
                    num_multi == product(num@.take(e as int)),
            {
                proof {
                    lemma_product_grows(num@, e + 1);
                    assert(num@.take(e + 1).drop_last() =~= num@.take(e as int));
                    lemma_product_grows(num@, e as int);
                    let p = product(num@.take(e as int));
                    let x = num@[e as int] as int;
                    assert(x <= p * x) by (nonlinear_arith)
                        requires
                            p >= 1,
                            x >= 1,
                    ;
                }
                num_multi = num_multi * (num[e] as i64);
            }
            proof {
                assert(num@.take(num@.len() as int) =~= num@);
            }
            let wins = num_multi * score * line_bet;
            let ghost before = wins_view(lines@);
            lines.push((wins, num));
            proof {
                assert(wins_view(lines@) =~= before.push((way_win(*calculator, w, line_bet), w.1)));
                lemma_ways_total_push(before, (way_win(*calculator, w, line_bet), w.1));
            }
            total_wins = total_wins + wins;
        }
    }
    proof {
        assert(ways.take(ways.len() as int) =~= ways);
    }
    (lines, total_wins)
}

/// Scores the reels as all-ways: ways start at the symbols of the first column
/// (scatters start none) and grow column by column with matching symbols or
/// wilds; the ways whose pay-list entry is above zero win the product of their
/// counts times that entry times the bet. Returns the winning ways with what
/// each wins, and the total.
pub fn get_allway_winlines(reels: &Vec<Vec<i64>>, calculator: &Paytable, line_bet: i64) -> (r: (Vec<(i64, Vec<usize>)>, i64))
    requires
        allway_ready(reels@, *calculator, line_bet),
    ensures
        wins_view(r.0@) == paying_ways(*calculator, all_ways(reels@, *calculator), line_bet),
        r.1 == ways_total(wins_view(r.0@)),
        forall|k: int|
            0 <= k < all_ways(reels@, *calculator).len() ==> !calculator.scatters@.contains(
                #[trigger] all_ways(reels@, *calculator)[k].0,
            ),
{
    proof {
        lemma_no_scatter_way(reels@, *calculator);
    }
    let no_wilds: Vec<i64> = Vec::new();
    let wilds = match &calculator.wilds {
        Some(w) => w,
        None => &no_wilds,
    };
    proof {
        assert(wilds@ == wilds_of(*calculator));
    }
    let winlines = build_winlines(reels, wilds, &calculator.scatters);
    score_winlines(winlines, calculator, line_bet, Ghost(reels.len() * reels[0]@.len()))
}


/// Pay scales with the bet: the same ways win at every bet, with the same
/// counts, and each win and the total at bet `b` are `b` times those at bet 1.
pub proof fn lemma_way_wins_scale(t: Paytable, ways: Seq<(i64, Seq<usize>)>, b: i64)
    ensures
        paying_ways(t, ways, b).len() == paying_ways(t, ways, 1).len(),
        forall|k: int|
            0 <= k < paying_ways(t, ways, b).len() ==> (#[trigger] paying_ways(t, ways, b)[k]).1
                == paying_ways(t, ways, 1)[k].1 && paying_ways(t, ways, b)[k].0 == b * paying_ways(
                t,
                ways,
                1,
            )[k].0,
        ways_total(paying_ways(t, ways, b)) == b * ways_total(paying_ways(t, ways, 1)),
    decreases ways.len(),
{
    if ways.len() > 0 {
        let d = ways.drop_last();
        lemma_way_wins_scale(t, d, b);
        let w = ways.last();
        if way_score(t, w) > 0 {
            let pb = paying_ways(t, d, b);
            let p1 = paying_ways(t, d, 1);
            let xb = (way_win(t, w, b), w.1);
            let x1 = (way_win(t, w, 1), w.1);
            let q = product(w.1) * way_score(t, w);
            let bi = b as int;
            assert(q * bi == bi * (q * 1)) by (nonlinear_arith);
            assert(way_win(t, w, b) == b * way_win(t, w, 1));
            lemma_ways_total_push(pb, xb);
            lemma_ways_total_push(p1, x1);
            let tb = ways_total(pb);
            let t1 = ways_total(p1);
            let y = way_win(t, w, 1);
            assert(tb + bi * y == bi * (t1 + y)) by (nonlinear_arith)
                requires
                    tb == bi * t1,
            ;
            assert forall|k: int| 0 <= k < pb.push(xb).len() implies (#[trigger] pb.push(xb)[k]).1
                == p1.push(x1)[k].1 && pb.push(xb)[k].0 == b * p1.push(x1)[k].0 by {
                if k < pb.len() {
                    assert(pb[k].1 == p1[k].1 && pb[k].0 == b * p1[k].0);
                }
            }
        }
    }
}


proof fn lemma_first_kind_range(ways: Seq<(i64, Seq<usize>)>, sym: i64)
    ensures
        0 <= first_kind(ways, sym) <= ways.len(),
        first_kind(ways, sym) < ways.len() ==> ways[first_kind(ways, sym)].0 == sym,
        forall|k: int| 0 <= k < first_kind(ways, sym) ==> ways[k].0 != sym,
    decreases ways.len(),
{
    if ways.len() > 0 {
        let d = ways.drop_last();
        lemma_first_kind_range(d, sym);
        assert forall|k: int| 0 <= k < first_kind(ways, sym) implies ways[k].0 != sym by {
            if k < d.len() {
                assert(ways[k] == d[k]);
            }
        }
    }
}

proof fn lemma_column_pass_avoids_scatters(
    ways: Seq<(i64, Seq<usize>)>,
    reels: Seq<Vec<i64>>,
    col: int,
    rows: int,
    wilds: Seq<i64>,
    scatters: Seq<i64>,
)
    requires
        forall|k: int| 0 <= k < ways.len() ==> !scatters.contains(#[trigger] ways[k].0),
    ensures
        forall|k: int|
            0 <= k < column_pass(ways, reels, col, rows, wilds, scatters).len() ==> !scatters.contains(
                #[trigger] column_pass(ways, reels, col, rows, wilds, scatters)[k].0,
            ),
    decreases rows,
{
    if rows > 0 {
        lemma_column_pass_avoids_scatters(ways, reels, col, rows - 1, wilds, scatters);
        let prev = column_pass(ways, reels, col, rows - 1, wilds, scatters);
        let sym = reels[rows - 1]@[col];
        let next = column_pass(ways, reels, col, rows, wilds, scatters);
        if col == 0 {
            assert(next == step_first_column(prev, sym, scatters));
            let j = first_kind(prev, sym);
            lemma_first_kind_range(prev, sym);
            if j < prev.len() {
                let num = prev[j].1;
                assert(next == prev.update(j, (prev[j].0, num.update(num.len() - 1, (num.last() + 1) as usize))));
                assert forall|k: int| 0 <= k < next.len() implies !scatters.contains(#[trigger] next[k].0) by {
                    if k != j {
                        assert(next[k] == prev[k]);
                    }
                }
            } else if !scatters.contains(sym) {
                assert forall|k: int| 0 <= k < next.len() implies !scatters.contains(#[trigger] next[k].0) by {
                    if k < prev.len() {
                        assert(next[k] == prev[k]);
                    }
                }
            }
        } else {
            assert(next == step_later_column(prev, sym, wilds, col));
            lemma_first_kind_range(prev, sym);
            let j = first_joined(prev, sym, wilds);
            if j < prev.len() {
                assert(next.len() == prev.len() && next[j].0 == prev[j].0);
                assert forall|k: int| 0 <= k < next.len() implies !scatters.contains(#[trigger] next[k].0) by {
                    if k != j {
                        assert(next[k] == prev[k]);
                    }
                }
            }
        }
    }
}

/// No way belongs to a scatter: scatters in the first column open no way, and
/// later columns never change a way's symbol, so every way the reels form is
/// for a symbol that is not among the scatters.
pub proof fn lemma_ways_avoid_scatters(reels: Seq<Vec<i64>>, cols: int, wilds: Seq<i64>, scatters: Seq<i64>)
    ensures
        forall|k: int|
            0 <= k < build_ways(reels, cols, wilds, scatters).len() ==> !scatters.contains(
                #[trigger] build_ways(reels, cols, wilds, scatters)[k].0,
            ),
    decreases cols,
{
    if cols > 0 {
        lemma_ways_avoid_scatters(reels, cols - 1, wilds, scatters);
        lemma_column_pass_avoids_scatters(
            build_ways(reels, cols - 1, wilds, scatters),
            reels,
            cols - 1,
            reels.len() as int,
            wilds,
            scatters,
        );
    }
}

/// The paytable's scatters never win as ways.
pub proof fn lemma_no_scatter_way(reels: Seq<Vec<i64>>, t: Paytable)
    ensures
        forall|k: int|
            0 <= k < all_ways(reels, t).len() ==> !t.scatters@.contains(#[trigger] all_ways(reels, t)[k].0),
{
    lemma_ways_avoid_scatters(reels, reels[0]@.len() as int, wilds_of(t), t.scatters@);
}

/// How many of the first `rows` symbols of column `col` are `sym`.
pub open spec fn column_count(reels: Seq<Vec<i64>>, col: int, rows: int, sym: i64) -> nat
    decreases rows,
{
    if rows <= 0 {
        0
    } else {
        column_count(reels, col, rows - 1, sym) + if reels[rows - 1]@[col] == sym { 1nat } else { 0nat }
    }
}

proof fn lemma_column_count(reels: Seq<Vec<i64>>, col: int, rows: int, sym: i64)
    requires
        rows >= 0,
    ensures
        column_count(reels, col, rows, sym) <= rows,
        column_count(reels, col, rows, sym) >= 1 ==> exists|r: int| 0 <= r < rows && reels[r]@[col] == sym,
    decreases rows,
{
    if rows > 0 {
        lemma_column_count(reels, col, rows - 1, sym);
    }
}

/// The ways after the first `n` symbols of the first column: one per symbol
/// that is no scatter, each counting how often its symbol occurs.
proof fn lemma_first_column(reels: Seq<Vec<i64>>, n: int, wilds: Seq<i64>, scatters: Seq<i64>)
    requires
        0 <= n < usize::MAX,
    ensures
        ({
            let p = column_pass(Seq::empty(), reels, 0, n, wilds, scatters);
            &&& forall|k: int|
                0 <= k < p.len() ==> !scatters.contains(#[trigger] p[k].0) && p[k].1.len() == 1 && p[k].1[0]
                    == column_count(reels, 0, n, p[k].0) && p[k].1[0] >= 1
            &&& forall|a: int, b: int| 0 <= a < b < p.len() ==> p[a].0 != p[b].0
            &&& forall|r: int|
                0 <= r < n && !scatters.contains(#[trigger] reels[r]@[0]) ==> exists|k: int|
                    0 <= k < p.len() && p[k].0 == reels[r]@[0]
        }),
    decreases n,
{
    if n > 0 {
        lemma_first_column(reels, n - 1, wilds, scatters);
        let prev = column_pass(Seq::empty(), reels, 0, n - 1, wilds, scatters);
        let next = column_pass(Seq::empty(), reels, 0, n, wilds, scatters);
        let sym = reels[n - 1]@[0];
        assert(next == step_first_column(prev, sym, scatters));
        let j = first_kind(prev, sym);
        lemma_first_kind_range(prev, sym);
        lemma_column_count(reels, 0, n - 1, sym);
        assert forall|x: i64| #[trigger] column_count(reels, 0, n, x) == column_count(reels, 0, n - 1, x) + if x
            == sym { 1nat } else { 0nat } by {}
        if j < prev.len() {
            let num = prev[j].1;
            assert(next == prev.update(j, (prev[j].0, num.update(0, (num[0] + 1) as usize))));
            assert forall|k: int| 0 <= k < next.len() implies !scatters.contains(#[trigger] next[k].0)
                && next[k].1.len() == 1 && next[k].1[0] == column_count(reels, 0, n, next[k].0)
                && next[k].1[0] >= 1 by {
                if k != j {
                    assert(next[k] == prev[k]);
                    assert(prev[k].0 != prev[j].0);
                }
            }
            assert forall|a: int, b: int| 0 <= a < b < next.len() implies next[a].0 != next[b].0 by {
                assert(next[a].0 == prev[a].0 && next[b].0 == prev[b].0);
            }
            assert forall|r: int|
                0 <= r < n && !scatters.contains(#[trigger] reels[r]@[0]) implies exists|k: int|
                0 <= k < next.len() && next[k].0 == reels[r]@[0] by {
                if r < n - 1 {
                    let k = choose|k: int| 0 <= k < prev.len() && prev[k].0 == reels[r]@[0];
                    assert(next[k].0 == prev[k].0);
                } else {
                    assert(next[j].0 == sym);
                }
            }
        } else {
            if !scatters.contains(sym) {
                assert(column_count(reels, 0, n - 1, sym) == 0) by {
                    if column_count(reels, 0, n - 1, sym) >= 1 {
                        let r = choose|r: int| 0 <= r < n - 1 && reels[r]@[0] == sym;
                        let k = choose|k: int| 0 <= k < prev.len() && prev[k].0 == reels[r]@[0];
                    }
                }
                assert(next == prev.push((sym, seq![1usize])));
                assert forall|k: int| 0 <= k < next.len() implies !scatters.contains(#[trigger] next[k].0)
                    && next[k].1.len() == 1 && next[k].1[0] == column_count(reels, 0, n, next[k].0)
                    && next[k].1[0] >= 1 by {
                    if k < prev.len() {
                        assert(next[k] == prev[k]);
                    }
                }
                assert forall|a: int, b: int| 0 <= a < b < next.len() implies next[a].0 != next[b].0 by {
                    assert(next[a] == prev[a]);
                    if b < prev.len() {
                        assert(next[b] == prev[b]);
                    }
                }
                assert forall|r: int|
                    0 <= r < n && !scatters.contains(#[trigger] reels[r]@[0]) implies exists|k: int|
                    0 <= k < next.len() && next[k].0 == reels[r]@[0] by {
                    if r < n - 1 {
                        let k = choose|k: int| 0 <= k < prev.len() && prev[k].0 == reels[r]@[0];
                        assert(next[k] == prev[k]);
                    } else {
                        assert(next[prev.len() as int].0 == sym);
                    }
                }
            } else {
                assert forall|k: int| 0 <= k < next.len() implies !scatters.contains(#[trigger] next[k].0)
                    && next[k].1.len() == 1 && next[k].1[0] == column_count(reels, 0, n, next[k].0)
                    && next[k].1[0] >= 1 by {
                    assert(next[k] == prev[k]);
                }
                assert forall|r: int|
                    0 <= r < n && !scatters.contains(#[trigger] reels[r]@[0]) implies exists|k: int|
                    0 <= k < next.len() && next[k].0 == reels[r]@[0] by {
                    if r < n - 1 {
                        let k = choose|k: int| 0 <= k < prev.len() && prev[k].0 == reels[r]@[0];
                        assert(next[k] == prev[k]);
                    }
                }
            }
        }
    }
}

/// A pass over a later column keeps every way's symbol and its first-column
/// count, and opens no way.
proof fn lemma_later_column_keeps(
    ways: Seq<(i64, Seq<usize>)>,
    reels: Seq<Vec<i64>>,
    col: int,
    rows: int,
    wilds: Seq<i64>,
    scatters: Seq<i64>,
)
    requires
        col >= 1,
        forall|k: int| 0 <= k < ways.len() ==> (#[trigger] ways[k]).1.len() >= 1,
    ensures
        ({
            let p = column_pass(ways, reels, col, rows, wilds, scatters);
            &&& p.len() == ways.len()
            &&& forall|k: int|
                0 <= k < p.len() ==> (#[trigger] p[k]).0 == ways[k].0 && p[k].1.len() >= 1 && p[k].1[0]
                    == ways[k].1[0]
        }),
    decreases rows,
{
    if rows > 0 {
        lemma_later_column_keeps(ways, reels, col, rows - 1, wilds, scatters);
        let prev = column_pass(ways, reels, col, rows - 1, wilds, scatters);
        let next = column_pass(ways, reels, col, rows, wilds, scatters);
        let sym = reels[rows - 1]@[col];
        assert(next == step_later_column(prev, sym, wilds, col));
        lemma_first_kind_range(prev, sym);
        let j = first_joined(prev, sym, wilds);
        if j < prev.len() {
            assert forall|k: int| 0 <= k < next.len() implies (#[trigger] next[k]).0 == ways[k].0
                && next[k].1.len() >= 1 && next[k].1[0] == ways[k].1[0] by {
                if k != j {
                    assert(next[k] == prev[k]);
                } else {
                    assert(prev[k].0 == ways[k].0);
                }
            }
        }
    }
}

/// After any number of columns (at least one), the ways are those of the
/// first column, in the same order, with the same first-column counts.
proof fn lemma_ways_keep_first_column(reels: Seq<Vec<i64>>, cols: int, wilds: Seq<i64>, scatters: Seq<i64>)
    requires
        cols >= 1,
        reels.len() < usize::MAX,
    ensures
        ({
            let w = build_ways(reels, cols, wilds, scatters);
            let p = column_pass(Seq::empty(), reels, 0, reels.len() as int, wilds, scatters);
            &&& w.len() == p.len()
            &&& forall|k: int|
                0 <= k < w.len() ==> (#[trigger] w[k]).0 == p[k].0 && w[k].1.len() >= 1 && w[k].1[0] == p[k].1[0]
        }),
    decreases cols,
{
    lemma_first_column(reels, reels.len() as int, wilds, scatters);
    if cols > 1 {
        lemma_ways_keep_first_column(reels, cols - 1, wilds, scatters);
        let w0 = build_ways(reels, cols - 1, wilds, scatters);
        assert forall|k: int| 0 <= k < w0.len() implies (#[trigger] w0[k]).1.len() >= 1 by {}
        lemma_later_column_keeps(w0, reels, cols - 1, reels.len() as int, wilds, scatters);
        let w = build_ways(reels, cols, wilds, scatters);
        let p = column_pass(Seq::empty(), reels, 0, reels.len() as int, wilds, scatters);
        assert(w == column_pass(w0, reels, cols - 1, reels.len() as int, wilds, scatters));
        assert forall|k: int| 0 <= k < w.len() implies (#[trigger] w[k]).0 == p[k].0 && w[k].1.len() >= 1
            && w[k].1[0] == p[k].1[0] by {
            assert(w0[k].0 == p[k].0 && w0[k].1[0] == p[k].1[0]);
        }
    } else {
        assert(build_ways(reels, 0, wilds, scatters) == Seq::<(i64, Seq<usize>)>::empty());
        let w = build_ways(reels, cols, wilds, scatters);
        let p = column_pass(Seq::empty(), reels, 0, reels.len() as int, wilds, scatters);
        assert(w == p);
        assert forall|k: int| 0 <= k < w.len() implies (#[trigger] w[k]).0 == p[k].0 && w[k].1.len() >= 1
            && w[k].1[0] == p[k].1[0] by {
            assert(!scatters.contains(p[k].0));
        }
    }
}

/// The ways open in the first column: exactly one way for each symbol of the
/// first column that is not a scatter, none for anything else, and a way's
/// first count is how often its symbol stands in the first column.
pub proof fn lemma_ways_open_in_first_column(reels: Seq<Vec<i64>>, t: Paytable)
    requires
        0 < reels.len() < usize::MAX,
        reels[0]@.len() >= 1,
    ensures
        ({
            let w = all_ways(reels, t);
            &&& forall|k: int|
                0 <= k < w.len() ==> !t.scatters@.contains(#[trigger] w[k].0) && w[k].1.len() >= 1 && w[k].1[0]
                    == column_count(reels, 0, reels.len() as int, w[k].0) && w[k].1[0] >= 1
            &&& forall|a: int, b: int| 0 <= a < b < w.len() ==> w[a].0 != w[b].0
            &&& forall|r: int|
                0 <= r < reels.len() && !t.scatters@.contains(#[trigger] reels[r]@[0]) ==> exists|k: int|
                    0 <= k < w.len() && w[k].0 == reels[r]@[0]
        }),
{
    let wilds = wilds_of(t);
    let scatters = t.scatters@;
    let n = reels.len() as int;
    lemma_first_column(reels, n, wilds, scatters);
    lemma_ways_keep_first_column(reels, reels[0]@.len() as int, wilds, scatters);
    let w = all_ways(reels, t);
    let p = column_pass(Seq::empty(), reels, 0, n, wilds, scatters);
    assert forall|k: int| 0 <= k < w.len() implies !t.scatters@.contains(#[trigger] w[k].0) && w[k].1.len() >= 1
        && w[k].1[0] == column_count(reels, 0, n, w[k].0) && w[k].1[0] >= 1 by {
        assert(w[k].0 == p[k].0);
        assert(!scatters.contains(p[k].0));
    }
    assert forall|a: int, b: int| 0 <= a < b < w.len() implies w[a].0 != w[b].0 by {
        assert(w[a].0 == p[a].0 && w[b].0 == p[b].0);
    }
    assert forall|r: int|
        0 <= r < reels.len() && !t.scatters@.contains(#[trigger] reels[r]@[0]) implies exists|k: int|
        0 <= k < w.len() && w[k].0 == reels[r]@[0] by {
        let k = choose|k: int| 0 <= k < p.len() && p[k].0 == reels[r]@[0];
        assert(w[k].0 == p[k].0);
    }
}

/// How many of the first `rows` symbols of column `col` are wild.
pub open spec fn column_wilds(reels: Seq<Vec<i64>>, col: int, rows: int, wilds: Seq<i64>) -> nat
    decreases rows,
{
    if rows <= 0 {
        0
    } else {
        column_wilds(reels, col, rows - 1, wilds) + if wilds.contains(reels[rows - 1]@[col]) { 1nat } else { 0nat }
    }
}

/// How often `sym` stands in the first `cols` columns.
pub open spec fn symbol_total(reels: Seq<Vec<i64>>, cols: int, sym: i64) -> int
    decreases cols,
{
    if cols <= 0 {
        0
    } else {
        symbol_total(reels, cols - 1, sym) + column_count(reels, cols - 1, reels.len() as int, sym)
    }
}

/// How many wilds stand in the columns after the first, up to column `cols`.
pub open spec fn later_wild_total(reels: Seq<Vec<i64>>, cols: int, wilds: Seq<i64>) -> int
    decreases cols,
{
    if cols <= 1 {
        0
    } else {
        later_wild_total(reels, cols - 1, wilds) + column_wilds(reels, cols - 1, reels.len() as int, wilds)
    }
}

/// The symbols of column `col` that count for a way of `sym`: those that are
/// `sym` and, for the very first way after the first column, the wilds.
pub open spec fn column_hits(reels: Seq<Vec<i64>>, col: int, sym: i64, wilds: Seq<i64>, first: bool) -> int {
    column_count(reels, col, reels.len() as int, sym) + if first && col >= 1 {
        column_wilds(reels, col, reels.len() as int, wilds) as int
    } else {
        0int
    }
}

/// How many columns a way of `sym` reaches after `cols` columns: one for the
/// first column, then one more per symbol that counts for it, but never past
/// the column being read.
pub open spec fn way_reach(reels: Seq<Vec<i64>>, cols: int, sym: i64, wilds: Seq<i64>, first: bool) -> int
    decreases cols,
{
    if cols <= 1 {
        1
    } else {
        vstd::math::min(cols, way_reach(reels, cols - 1, sym, wilds, first) + column_hits(reels, cols - 1, sym, wilds, first))
    }
}

/// Sum of a way's counts.
pub open spec fn count_total(num: Seq<usize>) -> int
    decreases num.len(),
{
    if num.len() == 0 {
        0
    } else {
        count_total(num.drop_last()) + num.last()
    }
}

proof fn lemma_count_total_nonneg(num: Seq<usize>)
    ensures
        count_total(num) >= 0,
        num.len() > 0 ==> num.last() <= count_total(num),
    decreases num.len(),
{
    if num.len() > 0 {
        lemma_count_total_nonneg(num.drop_last());
    }
}

proof fn lemma_count_total_grow(num: Seq<usize>, col: int)
    requires
        num.len() >= 1,
        num.last() + 1 <= usize::MAX,
    ensures
        count_total(num.update(num.len() - 1, (num.last() + 1) as usize)) == count_total(num) + 1,
        count_total(num.push(1usize)) == count_total(num) + 1,
{
    let u = num.update(num.len() - 1, (num.last() + 1) as usize);
    assert(u.drop_last() =~= num.drop_last());
    assert(num.push(1usize).drop_last() =~= num);
}

/// A pass over a later column: each symbol adds one to the counts of the
/// way it joins; so a way whose symbol is no wild gains exactly the
/// occurrences of its symbol in that column, plus, for the very first way,
/// the column's wilds. No way reaches past this column.
proof fn lemma_later_column_totals(
    ways: Seq<(i64, Seq<usize>)>,
    reels: Seq<Vec<i64>>,
    col: int,
    rows: int,
    wilds: Seq<i64>,
    scatters: Seq<i64>,
)
    requires
        col >= 1,
        rows >= 0,
        forall|k: int| 0 <= k < ways.len() ==> 1 <= (#[trigger] ways[k]).1.len() <= col + 1,
        forall|k: int| 0 <= k < ways.len() ==> count_total((#[trigger] ways[k]).1) + rows < usize::MAX,
        forall|a: int, b: int| 0 <= a < b < ways.len() ==> ways[a].0 != ways[b].0,
    ensures
        ({
            let p = column_pass(ways, reels, col, rows, wilds, scatters);
            &&& p.len() == ways.len()
            &&& forall|k: int|
                0 <= k < p.len() ==> (#[trigger] p[k]).0 == ways[k].0 && 1 <= p[k].1.len() <= col + 1
                    && count_total(p[k].1) <= count_total(ways[k].1) + rows
            &&& forall|k: int|
                0 <= k < p.len() && !wilds.contains(ways[k].0) ==> count_total((#[trigger] p[k]).1)
                    == count_total(ways[k].1) + column_count(reels, col, rows, ways[k].0) + if k == 0 {
                    column_wilds(reels, col, rows, wilds) as int
                } else {
                    0int
                }
            &&& forall|k: int|
                0 <= k < p.len() && !wilds.contains(ways[k].0) ==> (#[trigger] p[k]).1.len() == vstd::math::min(
                    col + 1,
                    ways[k].1.len() + column_count(reels, col, rows, ways[k].0) + if k == 0 {
                        column_wilds(reels, col, rows, wilds) as int
                    } else {
                        0int
                    },
                )
        }),
    decreases rows,
{
    if rows > 0 {
        lemma_later_column_totals(ways, reels, col, rows - 1, wilds, scatters);
        let prev = column_pass(ways, reels, col, rows - 1, wilds, scatters);
        let next = column_pass(ways, reels, col, rows, wilds, scatters);
        let sym = reels[rows - 1]@[col];
        assert(next == step_later_column(prev, sym, wilds, col));
        lemma_first_kind_range(prev, sym);
        let j = first_joined(prev, sym, wilds);
        if j < prev.len() {
            let num = prev[j].1;
            lemma_count_total_nonneg(num);
            lemma_count_total_grow(num, col);
            assert forall|k: int| 0 <= k < next.len() implies (#[trigger] next[k]).0 == ways[k].0 && 1
                <= next[k].1.len() <= col + 1 && count_total(next[k].1) <= count_total(ways[k].1) + rows by {
                if k != j {
                    assert(next[k] == prev[k]);
                }
            }
            assert forall|k: int| 0 <= k < next.len() && !wilds.contains(ways[k].0) implies count_total(
                (#[trigger] next[k]).1,
            ) == count_total(ways[k].1) + column_count(reels, col, rows, ways[k].0) + if k == 0 {
                column_wilds(reels, col, rows, wilds) as int
            } else {
                0int
            } by {
                assert(prev[k].0 == ways[k].0);
                if k != j {
                    assert(next[k] == prev[k]);
                    if sym == ways[k].0 {
                        assert(!wilds.contains(sym));
                        assert(j == first_kind(prev, sym));
                        assert(prev[j].0 == sym);
                    }
                } else if !wilds.contains(sym) {
                    assert(prev[j].0 == sym);
                    if k > 0 {
                        assert(prev[0].0 != prev[k].0);
                    }
                }
            }
        } else {
            assert forall|k: int| 0 <= k < next.len() && !wilds.contains(ways[k].0) implies count_total(
                (#[trigger] next[k]).1,
            ) == count_total(ways[k].1) + column_count(reels, col, rows, ways[k].0) + if k == 0 {
                column_wilds(reels, col, rows, wilds) as int
            } else {
                0int
            } by {
                assert(prev[k].0 == ways[k].0);
                assert(sym != ways[k].0);
            }
        }
    }
}

/// After the first `cols` columns: each way counts at most `cols` columns, its
/// counts add up to at most `rows * cols`, and a way whose symbol is no wild
/// has counted every occurrence of its symbol, plus, for the very first way,
/// every wild after the first column, and reaches as far as `way_reach` says.
proof fn lemma_way_totals(reels: Seq<Vec<i64>>, cols: int, wilds: Seq<i64>, scatters: Seq<i64>)
    requires
        cols >= 1,
        reels.len() * cols < usize::MAX,
    ensures
        ({
            let w = build_ways(reels, cols, wilds, scatters);
            let n = reels.len() as int;
            &&& forall|a: int, b: int| 0 <= a < b < w.len() ==> w[a].0 != w[b].0
            &&& forall|k: int|
                0 <= k < w.len() ==> 1 <= (#[trigger] w[k]).1.len() <= cols && count_total(w[k].1) <= n * cols
            &&& forall|k: int|
                0 <= k < w.len() && !wilds.contains(w[k].0) ==> count_total((#[trigger] w[k]).1) == symbol_total(
                    reels,
                    cols,
                    w[k].0,
                ) + if k == 0 {
                    later_wild_total(reels, cols, wilds)
                } else {
                    0int
                }
            &&& forall|k: int|
                0 <= k < w.len() && !wilds.contains(w[k].0) ==> (#[trigger] w[k]).1.len() == way_reach(
                    reels,
                    cols,
                    w[k].0,
                    wilds,
                    k == 0,
                )
        }),
    decreases cols,
{
    let n = reels.len() as int;
    assert(n <= n * cols) by (nonlinear_arith)
        requires
            cols >= 1,
            n >= 0,
    ;
    lemma_first_column(reels, n, wilds, scatters);
    lemma_ways_keep_first_column(reels, cols, wilds, scatters);
    if cols == 1 {
        let w = build_ways(reels, 1, wilds, scatters);
        let p = column_pass(Seq::empty(), reels, 0, n, wilds, scatters);
        assert(build_ways(reels, 0, wilds, scatters) == Seq::<(i64, Seq<usize>)>::empty());
        assert(w == p);
        assert forall|k: int| 0 <= k < w.len() implies 1 <= (#[trigger] w[k]).1.len() <= cols && count_total(
            w[k].1,
        ) <= n * cols && count_total(w[k].1) == symbol_total(reels, cols, w[k].0) by {
            assert(!scatters.contains(p[k].0));
            lemma_column_count(reels, 0, n, w[k].0);
            assert(w[k].1.drop_last() =~= Seq::<usize>::empty());
            assert(count_total(Seq::<usize>::empty()) == 0);
            assert(count_total(w[k].1) == w[k].1[0]);
            assert(symbol_total(reels, 0, w[k].0) == 0);
            assert(symbol_total(reels, 1, w[k].0) == column_count(reels, 0, n, w[k].0));
            assert(n * cols == n) by (nonlinear_arith)
                requires
                    cols == 1,
            ;
        }
    } else {
        assert(n * (cols - 1) + n == n * cols) by (nonlinear_arith);
        assert(n * (cols - 1) <= n * cols) by (nonlinear_arith)
            requires
                n >= 0,
        ;
        lemma_way_totals(reels, cols - 1, wilds, scatters);
        let w0 = build_ways(reels, cols - 1, wilds, scatters);
        let w = build_ways(reels, cols, wilds, scatters);
        assert(w == column_pass(w0, reels, cols - 1, n, wilds, scatters));
        assert forall|k: int| 0 <= k < w0.len() implies count_total((#[trigger] w0[k]).1) + n < usize::MAX by {}
        lemma_later_column_totals(w0, reels, cols - 1, n, wilds, scatters);
        assert forall|a: int, b: int| 0 <= a < b < w.len() implies w[a].0 != w[b].0 by {
            assert(w[a].0 == w0[a].0 && w[b].0 == w0[b].0);
        }
        assert forall|k: int| 0 <= k < w.len() implies 1 <= (#[trigger] w[k]).1.len() <= cols && count_total(
            w[k].1,
        ) <= n * cols by {
            assert(count_total(w0[k].1) <= n * (cols - 1));
        }
        assert forall|k: int| 0 <= k < w.len() && !wilds.contains(w[k].0) implies count_total(
            (#[trigger] w[k]).1,
        ) == symbol_total(reels, cols, w[k].0) + if k == 0 {
            later_wild_total(reels, cols, wilds)
        } else {
            0int
        } by {
            assert(w[k].0 == w0[k].0);
            assert(!wilds.contains(w0[k].0));
        }
        assert forall|k: int| 0 <= k < w.len() && !wilds.contains(w[k].0) implies (#[trigger] w[k]).1.len()
            == way_reach(reels, cols, w[k].0, wilds, k == 0) by {
            assert(w[k].0 == w0[k].0);
            assert(!wilds.contains(w0[k].0));
        }
    }
}

/// What a way counts: a way for a symbol that is no wild counts every
/// occurrence of that symbol on the reels, and the very first way counts, on
/// top of that, every wild after the first column (wilds join the first way
/// only); no way counts more columns than the reels have, and each symbol
/// that counts for a way takes it one column further, up to the column it
/// stands in.
pub proof fn lemma_way_counts(reels: Seq<Vec<i64>>, t: Paytable)
    requires
        reels.len() > 0,
        reels[0]@.len() >= 1,
        reels.len() * reels[0]@.len() < usize::MAX,
    ensures
        ({
            let w = all_ways(reels, t);
            let cols = reels[0]@.len() as int;
            &&& forall|k: int| 0 <= k < w.len() ==> 1 <= (#[trigger] w[k]).1.len() <= cols
            &&& forall|k: int|
                0 <= k < w.len() && !wilds_of(t).contains(w[k].0) ==> count_total((#[trigger] w[k]).1)
                    == symbol_total(reels, cols, w[k].0) + if k == 0 {
                    later_wild_total(reels, cols, wilds_of(t))
                } else {
                    0int
                }
            &&& forall|k: int|
                0 <= k < w.len() && !wilds_of(t).contains(w[k].0) ==> (#[trigger] w[k]).1.len() == way_reach(
                    reels,
                    cols,
                    w[k].0,
                    wilds_of(t),
                    k == 0,
                )
        }),
{
    lemma_way_totals(reels, reels[0]@.len() as int, wilds_of(t), t.scatters@);
}

/// At a bet of at least one, every paid way wins at least one: only ways
/// whose pay-list entry is above zero are paid.
pub proof fn lemma_paid_ways_win(t: Paytable, ways: Seq<(i64, Seq<usize>)>, b: i64)
    requires
        b >= 1,
        forall|k: int, e: int| 0 <= k < ways.len() && 0 <= e < ways[k].1.len() ==> #[trigger] ways[k].1[e] >= 1,
    ensures
        forall|k: int| 0 <= k < paying_ways(t, ways, b).len() ==> #[trigger] paying_ways(t, ways, b)[k].0 >= 1,
    decreases ways.len(),
{
    if ways.len() > 0 {
        let d = ways.drop_last();
        assert forall|k: int, e: int| 0 <= k < d.len() && 0 <= e < d[k].1.len() implies #[trigger] d[k].1[e] >= 1 by {
            assert(d[k] == ways[k]);
        }
        lemma_paid_ways_win(t, d, b);
        let w = ways.last();
        if way_score(t, w) > 0 {
            assert forall|e: int| 0 <= e < w.1.len() implies w.1[e] >= 1 by {
                assert(ways[ways.len() - 1].1[e] >= 1);
            }
            lemma_product_pos(w.1);
            let p = product(w.1);
            let sc = way_score(t, w) as int;
            let bi = b as int;
            assert(p * sc * bi >= 1) by (nonlinear_arith)
                requires
                    p >= 1,
                    sc >= 1,
                    bi >= 1,
            ;
            let pd = paying_ways(t, d, b);
            let pw = paying_ways(t, ways, b);
            assert(pw == pd.push((way_win(t, w, b), w.1)));
            assert forall|k: int| 0 <= k < pw.len() implies #[trigger] pw[k].0 >= 1 by {
                if k < pd.len() {
                    assert(pw[k] == pd[k]);
                }
            }
        }
    }
}

} // verus!
