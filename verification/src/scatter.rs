use vstd::prelude::*;

use crate::paytable::{contains, Paytable};

verus! {

/// Number of scatter symbols among the first `n` symbols of a row.
pub open spec fn count_in_row(row: Seq<i64>, n: int, scatters: Seq<i64>) -> int
    decreases n,
{
    if n <= 0 {
        0
    } else {
        count_in_row(row, n - 1, scatters) + if scatters.contains(row[n - 1]) { 1int } else { 0int }
    }
}

/// Number of scatter symbols in the first `cols` columns of the first `rows` rows.
pub open spec fn count_in_grid(reels: Seq<Vec<i64>>, rows: int, cols: int, scatters: Seq<i64>) -> int
    decreases rows,
{
    if rows <= 0 {
        0
    } else {
        count_in_grid(reels, rows - 1, cols, scatters) + count_in_row(reels[rows - 1]@, cols, scatters)
    }
}

/// Number of scatter symbols on the reels.
pub open spec fn scatter_count(reels: Seq<Vec<i64>>, t: Paytable) -> int {
    count_in_grid(reels, reels.len() as int, reels[0]@.len() as int, t.scatters@)
}

/// The scatter pay: the entry of the first scatter's pay list for the number
/// of scatters on the reels.
pub open spec fn scatter_pay(reels: Seq<Vec<i64>>, t: Paytable) -> i64 {
    t.pay(t.scatters@[0], scatter_count(reels, t))
}

/// The reels are a non-empty grid no smaller than its first row, the paytable
/// has a scatter whose pay list is a list (or absent) reaching the scatter
/// count, and the win fits in an `i64`.
pub open spec fn sc_ready(reels: Seq<Vec<i64>>, t: Paytable, bets: i64) -> bool {
    &&& reels.len() > 0
    &&& forall|j: int| 0 <= j < reels.len() ==> (#[trigger] reels[j])@.len() >= reels[0]@.len()
    &&& reels.len() * reels[0]@.len() <= usize::MAX
    &&& t.scatters@.len() > 0
    &&& t.row_is_list_or_absent(t.scatters@[0])
    &&& t.pay_in_range(t.scatters@[0], scatter_count(reels, t))
    &&& scatter_pay(reels, t) > 0 ==> i64::MIN <= scatter_pay(reels, t) * bets <= i64::MAX
}

/// The scatter win at `bets`, when the scatters on the reels pay above zero.
pub fn get_sc_lines(reels: &Vec<Vec<i64>>, calculator: &Paytable, bets: i64) -> (r: Option<i64>)
    requires
        sc_ready(reels@, *calculator, bets),
    ensures
        r == if scatter_pay(reels@, *calculator) > 0 {
            Some((scatter_pay(reels@, *calculator) * bets) as i64)
        } else {
            None::<i64>
        },
{
    let scatters = &calculator.scatters;
    let rows = reels.len();
    let columns = reels[0].len();
    let mut sc_icons: usize = 0;
    for i in 0..rows
        invariant
            rows == reels.len(),
            rows > 0,
            columns == reels[0]@.len(),
            forall|j: int| 0 <= j < reels.len() ==> (#[trigger] reels[j])@.len() >= columns,
            rows * columns <= usize::MAX,
            scatters@ == calculator.scatters@,
            sc_icons == count_in_grid(reels@, i as int, columns as int, scatters@),
            sc_icons <= i * columns,
    {
        let ghost before = sc_icons as int;
        proof {
            assert(i * columns + columns <= rows * columns) by (nonlinear_arith)
                requires
                    i < rows,
            ;
            assert(reels@[i as int]@.len() >= columns);
        }
        for j in 0..columns
            invariant
                rows == reels.len(),
                i < rows,
                columns == reels[0]@.len(),
                reels@[i as int]@.len() >= columns,
                i * columns + columns <= rows * columns,
                rows * columns <= usize::MAX,
                scatters@ == calculator.scatters@,
                before <= i * columns,
                sc_icons == before + count_in_row(reels@[i as int]@, j as int, scatters@),
                sc_icons <= before + j,
        {
            if contains(scatters, reels[i][j]) {
                sc_icons += 1;
            }
        }
        proof {
            assert((i + 1) * columns == i * columns + columns) by (nonlinear_arith);
        }
    }
    let sc_score = calculator.pay_at(scatters[0], sc_icons);
    if sc_score > 0 {
        return Some(sc_score * bets);
    }
    None
}

} // verus!
