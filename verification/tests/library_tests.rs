use slot_logic::allways::get_allway_winlines;
use slot_logic::data::{PhantomLogic, SpinResult, UserData};
use slot_logic::lines::{count_line, get_winlines};
use slot_logic::paytable::{contains, Paytable, ScoreRow};
use slot_logic::progress::{div_toward_zero, progress_text};
use slot_logic::reel::{cut_reel, cut_reel_at};
use slot_logic::sampling::{sample, weight_sample_index_from_vec, WeightPool};
use slot_logic::scatter::get_sc_lines;
use slot_logic::table::{parse_weight_table, weight_sample_int, weight_sample_str};
use slot_logic::text::{chars_of, decimal_string, parse_i64};

fn pays(v: &[i64]) -> ScoreRow {
    ScoreRow::Pays(v.iter().map(|x| Some(*x)).collect())
}

fn table(score: Vec<(i64, ScoreRow)>, wilds: Option<Vec<i64>>, scatters: Vec<i64>, online: bool) -> Paytable {
    Paytable { score, wilds, scatters, scatter_is_online: online }
}

#[test]
fn pool_draws_by_cumulative_interval() {
    let mut pool = WeightPool::new(&vec![3, 0, 2]);
    assert_eq!(pool.total(), 5);
    assert_eq!(pool.pick(4), 2);
    assert_eq!(pool.total(), 3);
    assert_eq!(pool.pick(3), 0);
    assert_eq!(pool.total(), 0);
}

#[test]
fn pool_first_and_last_draw() {
    let mut pool = WeightPool::new(&vec![-4, 3, 0, 2]);
    assert_eq!(pool.total(), 5);
    assert_eq!(pool.pick(1), 1);
    assert_eq!(pool.pick(2), 3);
}

#[test]
fn sampling_takes_each_positive_item_once() {
    for _ in 0..50 {
        let mut r = weight_sample_index_from_vec(&vec![5, -1, 0, 7], 10);
        r.sort();
        assert_eq!(r, vec![0, 3]);
    }
    assert_eq!(weight_sample_index_from_vec(&vec![], 3), Vec::<usize>::new());
    assert_eq!(weight_sample_index_from_vec(&vec![1, 2], 0), Vec::<usize>::new());
}

#[test]
fn sampling_uses_the_random_draw() {
    let mut seen = [false, false];
    for _ in 0..200 {
        let r = weight_sample_index_from_vec(&vec![1, 1], 1);
        seen[r[0]] = true;
    }
    assert!(seen[0] && seen[1]);
}

#[test]
fn sample_picks_distinct_elements() {
    let data = vec![10, 20, 30, 40];
    let r = sample(&data, 2);
    assert_eq!(r.len(), 2);
    assert_ne!(r[0], r[1]);
    assert!(r.iter().all(|x| data.contains(x)));
    let mut all = sample(&data, -1);
    all.sort();
    assert_eq!(all, data);
    let mut many = sample(&data, 99);
    many.sort();
    assert_eq!(many, data);
    assert_eq!(sample(&data, 0), Vec::<i32>::new());
}

#[test]
fn reel_window_wraps_around() {
    assert_eq!(cut_reel_at(&vec![1, 2, 3, 4], 3, 3), vec![4, 1, 2]);
    assert_eq!(cut_reel_at(&vec![1, 2, 3, 4], 0, 0), Vec::<i64>::new());
    assert_eq!(cut_reel_at(&vec![5], 0, 3), vec![5, 5, 5]);
}

#[test]
fn reel_starts_at_a_weighted_position() {
    for _ in 0..20 {
        assert_eq!(cut_reel("7-0;8-1;9-0", 4), vec![8, 9, 7, 8]);
        assert_eq!(cut_reel("+3-0;12-5", 3), vec![12, 3, 12]);
    }
}

#[test]
fn weight_table_parsing() {
    let t = parse_weight_table("ab-3;c-+4;d-5-6").unwrap();
    assert_eq!(t.weights, vec![3, 4, 5]);
    assert_eq!(t.labels, vec![(0, 2), (5, 6), (10, 11)]);
    assert!(parse_weight_table("1-0;2").is_none());
    assert!(parse_weight_table("").is_none());
    assert!(parse_weight_table("a-x").is_none());
    assert!(parse_weight_table("a--5").is_none());
    assert!(parse_weight_table("a-").is_none());
    assert!(parse_weight_table("a-9223372036854775808").is_none());
    assert_eq!(parse_weight_table("a-9223372036854775807").unwrap().weights, vec![i64::MAX]);
    assert!(parse_weight_table("1-1;").is_none());
}

#[test]
fn weighted_label_choice() {
    for _ in 0..20 {
        assert_eq!(weight_sample_str("x-0;yy-2;z-0"), "yy");
        assert_eq!(weight_sample_str("9-0;-4-3"), "");
        assert_eq!(weight_sample_int("5-0;+12-1"), 12);
        assert_eq!(weight_sample_str("é-1"), "é");
    }
}

fn classic() -> Paytable {
    table(
        vec![
            (1, pays(&[0, 0, 0, 30, 60, 300])),
            (5, pays(&[0, 0, 0, 5, 10, 50])),
            (9, pays(&[0, 0, 0, 10, 20, 40])),
            (92, pays(&[0, 0, 0, 50, 100, 1000])),
            (94, pays(&[0, 0, 0, 1, 3, 6])),
            (7, ScoreRow::Other),
        ],
        Some(vec![92]),
        vec![9],
        false,
    )
}

#[test]
fn count_line_cases() {
    let t = classic();
    // the symbol wins with wilds standing in
    assert_eq!(count_line(&vec![1, 92, 1, 5, 1], &t), Some((30, 1, 3)));
    // leading wilds pay more than the symbol
    assert_eq!(count_line(&vec![92, 92, 92, 92, 5], &t), Some((100, 92, 4)));
    // all wilds: the line's symbol is the wild itself
    assert_eq!(count_line(&vec![92, 92, 92, 92, 92], &t), Some((1000, 92, 5)));
    // scatters do not pay on lines
    assert_eq!(count_line(&vec![9, 9, 9, 1, 1], &t), None);
    // nothing pays
    assert_eq!(count_line(&vec![1, 5, 1, 1, 1], &t), None);
    // a symbol whose pay list is no list pays nothing
    assert_eq!(count_line(&vec![7, 7, 7, 7, 7], &t), None);
    // a symbol missing from the paytable pays nothing
    assert_eq!(count_line(&vec![3, 3, 3, 3, 3], &t), None);
    let mut online = classic();
    online.scatter_is_online = true;
    assert_eq!(count_line(&vec![9, 9, 9, 1, 1], &online), Some((10, 9, 3)));
}

#[test]
fn winlines_drop_false_jackpots() {
    let t = classic();
    let reels = vec![vec![94, 92, 94, 1, 1], vec![94, 94, 94, 94, 2]];
    let paylines: Vec<Vec<usize>> = vec![vec![0, 0, 0, 0, 0], vec![1, 1, 1, 1, 1]];
    let (lines, wins) = get_winlines(&reels, &t, &paylines, 3);
    assert_eq!(lines, vec![(3, 94, 4)]);
    assert_eq!(wins, 9);
}

#[test]
fn allways_counts_and_pays() {
    let t = table(
        vec![(1, pays(&[0, 0, 0, 30])), (4, pays(&[0, 0, 5]))],
        Some(vec![92]),
        vec![9],
        false,
    );
    let reels = vec![vec![1, 2, 3], vec![1, 92, 1], vec![4, 1, 9]];
    let (lines, total) = get_allway_winlines(&reels, &t, 2);
    assert_eq!(lines, vec![(240, vec![2, 2, 1])]);
    assert_eq!(total, 240);
}

#[test]
fn allways_without_wilds_or_pays() {
    let t = table(vec![(1, pays(&[0, 0, 7]))], None, vec![], false);
    let reels = vec![vec![1, 1], vec![2, 1]];
    let (lines, total) = get_allway_winlines(&reels, &t, 1);
    assert_eq!(lines, vec![(14, vec![1, 2])]);
    assert_eq!(total, 14);
    let none = table(vec![], None, vec![], false);
    assert_eq!(get_allway_winlines(&reels, &none, 1), (vec![], 0));
}

#[test]
fn scatter_pay() {
    let t = classic();
    assert_eq!(get_sc_lines(&vec![vec![9, 1, 9], vec![2, 9, 3]], &t, 5), Some(50));
    assert_eq!(get_sc_lines(&vec![vec![9, 1, 1], vec![2, 9, 3]], &t, 5), None);
    assert_eq!(get_sc_lines(&vec![vec![9, 9, 9, 9, 9]], &t, 1), Some(40));
}

#[test]
fn progress_bar_text() {
    let first = progress_text(1, 100).unwrap();
    assert_eq!(first, format!("\r|{}1%", " ".repeat(99)));
    assert_eq!(progress_text(1, 1000), None);
    assert_eq!(progress_text(0, 1000), None);
    let last = progress_text(100, 100).unwrap();
    assert_eq!(last, format!("\r{}100%\n", "|".repeat(100)));
    let negative = progress_text(-50, 100).unwrap();
    assert_eq!(negative, format!("\r{}-50%", " ".repeat(150)));
}

#[test]
fn decimal_and_division() {
    assert_eq!(decimal_string(0), "0");
    assert_eq!(decimal_string(1234), "1234");
    assert_eq!(decimal_string(-56), "-56");
    assert_eq!(decimal_string(i64::MIN), "-9223372036854775808");
    assert_eq!(decimal_string(i64::MAX), "9223372036854775807");
    assert_eq!(div_toward_zero(-7, 2), -3);
    assert_eq!(div_toward_zero(7, -2), -3);
    assert_eq!(div_toward_zero(-7, -2), 3);
    assert_eq!(div_toward_zero(i64::MIN, 1), i64::MIN);
}

#[test]
fn paytable_lookup() {
    let t = table(vec![(1, pays(&[4, 5])), (1, pays(&[6, 7])), (2, ScoreRow::Other)], None, vec![], false);
    assert_eq!(t.pay_at(1, 1), 5);
    assert_eq!(t.pay_at(2, 0), 0);
    assert_eq!(t.pay_at(3, 9), 0);
    assert!(contains(&vec![3, 4], 4));
    assert!(!contains(&vec![3, 4], 5));
}

#[test]
fn fresh_player_and_spin() {
    let u = UserData::new();
    assert_eq!(u.bets, 9);
    assert!(u.selfdata.is_empty());
    assert_eq!(u.actions, vec![0]);
    let s = SpinResult::new();
    assert_eq!((s.wins, s.action), (0, 0));
    assert!(s.selfdata.is_empty());
    let _ = PhantomLogic {};
}

#[test]
fn decimal_text_reads_back() {
    for v in [0i64, 7, -7, 1234567, i64::MIN, i64::MAX] {
        let text = decimal_string(v);
        assert_eq!(text, v.to_string());
        let chars = chars_of(&text);
        assert_eq!(parse_i64(&chars, 0, chars.len()), Some(v));
    }
}

#[test]
fn non_integer_entries_elsewhere_do_not_matter() {
    let t = table(
        vec![(1, ScoreRow::Pays(vec![None, Some(0), Some(0), Some(30)]))],
        Some(vec![92]),
        vec![],
        false,
    );
    assert_eq!(count_line(&vec![1, 1, 1], &t), Some((30, 1, 3)));
    assert_eq!(t.pay_at(1, 3), 30);
}

#[test]
fn wins_scale_with_the_bet() {
    let t = classic();
    let reels = vec![vec![1, 92, 1, 5, 1], vec![92, 92, 92, 92, 5]];
    let paylines: Vec<Vec<usize>> = vec![vec![0, 0, 0, 0, 0], vec![1, 1, 1, 1, 1]];
    let (l1, w1) = get_winlines(&reels, &t, &paylines, 1);
    let (l7, w7) = get_winlines(&reels, &t, &paylines, 7);
    assert_eq!(l1, l7);
    assert_eq!(w7, 7 * w1);
    let ways = table(vec![(1, pays(&[0, 0, 0, 30]))], Some(vec![92]), vec![9], false);
    let grid = vec![vec![1, 2, 3], vec![1, 92, 1], vec![4, 1, 9]];
    let (a1, t1) = get_allway_winlines(&grid, &ways, 1);
    let (a3, t3) = get_allway_winlines(&grid, &ways, 3);
    assert_eq!(a1.len(), a3.len());
    assert_eq!(a3[0], (3 * a1[0].0, a1[0].1.clone()));
    assert_eq!(t3, 3 * t1);
}
