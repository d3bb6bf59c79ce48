use slot_logic::lines::get_winlines;
use slot_logic::paytable::{Paytable, ScoreRow};
use slot_logic::progress::progress_text;
use slot_logic::sampling::{bisect_left, weight_sample_index_from_vec};
use slot_logic::table::{weight_sample_int, weight_sample_str};

fn pays(v: &[i64]) -> ScoreRow {
    ScoreRow::Pays(v.iter().map(|x| Some(*x)).collect())
}

fn demo_paytable() -> Paytable {
    Paytable {
        score: vec![
            (0, pays(&[0, 0, 0, 50, 100, 500])),
            (1, pays(&[0, 0, 0, 30, 60, 300])),
            (2, pays(&[0, 0, 0, 20, 40, 200])),
            (3, pays(&[0, 0, 0, 12, 24, 120])),
            (4, pays(&[0, 0, 0, 8, 16, 80])),
            (5, pays(&[0, 0, 0, 5, 10, 50])),
            (6, pays(&[0, 0, 0, 3, 6, 30])),
            (7, pays(&[0, 0, 0, 2, 4, 20])),
            (92, pays(&[0, 0, 0, 50, 100, 1000])),
            (94, pays(&[0, 0, 0, 1, 3, 6])),
        ],
        wilds: Some(vec![92]),
        scatters: vec![],
        scatter_is_online: false,
    }
}

#[test]
fn test_get_winlines() {
    let reels = vec![vec![1, 1, 1, 2, 2], vec![1, 92, 1, 2, 2], vec![92, 3, 4, 5, 6]];
    let calculator = demo_paytable();
    let paylines: Vec<Vec<usize>> = vec![
        vec![0, 0, 0, 0, 0],
        vec![1, 1, 1, 1, 1],
        vec![2, 2, 2, 2, 2],
        vec![0, 1, 2, 1, 0],
        vec![2, 1, 0, 1, 2],
        vec![1, 0, 0, 0, 1],
        vec![1, 2, 2, 2, 1],
        vec![0, 1, 0, 1, 0],
        vec![2, 1, 2, 1, 2],
    ];
    let line_bet = 1;
    let r = get_winlines(&reels, &calculator, &paylines, line_bet);
    println!("{:?}", r.0);
    assert_eq!(
        r.0,
        vec![(30, 1, 3), (30, 1, 3), (30, 1, 3), (30, 1, 3), (30, 1, 3), (8, 4, 3)]
    );
    assert_eq!(r.1, 158);
}

#[test]
fn test_bisect_left() {
    let a = vec![1, 2, 2, 3, 3, 4];
    let x = 2;
    let result = bisect_left(&a, x);
    println!("{result}");
    assert_eq!(result, 1);
}

#[test]
fn test_weight_sample_index_from_vec() {
    for _i in 0..10 {
        let weight = vec![0, 0, 2, 0];
        let num = 2;
        let result = weight_sample_index_from_vec(&weight, num);
        println!("{:?}", result);
        assert_eq!(result, vec![2]);
    }
}

#[test]
fn test_weight_sample_str() {
    let input = "1-0;2-1;3-5";
    let r = weight_sample_str(input);
    println!("{}", r);
    assert!(r == "2" || r == "3");
}

#[test]
fn test_print_process() {
    let start = std::time::Instant::now();
    let total_times = 1_000_000;
    for _i in 0..total_times {
        let input = "1-1;2-0;3-5;4-5";
        let _r = weight_sample_int(input);
        assert!(_r == 1 || _r == 3 || _r == 4);
        if let Some(text) = progress_text(_i + 1, total_times) {
            println!("{}", text);
        }
    }
    let cost = std::time::Instant::now() - start;
    println!("time used: {:?}", cost);
}
