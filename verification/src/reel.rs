use vstd::prelude::*;

use crate::sampling::{
    draw_rule, effective_weights, lemma_first_draw, weight_sample_index_with, RandomDraws,
};
use crate::table::{
    parse_weight_table, table_entries, table_labels, table_sampleable, table_weights,
};
use crate::text::{chars_of, parse_i64, parse_i64_spec, span_text};

verus! {

/// A reel strip `symbol-weight;symbol-weight;...` whose symbols are all `i64`.
pub open spec fn reel_well_formed(s: Seq<char>) -> bool {
    &&& table_sampleable(s)
    &&& forall|k: int|
        0 <= k < table_entries(s).len() ==> parse_i64_spec(#[trigger] table_labels(s)[k]) is Some
}

/// The symbols of a reel strip, in order.
pub open spec fn reel_symbols(s: Seq<char>) -> Seq<i64> {
    table_labels(s).map_values(|l: Seq<char>| parse_i64_spec(l).unwrap())
}

/// The `rows` symbols of the circular strip `syms` from position `start` on.
pub fn cut_reel_at(syms: &Vec<i64>, start: usize, rows: usize) -> (result: Vec<i64>)
    requires
        start < syms.len(),
        syms.len() + start + rows <= usize::MAX,
    ensures
        result.len() == rows,
        forall|k: int| 0 <= k < rows ==> result[k] == syms[(start + k) % (syms.len() as int)],
{
    let n = syms.len();
    let mut result: Vec<i64> = Vec::new();
    for i in start..start + rows
        invariant
            n == syms.len(),
            n > 0,
            n + start + rows <= usize::MAX,
            result.len() == i - start,
            forall|k: int| 0 <= k < result.len() ==> result[k] == syms[(start + k) % (n as int)],
    {
        proof {
            vstd::arithmetic::div_mod::lemma_mod_add_multiples_vanish(i as int, n as int);
        }
        result.push(syms[(i + n) % n]);
    }
    result
}

/// Cuts a window of `rows` symbols out of a circular reel strip
/// `symbol-weight;...`, starting at a position drawn by weight.
pub fn cut_reel(reel_str: &str, rows: usize) -> (result: Vec<i64>)
    requires
        reel_well_formed(reel_str@),
        2 * table_entries(reel_str@).len() + rows <= usize::MAX,
    ensures
        result.len() == rows,
        exists|start: int|
            {
                &&& 0 <= start < table_entries(reel_str@).len()
                &&& table_weights(reel_str@)[start] > 0
                &&& exists|d: i64| draw_rule(effective_weights(table_weights(reel_str@)), d as int, start)
                &&& forall|k: int|
                    0 <= k < rows ==> result[k] == reel_symbols(reel_str@)[(start + k) % (
                    table_entries(reel_str@).len() as int)]
            },
{
    let mut rng = RandomDraws::new();
    let result = cut_reel_with(reel_str, rows, &mut rng);
    proof {
        let d = rng.history().last();
        let start = choose|start: int|
            {
                &&& 0 <= start < table_entries(reel_str@).len()
                &&& table_weights(reel_str@)[start] > 0
                &&& draw_rule(effective_weights(table_weights(reel_str@)), d as int, start)
                &&& forall|k: int|
                    0 <= k < rows ==> result[k] == reel_symbols(reel_str@)[(start + k) % (
                    table_entries(reel_str@).len() as int)]
            };
        assert(draw_rule(effective_weights(table_weights(reel_str@)), d as int, start));
    }
    result
}

/// `cut_reel` on the generator `rng`: it takes exactly one number from `rng`,
/// and the window starts at the position whose cumulative-weight interval
/// holds that number.
pub fn cut_reel_with(reel_str: &str, rows: usize, rng: &mut RandomDraws) -> (result: Vec<i64>)
    requires
        reel_well_formed(reel_str@),
        2 * table_entries(reel_str@).len() + rows <= usize::MAX,
    ensures
        result.len() == rows,
        final(rng).history().len() == old(rng).history().len() + 1,
        final(rng).history().drop_last() == old(rng).history(),
        exists|start: int|
            {
                &&& 0 <= start < table_entries(reel_str@).len()
                &&& table_weights(reel_str@)[start] > 0
                &&& draw_rule(effective_weights(table_weights(reel_str@)), final(rng).history().last() as int, start)
                &&& forall|k: int|
                    0 <= k < rows ==> result[k] == reel_symbols(reel_str@)[(start + k) % (
                    table_entries(reel_str@).len() as int)]
            },
{
    let ghost h0 = rng.history();
    let ghost s = reel_str@;
    let table = parse_weight_table(reel_str).unwrap();
    let chars = chars_of(reel_str);
    let mut syms: Vec<i64> = Vec::new();
    for k in 0..table.labels.len()
        invariant
            chars@ == s,
            s == reel_str@,
            reel_well_formed(s),
            table.labels.len() == table_entries(s).len(),
            forall|j: int|
                0 <= j < table.labels.len() ==> #[trigger] table.labels[j].0 <= table.labels[j].1
                    <= s.len(),
            forall|j: int|
                0 <= j < table.labels.len() ==> span_text(s, #[trigger] table.labels[j])
                    == table_labels(s)[j],
            syms.len() == k,
            forall|j: int| 0 <= j < k ==> syms[j] == reel_symbols(s)[j],
    {
        let (a, b) = table.labels[k];
        proof {
            assert(span_text(s, table.labels[k as int]) == table_labels(s)[k as int]);
            assert(parse_i64_spec(table_labels(s)[k as int]) is Some);
        }
        let v = parse_i64(&chars, a, b).unwrap();
        syms.push(v);
    }
    let drawn = weight_sample_index_with(&table.weights, 1, rng);
    let start_index = drawn[0];
    let result = cut_reel_at(&syms, start_index, rows);
    proof {
        let ew = effective_weights(table.weights@);
        let h = rng.history();
        lemma_first_draw(ew, drawn@, h.skip(h0.len() as int));
        assert(h.drop_last() =~= h.take(h0.len() as int));
        assert(h.skip(h0.len() as int)[0] == h.last());
        assert(table.weights[start_index as int] > 0);
        assert(forall|k: int| 0 <= k < rows ==> result[k] == reel_symbols(s)[(start_index + k) % (syms.len() as int)]);
    }
    result
}

} // verus!
