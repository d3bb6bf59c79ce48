use vstd::prelude::*;

use crate::sampling::{
    draw_rule, effective_weights, lemma_first_draw, positive_count, seq_sum,
    weight_sample_index_with, RandomDraws,
};
use vstd::string::StrSliceExecFns;
use crate::text::{chars_of, parse_i64, parse_i64_spec, span_text, split_pieces, split_spans};

verus! {

broadcast use vstd::string::group_string_axioms;

/// The entries of a weight table `label-weight;label-weight;...`.
pub open spec fn table_entries(s: Seq<char>) -> Seq<Seq<char>> {
    split_pieces(s, ';')
}

/// The `-`-separated fields of one entry.
pub open spec fn entry_fields(e: Seq<char>) -> Seq<Seq<char>> {
    split_pieces(e, '-')
}

/// An entry has a label and a second field that reads as an `i64` weight;
/// fields after the second are ignored.
pub open spec fn entry_well_formed(e: Seq<char>) -> bool {
    &&& entry_fields(e).len() >= 2
    &&& parse_i64_spec(entry_fields(e)[1]) is Some
}

pub open spec fn table_well_formed(s: Seq<char>) -> bool {
    forall|k: int| 0 <= k < table_entries(s).len() ==> entry_well_formed(#[trigger] table_entries(s)[k])
}

/// The label of each entry.
pub open spec fn table_labels(s: Seq<char>) -> Seq<Seq<char>> {
    table_entries(s).map_values(|e: Seq<char>| entry_fields(e)[0])
}

/// The weight of each entry.
pub open spec fn table_weights(s: Seq<char>) -> Seq<i64> {
    table_entries(s).map_values(|e: Seq<char>| parse_i64_spec(entry_fields(e)[1]).unwrap())
}

/// A weight table can be sampled: at least one positive weight, and the
/// positive weights add up within `i64`.
pub open spec fn table_sampleable(s: Seq<char>) -> bool {
    &&& table_well_formed(s)
    &&& positive_count(effective_weights(table_weights(s))) > 0
    &&& seq_sum(effective_weights(table_weights(s))) <= i64::MAX
}

/// A parsed weight table: the character span of each label in the text, and
/// each weight.
pub struct WeightTable {
    pub labels: Vec<(usize, usize)>,
    pub weights: Vec<i64>,
}

/// Parses `label-weight;label-weight;...`; `None` exactly when some entry lacks
/// a `-` or has a second field that is no `i64`.
pub fn parse_weight_table(input: &str) -> (r: Option<WeightTable>)
    ensures
        r is Some <==> table_well_formed(input@),
        r matches Some(t) ==> {
            &&& t.weights@ == table_weights(input@)
            &&& t.labels.len() == t.weights.len()
            &&& forall|k: int|
                0 <= k < t.labels.len() ==> #[trigger] t.labels[k].0 <= t.labels[k].1 <= input@.len()
            &&& forall|k: int|
                0 <= k < t.labels.len() ==> span_text(input@, #[trigger] t.labels[k]) == table_labels(
                    input@,
                )[k]
        },
{
    let chars = chars_of(input);
    let ghost s = input@;
    let entries = split_spans(&chars, 0, chars.len(), ';');
    proof {
        assert(chars@.subrange(0, chars@.len() as int) =~= s);
    }
    let mut labels: Vec<(usize, usize)> = Vec::new();
    let mut weights: Vec<i64> = Vec::new();
    for k in 0..entries.len()
        invariant
            chars@ == s,
            s == input@,
            entries.len() == table_entries(s).len(),
            forall|j: int| 0 <= j < entries.len() ==> #[trigger] entries[j].0 <= entries[j].1 <= chars.len(),
            forall|j: int|
                0 <= j < entries.len() ==> span_text(chars@, #[trigger] entries[j]) == table_entries(s)[j],
            labels.len() == k,
            weights.len() == k,
            forall|j: int| 0 <= j < k ==> entry_well_formed(#[trigger] table_entries(s)[j]),
            forall|j: int| 0 <= j < k ==> weights[j] == table_weights(s)[j],
            forall|j: int| 0 <= j < k ==> #[trigger] labels[j].0 <= labels[j].1 <= s.len(),
            forall|j: int| 0 <= j < k ==> span_text(s, #[trigger] labels[j]) == table_labels(s)[j],
    {
        let (a, b) = entries[k];
        let fields = split_spans(&chars, a, b, '-');
        let ghost e = table_entries(s)[k as int];
        proof {
            assert(span_text(chars@, entries[k as int]) == e);
        }
        if fields.len() < 2 {
            return None;
        }
        let (c, d) = fields[1];
        let w = parse_i64(&chars, c, d);
        match w {
            None => {
                return None;
            },
            Some(w) => {
                proof {
                    assert(span_text(chars@, fields[0]) == entry_fields(e)[0]);
                    assert(span_text(chars@, fields[1]) == entry_fields(e)[1]);
                }
                labels.push(fields[0]);
                weights.push(w);
            },
        }
    }
    proof {
        assert(weights@ =~= table_weights(s));
    }
    Some(WeightTable { labels, weights })
}

/// Picks one label of a weight table `label-weight;...`, with chance
/// proportional to its weight; the label is a slice of `input`.
pub fn weight_sample_str(input: &str) -> (r: &str)
    requires
        table_sampleable(input@),
    ensures
        exists|k: int, d: i64|
            {
                &&& 0 <= k < table_entries(input@).len()
                &&& table_weights(input@)[k] > 0
                &&& draw_rule(effective_weights(table_weights(input@)), d as int, k)
                &&& r@ == table_labels(input@)[k]
            },
{
    let mut rng = RandomDraws::new();
    weight_sample_str_with(input, &mut rng)
}

/// `weight_sample_str` on the generator `rng`: it takes exactly one number
/// from `rng`, and the label returned is the one whose cumulative-weight
/// interval holds that number.
pub fn weight_sample_str_with<'a>(input: &'a str, rng: &mut RandomDraws) -> (r: &'a str)
    requires
        table_sampleable(input@),
    ensures
        final(rng).history().len() == old(rng).history().len() + 1,
        final(rng).history().drop_last() == old(rng).history(),
        exists|k: int|
            {
                &&& 0 <= k < table_entries(input@).len()
                &&& table_weights(input@)[k] > 0
                &&& draw_rule(effective_weights(table_weights(input@)), final(rng).history().last() as int, k)
                &&& r@ == table_labels(input@)[k]
            },
{
    let ghost h0 = rng.history();
    let table = parse_weight_table(input).unwrap();
    let select_index = weight_sample_index_with(&table.weights, 1, rng);
    let k = select_index[0];
    let (a, b) = table.labels[k];
    proof {
        assert(table.weights[k as int] > 0);
        let ew = effective_weights(table.weights@);
        let h = rng.history();
        lemma_first_draw(ew, select_index@, h.skip(h0.len() as int));
        assert(h.drop_last() =~= h.take(h0.len() as int));
        assert(h.skip(h0.len() as int)[0] == h.last());
    }
    input.substring_char(a, b)
}

/// Picks one label of a weight table, as `weight_sample_str`, and reads it as
/// an `i64`.
pub fn weight_sample_int(input: &str) -> (r: i64)
    requires
        table_sampleable(input@),
        forall|k: int|
            0 <= k < table_entries(input@).len() && table_weights(input@)[k] > 0 ==> parse_i64_spec(
                #[trigger] table_labels(input@)[k],
            ) is Some,
    ensures
        exists|k: int, d: i64|
            {
                &&& 0 <= k < table_entries(input@).len()
                &&& table_weights(input@)[k] > 0
                &&& draw_rule(effective_weights(table_weights(input@)), d as int, k)
                &&& parse_i64_spec(table_labels(input@)[k]) == Some(r)
            },
{
    let mut rng = RandomDraws::new();
    weight_sample_int_with(input, &mut rng)
}

/// `weight_sample_int` on the generator `rng`: it takes exactly one number
/// from `rng`, and returns the label whose cumulative-weight interval holds
/// that number, read as an `i64`.
pub fn weight_sample_int_with(input: &str, rng: &mut RandomDraws) -> (r: i64)
    requires
        table_sampleable(input@),
        forall|k: int|
            0 <= k < table_entries(input@).len() && table_weights(input@)[k] > 0 ==> parse_i64_spec(
                #[trigger] table_labels(input@)[k],
            ) is Some,
    ensures
        final(rng).history().len() == old(rng).history().len() + 1,
        final(rng).history().drop_last() == old(rng).history(),
        exists|k: int|
            {
                &&& 0 <= k < table_entries(input@).len()
                &&& table_weights(input@)[k] > 0
                &&& draw_rule(effective_weights(table_weights(input@)), final(rng).history().last() as int, k)
                &&& parse_i64_spec(table_labels(input@)[k]) == Some(r)
            },
{
    let label = weight_sample_str_with(input, rng);
    let chars = chars_of(label);
    proof {
        assert(chars@.subrange(0, chars@.len() as int) =~= label@);
    }
    parse_i64(&chars, 0, chars.len()).unwrap()
}

} // verus!
