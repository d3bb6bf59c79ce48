use vstd::prelude::*;

verus! {

/// The pay list a paytable gives a symbol: a list of wins indexed by the number
/// of symbols on a line (an entry is `None` where the list holds something that
/// is no integer), or something that is no list.
pub enum ScoreRow {
    Pays(Vec<Option<i64>>),
    Other,
}

/// What a slot game's calculator holds: the pay lists by symbol, the wild
/// symbols (absent when the calculator has no `wilds`), the scatter symbols
/// (empty when it has none), and whether scatters also pay on lines.
pub struct Paytable {
    pub score: Vec<(i64, ScoreRow)>,
    pub wilds: Option<Vec<i64>>,
    pub scatters: Vec<i64>,
    pub scatter_is_online: bool,
}

/// Index of the first entry keyed `key`, or `s.len()` when there is none.
pub open spec fn first_key_index(s: Seq<(i64, ScoreRow)>, key: i64) -> int
    decreases s.len(),
{
    if s.len() == 0 {
        0
    } else {
        let f = first_key_index(s.drop_last(), key);
        if f < s.len() - 1 {
            f
        } else if s.last().0 == key {
            s.len() - 1
        } else {
            s.len() as int
        }
    }
}

proof fn lemma_first_key_index_char(s: Seq<(i64, ScoreRow)>, key: i64, i: int)
    requires
        0 <= i <= s.len(),
        i < s.len() ==> s[i].0 == key,
        forall|j: int| 0 <= j < i ==> s[j].0 != key,
    ensures
        first_key_index(s, key) == i,
    decreases s.len(),
{
    if s.len() > 0 {
        if i < s.len() {
            if i < s.len() - 1 {
                lemma_first_key_index_char(s.drop_last(), key, i);
            } else {
                lemma_first_key_index_char(s.drop_last(), key, s.len() - 1);
            }
        } else {
            lemma_first_key_index_char(s.drop_last(), key, s.len() - 1);
        }
    }
}

/// A symbol's pay list is the one of its first entry in the paytable, and a
/// symbol without an entry has none.
pub proof fn lemma_row_for_first_entry(t: Paytable, key: i64)
    ensures
        (forall|i: int| 0 <= i < t.score@.len() ==> (#[trigger] t.score@[i]).0 != key) ==> t.row_for(key) is None,
        forall|i: int|
            0 <= i < t.score@.len() && (#[trigger] t.score@[i]).0 == key && (forall|j: int|
                0 <= j < i ==> t.score@[j].0 != key) ==> t.row_for(key) == Some(t.score@[i].1),
{
    if forall|i: int| 0 <= i < t.score@.len() ==> (#[trigger] t.score@[i]).0 != key {
        lemma_first_key_index_char(t.score@, key, t.score@.len() as int);
    }
    assert forall|i: int|
        0 <= i < t.score@.len() && (#[trigger] t.score@[i]).0 == key && (forall|j: int|
            0 <= j < i ==> t.score@[j].0 != key) implies t.row_for(key) == Some(t.score@[i].1) by {
        lemma_first_key_index_char(t.score@, key, i);
    }
}

impl Paytable {
    /// The pay list for `key`, when the paytable has one.
    pub open spec fn row_for(&self, key: i64) -> Option<ScoreRow> {
        let i = first_key_index(self.score@, key);
        if i < self.score@.len() {
            Some(self.score@[i].1)
        } else {
            None
        }
    }

    /// The win for `n` symbols of `key` on a line: the `n`-th entry of its pay
    /// list, or 0 when `key` has no pay list or its entry is no list.
    pub open spec fn pay(&self, key: i64, n: int) -> i64 {
        match self.row_for(key) {
            Some(ScoreRow::Pays(v)) => match v@[n] {
                Some(x) => x,
                None => 0,
            },
            _ => 0,
        }
    }

    /// Looking up `n` symbols of `key` stays inside its pay list and finds an
    /// integer there.
    pub open spec fn pay_in_range(&self, key: i64, n: int) -> bool {
        match self.row_for(key) {
            Some(ScoreRow::Pays(v)) => 0 <= n < v@.len() && v@[n] is Some,
            _ => true,
        }
    }

    /// `key` has no pay list, or a pay list that is a list.
    pub open spec fn row_is_list_or_absent(&self, key: i64) -> bool {
        !(self.row_for(key) matches Some(ScoreRow::Other))
    }

    /// The win for `n` symbols of `key`, as `pay` states.
    pub fn pay_at(&self, key: i64, n: usize) -> (r: i64)
        requires
            self.pay_in_range(key, n as int),
        ensures
            r == self.pay(key, n as int),
    {
        let mut i: usize = 0;
        while i < self.score.len()
            invariant
                0 <= i <= self.score.len(),
                forall|j: int| 0 <= j < i ==> self.score@[j].0 != key,
                self.pay_in_range(key, n as int),
            decreases self.score.len() - i,
        {
            if self.score[i].0 == key {
                proof {
                    lemma_first_key_index_char(self.score@, key, i as int);
                    assert(self.row_for(key) == Some(self.score@[i as int].1));
                }
                let entry = &self.score[i];
                return match &entry.1 {
                    ScoreRow::Pays(v) => {
                        proof {
                            assert(self.score@[i as int].1 == ScoreRow::Pays(*v));
                        }
                        v[n].unwrap()
                    },
                    ScoreRow::Other => 0,
                };
            }
            i += 1;
        }
        proof {
            lemma_first_key_index_char(self.score@, key, i as int);
        }
        0
    }
}

/// Whether `x` occurs in `v`.
pub fn contains(v: &Vec<i64>, x: i64) -> (r: bool)
    ensures
        r == v@.contains(x),
{
    for i in 0..v.len()
        invariant
            forall|j: int| 0 <= j < i ==> v@[j] != x,
    {
        if v[i] == x {
            return true;
        }
    }
    false
}

} // verus!
