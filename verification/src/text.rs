use vstd::prelude::*;
use vstd::string::{StrSliceExecFns, StringExecFns};

verus! {

broadcast use vstd::string::group_string_axioms;

/// The characters of `s`, in order.
pub fn chars_of(s: &str) -> (v: Vec<char>)
    ensures
        v@ == s@,
{
    let mut v: Vec<char> = Vec::new();
    for c in it: s.chars()
        invariant
            v@ == it.seq().take(it.index() as int),
            it.seq() == s@,
    {
        v.push(c);
    }
    v
}


/// The pieces of `s` between occurrences of `sep`, as `str::split` yields them:
/// an empty text gives one empty piece, and a separator at either end gives an
/// empty piece there.
pub open spec fn split_pieces(s: Seq<char>, sep: char) -> Seq<Seq<char>>
    decreases s.len(),
{
    if s.len() == 0 {
        seq![Seq::<char>::empty()]
    } else {
        let p = split_pieces(s.drop_last(), sep);
        if s.last() == sep {
            p.push(Seq::<char>::empty())
        } else {
            p.update(p.len() - 1, p.last().push(s.last()))
        }
    }
}

proof fn lemma_split_nonempty(s: Seq<char>, sep: char)
    ensures
        split_pieces(s, sep).len() >= 1,
    decreases s.len(),
{
    if s.len() > 0 {
        lemma_split_nonempty(s.drop_last(), sep);
    }
}

/// The pieces put back together with `sep` between them.
pub open spec fn join_pieces(pieces: Seq<Seq<char>>, sep: char) -> Seq<char>
    decreases pieces.len(),
{
    if pieces.len() <= 1 {
        if pieces.len() == 1 { pieces[0] } else { Seq::empty() }
    } else {
        join_pieces(pieces.drop_last(), sep) + seq![sep] + pieces.last()
    }
}

/// Splitting loses nothing and keeps no separator: no piece holds `sep`, and
/// joining the pieces with `sep` gives back the text.
pub proof fn lemma_split_rejoins(s: Seq<char>, sep: char)
    ensures
        join_pieces(split_pieces(s, sep), sep) == s,
        forall|k: int, i: int|
            0 <= k < split_pieces(s, sep).len() && 0 <= i < split_pieces(s, sep)[k].len() ==> #[trigger] split_pieces(
                s,
                sep,
            )[k][i] != sep,
    decreases s.len(),
{
    lemma_split_nonempty(s, sep);
    if s.len() == 0 {
        assert(join_pieces(split_pieces(s, sep), sep) =~= s);
    } else {
        let d = s.drop_last();
        let c = s.last();
        lemma_split_rejoins(d, sep);
        lemma_split_nonempty(d, sep);
        let p = split_pieces(d, sep);
        let q = split_pieces(s, sep);
        if c == sep {
            assert(q == p.push(Seq::<char>::empty()));
            assert(q.drop_last() =~= p);
            assert(join_pieces(q, sep) =~= s);
            assert forall|k: int, i: int| 0 <= k < q.len() && 0 <= i < q[k].len() implies #[trigger] q[k][i] != sep by {
                assert(q[k] == p[k]);
            }
        } else {
            let n = p.len() - 1;
            assert(q == p.update(n, p.last().push(c)));
            if p.len() == 1 {
                assert(join_pieces(p, sep) == p[0]);
                assert(join_pieces(q, sep) == q[0]);
                assert(join_pieces(q, sep) =~= s);
            } else {
                assert(q.drop_last() =~= p.drop_last());
                let j0 = join_pieces(p.drop_last(), sep);
                assert(join_pieces(p, sep) == j0 + seq![sep] + p.last());
                assert(join_pieces(q, sep) == j0 + seq![sep] + p.last().push(c));
                assert(s =~= d.push(c));
                assert(join_pieces(q, sep) =~= s);
            }
            assert forall|k: int, i: int| 0 <= k < q.len() && 0 <= i < q[k].len() implies #[trigger] q[k][i] != sep by {
                if k < n {
                    assert(q[k] == p[k]);
                } else if i < p[n].len() {
                    assert(q[k][i] == p[n][i]);
                }
            }
        }
    }
}

/// The text covered by a span of character positions.
pub open spec fn span_text(chars: Seq<char>, span: (usize, usize)) -> Seq<char> {
    chars.subrange(span.0 as int, span.1 as int)
}

/// Splits the characters `chars[from..to]` on `sep`, giving the span of each piece.
pub fn split_spans(chars: &Vec<char>, from: usize, to: usize, sep: char) -> (spans: Vec<(usize, usize)>)
    requires
        from <= to <= chars.len(),
    ensures
        spans.len() == split_pieces(chars@.subrange(from as int, to as int), sep).len(),
        forall|k: int|
            0 <= k < spans.len() ==> from <= #[trigger] spans[k].0 <= spans[k].1 <= to,
        forall|k: int|
            0 <= k < spans.len() ==> span_text(chars@, #[trigger] spans[k]) == split_pieces(
                chars@.subrange(from as int, to as int),
                sep,
            )[k],
{
    let ghost whole = chars@.subrange(from as int, to as int);
    let mut spans: Vec<(usize, usize)> = Vec::new();
    let mut start = from;
    proof {
        assert(whole.take(0) =~= Seq::<char>::empty());
        assert(chars@.subrange(from as int, from as int) =~= Seq::<char>::empty());
    }
    let mut i = from;
    while i < to
        invariant
            from <= start <= i <= to <= chars.len(),
            whole == chars@.subrange(from as int, to as int),
            spans.len() + 1 == split_pieces(whole.take(i - from), sep).len(),
            forall|k: int| 0 <= k < spans.len() ==> from <= #[trigger] spans[k].0 <= spans[k].1 <= to,
            forall|k: int|
                0 <= k < spans.len() ==> span_text(chars@, #[trigger] spans[k]) == split_pieces(
                    whole.take(i - from),
                    sep,
                )[k],
            chars@.subrange(start as int, i as int) == split_pieces(whole.take(i - from), sep).last(),
        decreases to - i,
    {
        let ghost pre = whole.take(i - from);
        let ghost post = whole.take(i + 1 - from);
        proof {
            assert(post.drop_last() =~= pre);
            assert(post.last() == chars@[i as int]);
            lemma_split_nonempty(pre, sep);
        }
        if chars[i] == sep {
            spans.push((start, i));
            start = i + 1;
            proof {
                assert(chars@.subrange(start as int, i + 1) =~= Seq::<char>::empty());
            }
        } else {
            proof {
                assert(chars@.subrange(start as int, i + 1) =~= chars@.subrange(start as int, i as int).push(chars@[i as int]));
            }
        }
        i += 1;
    }
    proof {
        assert(whole.take(to - from) =~= whole);
    }
    spans.push((start, to));
    spans
}


pub open spec fn is_digit(c: char) -> bool {
    '0' <= c <= '9'
}

pub open spec fn all_digits(s: Seq<char>) -> bool {
    forall|i: int| 0 <= i < s.len() ==> is_digit(#[trigger] s[i])
}

/// The value of a string of decimal digits.
pub open spec fn digits_value(s: Seq<char>) -> int
    decreases s.len(),
{
    if s.len() == 0 {
        0
    } else {
        digits_value(s.drop_last()) * 10 + (s.last() as int - '0' as int)
    }
}

/// What `str::parse::<i64>` gives: an optional `+` or `-`, then one or more
/// ASCII digits, whose value must fit in an `i64`.
pub open spec fn parse_i64_spec(s: Seq<char>) -> Option<i64> {
    let neg = s.len() > 0 && s[0] == '-';
    let body = if s.len() > 0 && (s[0] == '-' || s[0] == '+') { s.drop_first() } else { s };
    if body.len() == 0 || !all_digits(body) {
        None
    } else {
        let v = if neg { -digits_value(body) } else { digits_value(body) };
        if i64::MIN <= v <= i64::MAX { Some(v as i64) } else { None }
    }
}

proof fn lemma_digits_value_nonneg(s: Seq<char>)
    requires
        all_digits(s),
    ensures
        digits_value(s) >= 0,
    decreases s.len(),
{
    if s.len() > 0 {
        assert(all_digits(s.drop_last()));
        lemma_digits_value_nonneg(s.drop_last());
        assert(is_digit(s[s.len() - 1]));
    }
}

proof fn lemma_digits_value_grows(s: Seq<char>, i: int)
    requires
        all_digits(s),
        0 <= i <= s.len(),
    ensures
        digits_value(s.take(i)) <= digits_value(s),
    decreases s.len() - i,
{
    if i < s.len() {
        lemma_digits_value_grows(s, i + 1);
        assert(s.take(i + 1).drop_last() =~= s.take(i));
        assert(all_digits(s.take(i)));
        lemma_digits_value_nonneg(s.take(i));
        assert(is_digit(s[i]));
    } else {
        assert(s.take(i) =~= s);
    }
}

/// Parses `chars[from..to]` as `str::parse::<i64>` would.
pub fn parse_i64(chars: &Vec<char>, from: usize, to: usize) -> (r: Option<i64>)
    requires
        from <= to <= chars.len(),
    ensures
        r == parse_i64_spec(chars@.subrange(from as int, to as int)),
{
    let ghost s = chars@.subrange(from as int, to as int);
    let mut neg = false;
    let mut start = from;
    if from < to && (chars[from] == '-' || chars[from] == '+') {
        neg = chars[from] == '-';
        start = from + 1;
    }
    let ghost body = chars@.subrange(start as int, to as int);
    proof {
        if from < to && (chars[from as int] == '-' || chars[from as int] == '+') {
            assert(body =~= s.drop_first());
        } else {
            assert(body =~= s);
        }
    }
    if start == to {
        return None;
    }
    let mut acc: i128 = 0;
    let mut i = start;
    proof {
        assert(body.take(0) =~= Seq::<char>::empty());
    }
    while i < to
        invariant
            start <= i <= to <= chars.len(),
            body == chars@.subrange(start as int, to as int),
            s == chars@.subrange(from as int, to as int),
            body == if s.len() > 0 && (s[0] == '-' || s[0] == '+') { s.drop_first() } else { s },
            neg == (s.len() > 0 && s[0] == '-'),
            body.len() > 0,
            all_digits(body.take(i - start)),
            acc == digits_value(body.take(i - start)),
            0 <= acc <= 0x8000_0000_0000_0000,
        decreases to - i,
    {
        let c = chars[i];
        proof {
            assert(body.take(i + 1 - start).drop_last() =~= body.take(i - start));
            assert(body.take(i + 1 - start).last() == c);
        }
        if !('0' <= c && c <= '9') {
            proof {
                assert(body[i - start] == c);
                assert(!all_digits(body));
                assert(parse_i64_spec(s) == None::<i64>);
            }
            return None;
        }
        let d = (c as u32 - '0' as u32) as i128;
        acc = acc * 10 + d;
        i += 1;
        if acc > 0x8000_0000_0000_0000 {
            proof {
                assert(all_digits(body.take(i - start)));
                if all_digits(body) {
                    lemma_digits_value_grows(body, i - start);
                }
                assert(parse_i64_spec(s) == None::<i64>);
            }
            return None;
        }
    }
    proof {
        assert(body.take(to - start) =~= body);
    }
    if neg {
        Some((-acc) as i64)
    } else if acc <= 0x7fff_ffff_ffff_ffff {
        Some(acc as i64)
    } else {
        None
    }
}

/// The character of a decimal digit.
pub open spec fn digit_char(d: int) -> char {
    ('0' as int + d) as char
}

/// Decimal digits of a natural number, most significant first.
pub open spec fn digits_of(n: nat) -> Seq<char>
    decreases n,
{
    if n < 10 {
        seq![digit_char(n as int)]
    } else {
        digits_of(n / 10).push(digit_char((n % 10) as int))
    }
}

/// What `to_string` writes for an integer: a `-` for negative values, then the
/// decimal digits.
pub open spec fn decimal_spec(x: int) -> Seq<char> {
    if x < 0 {
        seq!['-'] + digits_of((-x) as nat)
    } else {
        digits_of(x as nat)
    }
}

/// The one-character text of a decimal digit.
fn digit_text(d: usize) -> (t: &'static str)
    requires
        d < 10,
    ensures
        t@ == seq![digit_char(d as int)],
{
    let digits = "0123456789";
    proof {
        reveal_strlit("0123456789");
        assert(digits@[d as int] == digit_char(d as int));
    }
    let t = digits.substring_char(d, d + 1);
    proof {
        assert(t@ =~= seq![digit_char(d as int)]);
    }
    t
}


/// The decimal text of `x`, as `x.to_string()` writes it.
pub fn decimal_string(x: i64) -> (s: String)
    ensures
        s@ == decimal_spec(x as int),
{
    let mut m: u64 = if x < 0 { (-(x as i128)) as u64 } else { x as u64 };
    let ghost mag: nat = if x < 0 { (-(x as int)) as nat } else { x as nat };
    // digits from least significant to most
    let mut rev: Vec<usize> = Vec::new();
    let ghost mut tail: Seq<char> = Seq::empty();
    while m >= 10
        invariant
            digits_of(mag) == digits_of(m as nat) + tail,
            rev.len() == tail.len(),
            forall|i: int| 0 <= i < rev.len() ==> rev[i] < 10,
            forall|i: int| 0 <= i < rev.len() ==> tail[tail.len() - 1 - i] == digit_char(rev[i] as int),
        decreases m,
    {
        let d = (m % 10) as usize;
        proof {
            assert(digits_of(m as nat) == digits_of((m / 10) as nat).push(digit_char(d as int)));
            assert(digits_of((m / 10) as nat).push(digit_char(d as int)) + tail =~= digits_of(
                (m / 10) as nat,
            ) + (seq![digit_char(d as int)] + tail));
        }
        rev.push(d);
        proof {
            tail = seq![digit_char(d as int)] + tail;
        }
        m = m / 10;
    }
    rev.push(m as usize);
    proof {
        tail = seq![digit_char(m as int)] + tail;
        assert(digits_of(mag) =~= tail);
    }
    let mut s = String::new();
    if x < 0 {
        let minus = "-";
        proof {
            reveal_strlit("-");
        }
        s.append(minus);
    }
    let ghost head: Seq<char> = if x < 0 { seq!['-'] } else { Seq::empty() };
    proof {
        assert(s@ =~= head + tail.take(0));
    }
    let n = rev.len();
    let mut k: usize = 0;
    while k < n
        invariant
            n == rev.len(),
            n == tail.len(),
            k <= n,
            forall|i: int| 0 <= i < rev.len() ==> rev[i] < 10,
            forall|i: int| 0 <= i < rev.len() ==> tail[tail.len() - 1 - i] == digit_char(rev[i] as int),
            s@ == head + tail.take(k as int),
        decreases n - k,
    {
        let piece = digit_text(rev[n - 1 - k]);
        s.append(piece);
        proof {
            assert(tail[k as int] == digit_char(rev[n - 1 - k] as int));
            assert(head + tail.take(k + 1) =~= head + tail.take(k as int) + seq![tail[k as int]]);
        }
        k += 1;
    }
    proof {
        assert(tail.take(n as int) =~= tail);
    }
    s
}


proof fn lemma_digits_of(n: nat)
    ensures
        digits_of(n).len() >= 1,
        all_digits(digits_of(n)),
        digits_value(digits_of(n)) == n,
    decreases n,
{
    if n < 10 {
        let s = digits_of(n);
        assert(s.drop_last() =~= Seq::<char>::empty());
        assert(digit_char(n as int) as int == '0' as int + n);
        assert(digits_value(s) == digits_value(s.drop_last()) * 10 + (s.last() as int - '0' as int));
    } else {
        lemma_digits_of(n / 10);
        let s = digits_of(n);
        let d = (n % 10) as int;
        assert(s.drop_last() =~= digits_of(n / 10));
        assert(digit_char(d) as int == '0' as int + d);
        assert(digits_value(s) == digits_value(s.drop_last()) * 10 + (s.last() as int - '0' as int));
        assert((n / 10) * 10 + d == n);
    }
}

/// The decimal text of an `i64` reads back as that `i64`: what `decimal_string`
/// writes, `parse_i64` reads back unchanged.
pub proof fn lemma_decimal_parses_back(x: i64)
    ensures
        parse_i64_spec(decimal_spec(x as int)) == Some(x),
{
    let s = decimal_spec(x as int);
    if x < 0 {
        let m = (-(x as int)) as nat;
        lemma_digits_of(m);
        assert(s.drop_first() =~= digits_of(m));
        assert(s[0] == '-');
    } else {
        lemma_digits_of(x as nat);
        assert(is_digit(s[0]));
    }
}

} // verus!
