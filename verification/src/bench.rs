use vstd::prelude::*;

verus! {

/// The character of the decimal digit `d`.
pub open spec fn digit_char(d: nat) -> char {
    (d + 48) as char
}

/// The decimal representation of `n`, most significant digit first.
pub open spec fn decimal(n: nat) -> Seq<char>
    decreases n,
{
    if n < 10 {
        seq![digit_char(n)]
    } else {
        decimal(n / 10).push(digit_char(n % 10))
    }
}

/// `s` with a comma before each group of three characters counted from the
/// right, the leftmost group excepted.
pub open spec fn group_thousands(s: Seq<char>) -> Seq<char>
    decreases s.len(),
{
    if s.len() <= 3 {
        s
    } else {
        group_thousands(s.take(s.len() - 3)) + seq![','] + s.skip(s.len() - 3)
    }
}

/// `c` is one of the characters '0' to '9'.
pub open spec fn is_digit(c: char) -> bool {
    '0' <= c && c <= '9'
}

/// The number that the decimal digit string `s` denotes.
pub open spec fn digits_value(s: Seq<char>) -> nat
    decreases s.len(),
{
    if s.len() == 0 {
        0
    } else {
        digits_value(s.drop_last()) * 10 + (s.last() as int - '0' as int) as nat
    }
}

/// `s` with every comma taken out.
pub open spec fn strip_commas(s: Seq<char>) -> Seq<char>
    decreases s.len(),
{
    if s.len() == 0 {
        s
    } else if s.last() == ',' {
        strip_commas(s.drop_last())
    } else {
        strip_commas(s.drop_last()).push(s.last())
    }
}

/// The decimal representation of `n` is a non-empty string of digits,
/// without a leading zero unless `n` is 0, that denotes `n`.
pub proof fn lemma_decimal_denotes(n: nat)
    ensures
        decimal(n).len() > 0,
        forall|i: int| 0 <= i < decimal(n).len() ==> is_digit(#[trigger] decimal(n)[i]),
        digits_value(decimal(n)) == n,
        decimal(n)[0] == '0' ==> n == 0,
    decreases n,
{
    assert(digit_char(n % 10) as int == n % 10 + 48);
    if n < 10 {
        assert(decimal(n).drop_last() =~= Seq::<char>::empty());
        assert(digits_value(Seq::<char>::empty()) == 0);
    } else {
        lemma_decimal_denotes(n / 10);
        let d = decimal(n);
        assert(d.drop_last() =~= decimal(n / 10));
        assert(d.last() == digit_char(n % 10));
        assert(digits_value(d) == digits_value(decimal(n / 10)) * 10 + n % 10);
        assert(d[0] == decimal(n / 10)[0]);
    }
}

proof fn lemma_strip_commas_concat(a: Seq<char>, b: Seq<char>)
    ensures
        strip_commas(a + b) == strip_commas(a) + strip_commas(b),
    decreases b.len(),
{
    if b.len() == 0 {
        assert(a + b =~= a);
        assert(strip_commas(a) + strip_commas(b) =~= strip_commas(a));
    } else {
        lemma_strip_commas_concat(a, b.drop_last());
        assert((a + b).drop_last() =~= a + b.drop_last());
        assert((a + b).last() == b.last());
        if b.last() != ',' {
            assert(strip_commas(a) + strip_commas(b.drop_last()).push(b.last()) =~= (strip_commas(a)
                + strip_commas(b.drop_last())).push(b.last()));
        }
    }
}

proof fn lemma_strip_commas_of_digits(s: Seq<char>)
    requires
        forall|i: int| 0 <= i < s.len() ==> is_digit(#[trigger] s[i]),
    ensures
        strip_commas(s) == s,
    decreases s.len(),
{
    if s.len() > 0 {
        let init = s.drop_last();
        assert forall|i: int| 0 <= i < init.len() implies is_digit(#[trigger] init[i]) by {
            assert(init[i] == s[i]);
        }
        lemma_strip_commas_of_digits(init);
        assert(is_digit(s[s.len() - 1]));
        assert(init.push(s.last()) =~= s);
    }
}

/// Grouping the digits of a number into thousands only inserts commas:
/// taking them out again gives the digits back.
pub proof fn lemma_grouping_inserts_only_commas(s: Seq<char>)
    requires
        forall|i: int| 0 <= i < s.len() ==> is_digit(#[trigger] s[i]),
    ensures
        strip_commas(group_thousands(s)) == s,
    decreases s.len(),
{
    if s.len() <= 3 {
        lemma_strip_commas_of_digits(s);
    } else {
        let m = s.len() - 3;
        let head = s.take(m);
        let tail = s.skip(m);
        assert forall|i: int| 0 <= i < head.len() implies is_digit(#[trigger] head[i]) by {
            assert(head[i] == s[i]);
        }
        assert forall|i: int| 0 <= i < tail.len() implies is_digit(#[trigger] tail[i]) by {
            assert(tail[i] == s[m + i]);
        }
        lemma_grouping_inserts_only_commas(head);
        lemma_strip_commas_of_digits(tail);
        lemma_strip_commas_concat(group_thousands(head) + seq![','], tail);
        lemma_strip_commas_concat(group_thousands(head), seq![',']);
        assert(seq![','].drop_last() =~= Seq::<char>::empty());
        assert(seq![','].last() == ',');
        assert(strip_commas(Seq::<char>::empty()) =~= Seq::<char>::empty());
        assert(strip_commas(seq![',']) =~= Seq::<char>::empty());
        assert(head + tail =~= s);
    }
}

/// The comma-grouped form of `n`: a string that, with its commas taken
/// out, is a string of digits without a leading zero (unless `n` is 0)
/// denoting `n`.
pub proof fn lemma_grouped_decimal_denotes(n: nat)
    ensures
        strip_commas(group_thousands(decimal(n))) == decimal(n),
        digits_value(strip_commas(group_thousands(decimal(n)))) == n,
        forall|i: int|
            0 <= i < decimal(n).len() ==> is_digit(#[trigger] strip_commas(group_thousands(decimal(n)))[i]),
        strip_commas(group_thousands(decimal(n)))[0] == '0' ==> n == 0,
{
    lemma_decimal_denotes(n);
    lemma_grouping_inserts_only_commas(decimal(n));
}

/// Appends `c` to `s` (`String::push`).
#[verifier::external_body]
fn push_char(s: &mut String, c: char)
    ensures
        final(s)@ == old(s)@.push(c),
{
    s.push(c);
}

/// The first `k` characters of `s` as the comma grouping emits them, left
/// to right.
spec fn grouped_prefix(s: Seq<char>, k: int) -> Seq<char>
    decreases k,
{
    if k <= 0 {
        Seq::empty()
    } else {
        let sep = if k - 1 > 0 && (s.len() - (k - 1)) % 3 == 0 {
            seq![',']
        } else {
            Seq::empty()
        };
        grouped_prefix(s, k - 1) + sep + seq![s[k - 1]]
    }
}

proof fn lemma_grouped_prefix_of_take(s: Seq<char>, m: int, k: int)
    requires
        0 <= k <= m <= s.len(),
        (s.len() - m) % 3 == 0,
    ensures
        grouped_prefix(s, k) == grouped_prefix(s.take(m), k),
    decreases k,
{
    if k > 0 {
        lemma_grouped_prefix_of_take(s, m, k - 1);
        assert(s.take(m)[k - 1] == s[k - 1]);
    }
}

proof fn lemma_grouped_prefix_short(s: Seq<char>, k: int)
    requires
        0 <= k <= s.len() <= 3,
    ensures
        grouped_prefix(s, k) == s.take(k),
    decreases k,
{
    if k > 0 {
        lemma_grouped_prefix_short(s, k - 1);
        assert(s.take(k - 1).push(s[k - 1]) =~= s.take(k));
        assert(s.take(k - 1) + Seq::<char>::empty() + seq![s[k - 1]] =~= s.take(k));
    } else {
        assert(s.take(0) =~= Seq::<char>::empty());
    }
}

proof fn lemma_grouped_prefix_whole(s: Seq<char>)
    ensures
        grouped_prefix(s, s.len() as int) == group_thousands(s),
    decreases s.len(),
{
    let n = s.len() as int;
    if n <= 3 {
        lemma_grouped_prefix_short(s, n);
        assert(s.take(n) =~= s);
    } else {
        let m = n - 3;
        let t = s.take(m);
        lemma_grouped_prefix_of_take(s, m, m);
        lemma_grouped_prefix_whole(t);
        assert(t.len() == m);
        let g = grouped_prefix(s, m);
        assert(grouped_prefix(s, m + 1) == g + seq![','] + seq![s[m]]);
        assert(grouped_prefix(s, m + 2) == grouped_prefix(s, m + 1) + Seq::<char>::empty() + seq![
            s[m + 1],
        ]);
        assert(grouped_prefix(s, m + 3) == grouped_prefix(s, m + 2) + Seq::<char>::empty() + seq![
            s[m + 2],
        ]);
        assert(s.skip(m) =~= seq![s[m], s[m + 1], s[m + 2]]);
        assert(grouped_prefix(s, n) =~= g + seq![','] + s.skip(m));
    }
}

/// The decimal digits of `n`, most significant first.
fn decimal_digits(n: u64) -> (digits: Vec<char>)
    ensures
        digits@ == decimal(n as nat),
    decreases n,
{
    let d = ((n % 10) as u8 + 48) as char;
    if n < 10 {
        let mut digits = Vec::new();
        digits.push(d);
        assert(digits@ =~= decimal(n as nat));
        digits
    } else {
        let mut digits = decimal_digits(n / 10);
        digits.push(d);
        digits
    }
}

/// Format an integer with comma thousands separators ("12,550,343").
pub fn fmt_commas(n: u64) -> (out: String)
    ensures
        out@ == group_thousands(decimal(n as nat)),
        digits_value(strip_commas(out@)) == n,
        forall|i: int| 0 <= i < strip_commas(out@).len() ==> is_digit(#[trigger] strip_commas(out@)[i]),
        strip_commas(out@).len() > 0,
        strip_commas(out@)[0] == '0' ==> n == 0,
{
    let s = decimal_digits(n);
    let len = s.len();
    let mut out = String::new();
    let mut i: usize = 0;
    while i < len
        invariant
            len == s@.len(),
            i <= len,
            out@ == grouped_prefix(s@, i as int),
        decreases len - i,
    {
        if i > 0 && (len - i) % 3 == 0 {
            push_char(&mut out, ',');
        }
        push_char(&mut out, s[i]);
        i = i + 1;
        proof {
            let k = i as int;
            let sep = if k - 1 > 0 && (s@.len() - (k - 1)) % 3 == 0 {
                seq![',']
            } else {
                Seq::<char>::empty()
            };
            assert(grouped_prefix(s@, k) == grouped_prefix(s@, k - 1) + sep + seq![s@[k - 1]]);
        }
    }
    proof {
        lemma_grouped_prefix_whole(s@);
        lemma_grouped_decimal_denotes(n as nat);
        lemma_decimal_denotes(n as nat);
    }
    out
}

/// The two digits of `d` (below 100), tens first.
pub open spec fn two_digits(d: nat) -> Seq<char> {
    seq![digit_char(d / 10), digit_char(d % 10)]
}

/// Format a value given as whole units and hundredths with comma thousands
/// separators and exactly two decimal places: (1045861, 89) gives
/// "1,045,861.89", and (1, 100) gives "2.00", whole hundreds of hundredths
/// being carried into the whole units.
pub fn fmt_fixed2(whole: u64, hundredths: u64) -> (out: String)
    requires
        whole + hundredths / 100 <= u64::MAX,
    ensures
        out@ == group_thousands(decimal((whole + hundredths / 100) as nat)) + seq!['.']
            + two_digits((hundredths % 100) as nat),
        out@.len() >= 4,
        out@[out@.len() - 3] == '.',
        is_digit(out@[out@.len() - 2]) && is_digit(out@[out@.len() - 1]),
        digits_value(out@.skip(out@.len() - 2)) == hundredths % 100,
        digits_value(strip_commas(out@.take(out@.len() - 3))) == whole + hundredths / 100,
{
    let units = whole + hundredths / 100;
    let rest = hundredths % 100;
    let mut out = fmt_commas(units);
    push_char(&mut out, '.');
    push_char(&mut out, ((rest / 10) as u8 + 48) as char);
    push_char(&mut out, ((rest % 10) as u8 + 48) as char);
    assert(out@ =~= group_thousands(decimal(units as nat)) + seq!['.'] + two_digits(rest as nat));
    proof {
        let g = group_thousands(decimal(units as nat));
        let t = two_digits(rest as nat);
        lemma_grouped_decimal_denotes(units as nat);
        lemma_decimal_denotes(units as nat);
        assert(out@.take(out@.len() - 3) =~= g);
        assert(out@.skip(out@.len() - 2) =~= t);
        assert(digit_char(rest as nat / 10) as int == rest / 10 + 48);
        assert(digit_char(rest as nat % 10) as int == rest % 10 + 48);
        assert(t.drop_last() =~= seq![digit_char(rest as nat / 10)]);
        assert(t.drop_last().drop_last() =~= Seq::<char>::empty());
        assert(digits_value(Seq::<char>::empty()) == 0);
        assert(digits_value(t.drop_last()) == rest / 10);
    }
    out
}

/// `s` is in ascending order.
pub open spec fn is_ascending(s: Seq<u64>) -> bool {
    forall|i: int, j: int| 0 <= i <= j < s.len() ==> s[i] <= s[j]
}

/// Sorts `v` in ascending order (`slice::sort_unstable`).
#[verifier::external_body]
fn sort_ascending(v: &mut Vec<u64>)
    ensures
        is_ascending(final(v)@),
        final(v)@.to_multiset() == old(v)@.to_multiset(),
{
    v.sort_unstable();
}

/// Latency figures of a round-trip benchmark, in nanoseconds.
pub struct LatencySummary {
    /// The 99.9th percentile latency.
    pub p999_ns: u64,
    /// Peak-to-peak spread: slowest minus fastest sample.
    pub jitter_ns: u64,
}

/// Position of the 99.9th percentile in `n` sorted samples: the floor of
/// `0.999 * n`, capped at the last sample.
pub open spec fn p999_index(n: nat) -> int {
    let i = (999 * n) / 1000;
    if i < n { i as int } else { n - 1 }
}

/// Sort the latency samples in place and read off the 99.9th percentile and
/// the jitter.
pub fn latency_summary(latencies: &mut Vec<u64>) -> (summary: LatencySummary)
    requires
        old(latencies)@.len() > 0,
    ensures
        is_ascending(final(latencies)@),
        final(latencies)@.to_multiset() == old(latencies)@.to_multiset(),
        summary.p999_ns == final(latencies)@[p999_index(old(latencies)@.len())],
        summary.jitter_ns == final(latencies)@.last() - final(latencies)@[0],
{
    sort_ascending(latencies);
    proof {
        old(latencies)@.to_multiset_ensures();
        latencies@.to_multiset_ensures();
    }
    let n = latencies.len();
    let idx = n - ((n - 1) / 1000 + 1);
    assert(idx == p999_index(n as nat));
    let p999_ns = latencies[idx];
    let jitter_ns = latencies[n - 1] - latencies[0];
    LatencySummary { p999_ns, jitter_ns }
}

} // verus!
