//! A per-connection price history: clients insert timestamped prices and
//! ask for the mean price over a closed range of timestamps.
//!
//! Each message is nine bytes: a kind byte (`I` insert, `Q` query) followed
//! by two big-endian signed 32-bit integers.

use vstd::prelude::*;
use std::collections::BTreeMap;
use vstd::std_specs::iter::IteratorSpec;
use vstd::std_specs::btree::{key_obeys_cmp_spec, spec_btree_map_iter, spec_btree_map_len};

verus! {

broadcast use vstd::std_specs::btree::group_btree_axioms;

/// The signed 32-bit integer whose big-endian two's-complement bytes are
/// `b0 b1 b2 b3`.
pub open spec fn be_i32(b0: u8, b1: u8, b2: u8, b3: u8) -> int {
    let u = b0 * 0x100_0000 + b1 * 0x1_0000 + b2 * 0x100 + b3;
    if u >= 0x8000_0000 {
        u - 0x1_0000_0000
    } else {
        u
    }
}

/// Reads the big-endian signed 32-bit integer at `at`.
fn read_i32_be(bytes: &[u8; 9], at: usize) -> (r: i32)
    requires
        at + 4 <= 9,
    ensures
        r == be_i32(bytes@[at as int], bytes@[at + 1], bytes@[at + 2], bytes@[at + 3]),
{
    let u: u32 = (bytes[at] as u32) * 0x100_0000 + (bytes[at + 1] as u32) * 0x1_0000 + (
    bytes[at + 2] as u32) * 0x100 + (bytes[at + 3] as u32);
    if u >= 0x8000_0000 {
        let low: i32 = (u - 0x8000_0000) as i32;
        low - 0x7fff_ffff - 1
    } else {
        u as i32
    }
}

/// One decoded message.
pub struct Instruction {
    pub kind: u8,
    pub timestamp_first: i32,
    pub price_last: i32,
}

impl vstd::std_specs::convert::FromSpecImpl<&[u8; 9]> for Instruction {
    open spec fn obeys_from_spec() -> bool {
        true
    }

    open spec fn from_spec(value: &[u8; 9]) -> Instruction {
        Instruction {
            kind: value@[0],
            timestamp_first: be_i32(value@[1], value@[2], value@[3], value@[4]) as i32,
            price_last: be_i32(value@[5], value@[6], value@[7], value@[8]) as i32,
        }
    }
}

impl From<&[u8; 9]> for Instruction {
    /// Decodes a nine-byte message.
    fn from(value: &[u8; 9]) -> (r: Instruction) {
        Instruction {
            kind: value[0],
            timestamp_first: read_i32_be(value, 1),
            price_last: read_i32_be(value, 5),
        }
    }
}

/// Sum of the prices stored at timestamps `lo..=hi`.
pub open spec fn price_sum(m: Map<i32, i32>, lo: int, hi: int) -> int
    decreases hi + 1 - lo,
{
    if hi < lo {
        0
    } else {
        price_sum(m, lo, hi - 1) + if m.contains_key(hi as i32) {
            m[hi as i32] as int
        } else {
            0
        }
    }
}

/// Number of prices stored at timestamps `lo..=hi`.
pub open spec fn price_count(m: Map<i32, i32>, lo: int, hi: int) -> int
    decreases hi + 1 - lo,
{
    if hi < lo {
        0
    } else {
        price_count(m, lo, hi - 1) + if m.contains_key(hi as i32) {
            1int
        } else {
            0
        }
    }
}

/// Integer division rounding toward zero, as Rust's `/` on signed integers.
pub open spec fn div_toward_zero(a: int, b: int) -> int {
    if a >= 0 {
        a / b
    } else {
        -((-a) / b)
    }
}

/// The answer to a query: the mean of the prices stored at timestamps
/// `min..=max`, rounded toward zero; 0 when the range is empty or holds no
/// price, or when the prices in it sum to 0.
pub open spec fn mean_price_spec(m: Map<i32, i32>, min: int, max: int) -> int {
    if min > max {
        0
    } else {
        let sum = price_sum(m, min, max);
        if sum == 0 {
            0
        } else {
            div_toward_zero(sum, price_count(m, min, max))
        }
    }
}

/// Contribution of one stored entry to the sum over `lo..=hi`.
pub open spec fn entry_price(e: (i32, i32), lo: int, hi: int) -> int {
    if lo <= e.0 <= hi {
        e.1 as int
    } else {
        0
    }
}

/// Contribution of one stored entry to the count over `lo..=hi`.
pub open spec fn entry_count(e: (i32, i32), lo: int, hi: int) -> int {
    if lo <= e.0 <= hi {
        1
    } else {
        0
    }
}

/// The entries an iteration over a `BTreeMap` yields, dereferenced.
pub open spec fn entries_of(s: Seq<(&i32, &i32)>) -> Seq<(i32, i32)> {
    s.map_values(|e: (&i32, &i32)| (*e.0, *e.1))
}

/// Sum over a sequence of entries of the prices stamped within `lo..=hi`.
pub open spec fn entries_sum(s: Seq<(i32, i32)>, lo: int, hi: int) -> int
    decreases s.len(),
{
    if s.len() == 0 {
        0
    } else {
        entries_sum(s.drop_last(), lo, hi) + entry_price(s.last(), lo, hi)
    }
}

/// Number of entries of a sequence stamped within `lo..=hi`.
pub open spec fn entries_count(s: Seq<(i32, i32)>, lo: int, hi: int) -> int
    decreases s.len(),
{
    if s.len() == 0 {
        0
    } else {
        entries_count(s.drop_last(), lo, hi) + entry_count(s.last(), lo, hi)
    }
}

/// `s` lists the entries of `m`, each key once.
pub open spec fn lists_entries(s: Seq<(i32, i32)>, m: Map<i32, i32>) -> bool {
    &&& forall|i: int, j: int| 0 <= i < j < s.len() ==> s[i].0 != s[j].0
    &&& forall|i: int| 0 <= i < s.len() ==> m.contains_key(#[trigger] s[i].0) && m[s[i].0] == s[i].1
    &&& forall|k: i32| m.contains_key(k) ==> exists|i: int| 0 <= i < s.len() && #[trigger] s[i].0 == k
}

/// Removing a key takes its price (if in range) out of the sum and count.
proof fn lemma_remove_key(m: Map<i32, i32>, k: i32, lo: int, hi: int)
    requires
        m.contains_key(k),
        i32::MIN <= lo,
        hi <= i32::MAX,
    ensures
        price_sum(m, lo, hi) == price_sum(m.remove(k), lo, hi) + entry_price((k, m[k]), lo, hi),
        price_count(m, lo, hi) == price_count(m.remove(k), lo, hi) + entry_count((k, m[k]), lo, hi),
    decreases hi + 1 - lo,
{
    if hi >= lo {
        lemma_remove_key(m, k, lo, hi - 1);
        assert((hi as i32) as int == hi);
    }
}

/// Summing the listed entries of a map is summing the map over the range.
proof fn lemma_entries_total(s: Seq<(i32, i32)>, m: Map<i32, i32>, lo: int, hi: int)
    requires
        lists_entries(s, m),
        i32::MIN <= lo,
        hi <= i32::MAX,
    ensures
        entries_sum(s, lo, hi) == price_sum(m, lo, hi),
        entries_count(s, lo, hi) == price_count(m, lo, hi),
    decreases s.len(),
{
    if s.len() == 0 {
        lemma_empty_total(m, lo, hi);
    } else {
        let e = s.last();
        let t = s.drop_last();
        let m2 = m.remove(e.0);
        assert(m.contains_key(e.0) && m[e.0] == e.1);
        assert forall|k: i32| m2.contains_key(k) implies exists|i: int|
            0 <= i < t.len() && #[trigger] t[i].0 == k by {
            let i = choose|i: int| 0 <= i < s.len() && #[trigger] s[i].0 == k;
            assert(i != s.len() - 1);
            assert(t[i].0 == k);
        }
        assert forall|i: int| 0 <= i < t.len() implies m2.contains_key(#[trigger] t[i].0) && m2[t[i].0]
            == t[i].1 by {
            assert(s[i].0 != s[s.len() - 1].0);
            assert(t[i] == s[i]);
        }
        assert forall|i: int, j: int| 0 <= i < j < t.len() implies t[i].0 != t[j].0 by {
            assert(t[i] == s[i] && t[j] == s[j]);
        }
        lemma_entries_total(t, m2, lo, hi);
        lemma_remove_key(m, e.0, lo, hi);
    }
}

/// An empty map sums to zero.
proof fn lemma_empty_total(m: Map<i32, i32>, lo: int, hi: int)
    requires
        lists_entries(Seq::empty(), m),
    ensures
        price_sum(m, lo, hi) == 0,
        price_count(m, lo, hi) == 0,
    decreases hi + 1 - lo,
{
    if hi >= lo {
        lemma_empty_total(m, lo, hi - 1);
        if m.contains_key(hi as i32) {
            let k = hi as i32;
            assert(exists|i: int| 0 <= i < 0 && #[trigger] Seq::<(i32, i32)>::empty()[i].0 == k);
        }
    }
}

/// A sum of `count` prices, divided by `count` toward zero, is itself a
/// price.
proof fn lemma_quotient_bounds(sum: int, count: int)
    requires
        count > 0,
        -count * 0x8000_0000 <= sum <= count * 0x7fff_ffff,
    ensures
        i32::MIN <= div_toward_zero(sum, count) <= i32::MAX,
{
    if sum >= 0 {
        assert(sum / count <= 0x7fff_ffff) by (nonlinear_arith)
            requires
                count > 0,
                0 <= sum <= count * 0x7fff_ffff,
        ;
        assert(sum / count >= 0) by (nonlinear_arith)
            requires
                count > 0,
                0 <= sum,
        ;
    } else {
        assert((-sum) / count <= 0x8000_0000) by (nonlinear_arith)
            requires
                count > 0,
                0 <= -sum <= count * 0x8000_0000,
        ;
        assert((-sum) / count >= 0) by (nonlinear_arith)
            requires
                count > 0,
                0 <= -sum,
        ;
    }
}

/// A map held in a `BTreeMap` has at most `usize::MAX` entries, and its
/// `i32` keys are ordered as the integers are.
proof fn lemma_len_fits(prices: &BTreeMap<i32, i32>)
    ensures
        prices@.len() <= usize::MAX,
        key_obeys_cmp_spec::<i32>(),
{
    assert(key_obeys_cmp_spec::<i32>());
    assert(spec_btree_map_len(prices) == prices@.len());
}

/// Iterating over a `BTreeMap` lists its entries, each key once.
proof fn lemma_iteration_lists_entries(prices: &BTreeMap<i32, i32>)
    requires
        key_obeys_cmp_spec::<i32>(),
        spec_btree_map_iter(prices).remaining().no_duplicates(),
    ensures
        lists_entries(entries_of(spec_btree_map_iter(prices).remaining()), prices@),
{
    let v = spec_btree_map_iter(prices).remaining();
    let e = entries_of(v);
    assert forall|i: int| 0 <= i < e.len() implies prices@.contains_key(#[trigger] e[i].0)
        && prices@[e[i].0] == e[i].1 by {
        assert(prices@.contains_key(*v[i].0));
    }
    assert forall|k: i32| prices@.contains_key(k) implies exists|i: int|
        0 <= i < e.len() && #[trigger] e[i].0 == k by {
        assert(v.contains((&k, &prices@[k])));
        let i = choose|i: int| 0 <= i < v.len() && v[i] == (&k, &prices@[k]);
        assert(e[i].0 == k);
    }
    assert forall|i: int, j: int| 0 <= i < j < e.len() implies e[i].0 != e[j].0 by {
        if e[i].0 == e[j].0 {
            assert(prices@.contains_key(*v[i].0));
            assert(prices@.contains_key(*v[j].0));
            assert(v[i] == v[j]);
        }
    }
}

/// The mean price of the entries of `prices` stamped within `min..=max`,
/// rounded toward zero, or 0 when there is none or they sum to 0.
pub fn mean_price(prices: &BTreeMap<i32, i32>, min: i32, max: i32) -> (r: i32)
    ensures
        r == mean_price_spec(prices@, min as int, max as int),
{
    if min > max {
        return 0;
    }
    let mut count: usize = 0;
    let mut sum: i128 = 0;
    proof {
        lemma_len_fits(prices);
    }
    let ghost all = spec_btree_map_iter(prices).remaining();
    let ghost mut seen: int = 0;
    let entries = prices.iter();
    proof {
        lemma_iteration_lists_entries(prices);
    }
    for entry in it: entries
        invariant
            count <= it.index(),
            it.seq().len() == prices@.len(),
            prices@.len() <= usize::MAX,
            it.seq() == all,
            seen == it.index(),
            sum == entries_sum(entries_of(it.seq().take(it.index())), min as int, max as int),
            count == entries_count(entries_of(it.seq().take(it.index())), min as int, max as int),
            -(count as int) * 0x8000_0000 <= sum <= (count as int) * 0x7fff_ffff,
    {
        let ghost idx = it.index();
        let ghost prefix = entries_of(it.seq().take(idx));
        let (k, v) = entry;
        if min <= *k && *k <= max {
            count = count + 1;
            sum = sum + (*v as i128);
        }
        proof {
            let next = entries_of(it.seq().take(idx + 1));
            assert(next.drop_last() =~= prefix);
            assert(next.last() == (*k, *v));
            seen = seen + 1;
        }
    }
    proof {
        assert(all.take(seen) =~= all);
        lemma_entries_total(entries_of(all), prices@, min as int, max as int);
    }
    if sum == 0 {
        return 0;
    }
    let c = count as i128;
    let q: i128 = if sum >= 0 {
        sum / c
    } else {
        -((-sum) / c)
    };
    proof {
        lemma_quotient_bounds(sum as int, count as int);
    }
    q as i32
}

/// What the server does after one message.
pub enum Action {
    /// Nothing to send.
    Nothing,
    /// Send this mean price back.
    Reply(i32),
    /// The message is of an unknown kind: close the connection.
    Close,
}

/// Applies one message to the connection's price history: `I` inserts (or
/// replaces) the price at a timestamp, `Q` asks for the mean price over
/// `timestamp_first..=price_last`, anything else ends the session.
pub fn handle_instruction(prices: &mut BTreeMap<i32, i32>, ins: &Instruction) -> (a: Action)
    ensures
        ins.kind == 0x49 ==> final(prices)@ == old(prices)@.insert(ins.timestamp_first, ins.price_last)
            && a is Nothing,
        ins.kind == 0x51 ==> final(prices)@ == old(prices)@ && a == Action::Reply(
            mean_price_spec(old(prices)@, ins.timestamp_first as int, ins.price_last as int) as i32,
        ),
        ins.kind != 0x49 && ins.kind != 0x51 ==> final(prices)@ == old(prices)@ && a is Close,
{
    proof {
        lemma_len_fits(prices);
    }
    if ins.kind == 0x49 {
        prices.insert(ins.timestamp_first, ins.price_last);
        Action::Nothing
    } else if ins.kind == 0x51 {
        Action::Reply(mean_price(prices, ins.timestamp_first, ins.price_last))
    } else {
        Action::Close
    }
}

/// Storing a price at a timestamp outside `min..=max` does not change the
/// answer to a query over `min..=max`.
pub proof fn lemma_insert_outside_range_keeps_mean(
    m: Map<i32, i32>,
    t: i32,
    price: i32,
    min: i32,
    max: i32,
)
    requires
        t < min || max < t,
    ensures
        mean_price_spec(m.insert(t, price), min as int, max as int) == mean_price_spec(
            m,
            min as int,
            max as int,
        ),
{
    lemma_insert_outside_range_keeps_totals(m, t, price, min as int, max as int);
}

/// Sum and count over `lo..=hi` ignore entries stamped outside it.
proof fn lemma_insert_outside_range_keeps_totals(m: Map<i32, i32>, t: i32, price: i32, lo: int, hi: int)
    requires
        t < lo || hi < t,
        i32::MIN <= lo,
        hi <= i32::MAX,
    ensures
        price_sum(m.insert(t, price), lo, hi) == price_sum(m, lo, hi),
        price_count(m.insert(t, price), lo, hi) == price_count(m, lo, hi),
    decreases hi + 1 - lo,
{
    if hi >= lo {
        lemma_insert_outside_range_keeps_totals(m, t, price, lo, hi - 1);
        assert((hi as i32) as int == hi);
        assert(hi as i32 != t);
    }
}

/// A lone price is its own mean: the query answers it when its timestamp
/// lies in the range, and 0 otherwise.
pub proof fn lemma_lone_price_mean(t: i32, price: i32, min: i32, max: i32)
    ensures
        mean_price_spec(Map::empty().insert(t, price), min as int, max as int) == if min <= t <= max {
            price as int
        } else {
            0
        },
{
    let m = Map::<i32, i32>::empty().insert(t, price);
    if min <= max {
        lemma_lone_totals(t, price, min as int, max as int);
        if min <= t <= max && price != 0 {
            assert(div_toward_zero(price as int, 1) == price as int);
        }
    }
}

/// Sum and count over `lo..=hi` of a map holding one entry.
proof fn lemma_lone_totals(t: i32, price: i32, lo: int, hi: int)
    requires
        i32::MIN <= lo,
        hi <= i32::MAX,
    ensures
        price_sum(Map::empty().insert(t, price), lo, hi) == if lo <= t <= hi {
            price as int
        } else {
            0
        },
        price_count(Map::empty().insert(t, price), lo, hi) == if lo <= t <= hi {
            1int
        } else {
            0
        },
    decreases hi + 1 - lo,
{
    if hi >= lo {
        lemma_lone_totals(t, price, lo, hi - 1);
        assert((hi as i32) as int == hi);
    }
}

/// A mean lies within the prices it is taken over: when every price stored
/// at a timestamp in `min..=max` lies in `low..=high` and there is at least
/// one, the answer lies in `low..=high` too.
pub proof fn lemma_mean_within_prices(m: Map<i32, i32>, min: i32, max: i32, low: int, high: int)
    requires
        price_count(m, min as int, max as int) > 0,
        forall|t: i32| min <= t <= max && #[trigger] m.contains_key(t) ==> low <= m[t] <= high,
    ensures
        low <= mean_price_spec(m, min as int, max as int) <= high,
{
    lemma_totals_within(m, min as int, max as int, low, high);
    let sum = price_sum(m, min as int, max as int);
    let count = price_count(m, min as int, max as int);
    if min > max {
        assert(count == 0);
    }
    if sum >= 0 {
        assert(low <= sum / count <= high) by (nonlinear_arith)
            requires
                count > 0,
                0 <= sum,
                count * low <= sum <= count * high,
        ;
    } else {
        assert(-high <= (-sum) / count <= -low) by (nonlinear_arith)
            requires
                count > 0,
                sum < 0,
                count * low <= sum <= count * high,
        ;
    }
}

/// Sum and count over `lo..=hi` when every price there lies in
/// `low..=high`: the sum lies between `count * low` and `count * high`.
proof fn lemma_totals_within(m: Map<i32, i32>, lo: int, hi: int, low: int, high: int)
    requires
        i32::MIN <= lo,
        hi <= i32::MAX,
        forall|t: i32| lo <= t <= hi && #[trigger] m.contains_key(t) ==> low <= m[t] <= high,
    ensures
        price_count(m, lo, hi) * low <= price_sum(m, lo, hi) <= price_count(m, lo, hi) * high,
    decreases hi + 1 - lo,
{
    if hi >= lo {
        lemma_totals_within(m, lo, hi - 1, low, high);
        let t = hi as i32;
        assert(t as int == hi);
        let c = price_count(m, lo, hi - 1);
        let s = price_sum(m, lo, hi - 1);
        if m.contains_key(t) {
            let v = m[t] as int;
            assert(low <= v <= high);
            assert((c + 1) * low <= s + v <= (c + 1) * high) by (nonlinear_arith)
                requires
                    c * low <= s <= c * high,
                    low <= v <= high,
            ;
        }
    }
}

/// Decoding a message: the kind is the first byte, and the two numbers are
/// the big-endian two's-complement 32-bit integers in bytes 1 to 4 and 5
/// to 8.
pub proof fn lemma_instruction_fields(v: &[u8; 9])
    ensures
        ({
            let ins = <Instruction as vstd::std_specs::convert::FromSpec<&[u8; 9]>>::from_spec(
                v,
            );
            let a = v@[1] * 0x100_0000 + v@[2] * 0x1_0000 + v@[3] * 0x100 + v@[4];
            let b = v@[5] * 0x100_0000 + v@[6] * 0x1_0000 + v@[7] * 0x100 + v@[8];
            &&& ins.kind == v@[0]
            &&& ins.timestamp_first == if v@[1] >= 0x80 {
                a - 0x1_0000_0000
            } else {
                a
            }
            &&& ins.price_last == if v@[5] >= 0x80 {
                b - 0x1_0000_0000
            } else {
                b
            }
        }),
{
}

/// How a nonzero mean is rounded: toward zero, so it has the sign of the
/// sum, and its magnitude is the largest whole number of prices'-worth that
/// fits in the sum's magnitude.
pub proof fn lemma_mean_rounds_toward_zero(m: Map<i32, i32>, min: i32, max: i32)
    requires
        min <= max,
        price_sum(m, min as int, max as int) != 0,
        price_count(m, min as int, max as int) > 0,
    ensures
        ({
            let sum = price_sum(m, min as int, max as int);
            let count = price_count(m, min as int, max as int);
            let mean = mean_price_spec(m, min as int, max as int);
            let mag = if sum >= 0 {
                sum
            } else {
                -sum
            };
            let mmag = if mean >= 0 {
                mean
            } else {
                -mean
            };
            &&& mean * sum >= 0
            &&& count * mmag <= mag < count * (mmag + 1)
        }),
{
    let sum = price_sum(m, min as int, max as int);
    let count = price_count(m, min as int, max as int);
    if sum >= 0 {
        let q = sum / count;
        assert(count * q <= sum < count * (q + 1) && q >= 0 && q * sum >= 0) by (nonlinear_arith)
            requires
                count > 0,
                sum > 0,
                q == sum / count,
        ;
    } else {
        let q = (-sum) / count;
        assert(count * q <= -sum < count * (q + 1) && q >= 0 && (-q) * sum >= 0) by (
        nonlinear_arith)
            requires
                count > 0,
                -sum > 0,
                q == (-sum) / count,
        ;
    }
}

} // verus!
