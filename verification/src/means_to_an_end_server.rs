//! The price service: decoding of its fixed-size binary messages, the store
//! of one client's prices, and the answers to its queries.
//!
//! A message is nine bytes: one type character followed by two signed
//! 32-bit integers in network byte order (big endian, two's complement).
//! An insert (`'I'`) stores a price at a timestamp; a query (`'Q'`) is
//! answered with the mean price over a closed time range, as four bytes.

use vstd::prelude::*;

verus! {

/// Length in bytes of one message.
pub const MESSAGE_LEN: usize = 9;

/// The signed 32-bit integer whose big-endian two's-complement encoding is
/// the four bytes `b0 b1 b2 b3` (`b0` most significant).
pub open spec fn be_i32(b0: u8, b1: u8, b2: u8, b3: u8) -> int {
    let u = b0 * 0x1000000int + b1 * 0x10000int + b2 * 0x100int + b3;
    if u < 0x8000_0000int {
        u
    } else {
        u - 0x1_0000_0000int
    }
}

/// The unsigned 32-bit pattern of the two's-complement encoding of `v`.
pub open spec fn twos_complement(v: int) -> int {
    if v < 0 {
        v + 0x1_0000_0000int
    } else {
        v
    }
}

/// Byte `k` (0 = most significant) of the big-endian two's-complement
/// encoding of `v`.
pub open spec fn be_byte(v: int, k: int) -> u8 {
    ((twos_complement(v) / pow256(3 - k)) % 256) as u8
}

/// `256` raised to `k`, for `k` in `0..4`.
pub open spec fn pow256(k: int) -> int {
    if k <= 0 {
        1
    } else if k == 1 {
        0x100
    } else if k == 2 {
        0x1_0000
    } else {
        0x100_0000
    }
}

/// Decoding inverts the network encoding: the four big-endian
/// two's-complement bytes of any `i32` decode back to that `i32`.
pub proof fn lemma_decode_encoding(v: i32)
    ensures
        be_i32(be_byte(v as int, 0), be_byte(v as int, 1), be_byte(v as int, 2), be_byte(v as int, 3))
            == v as int,
{
    let u = twos_complement(v as int);
    assert(0 <= u < 0x1_0000_0000int);
    let q3 = u / 0x100_0000int;
    let q2 = u / 0x1_0000int;
    let q1 = u / 0x100int;
    assert(u == 0x100_0000int * q3 + u % 0x100_0000int) by {
        vstd::arithmetic::div_mod::lemma_fundamental_div_mod(u, 0x100_0000int);
    }
    assert(u == 0x1_0000int * q2 + u % 0x1_0000int) by {
        vstd::arithmetic::div_mod::lemma_fundamental_div_mod(u, 0x1_0000int);
    }
    assert(u == 0x100int * q1 + u % 0x100int) by {
        vstd::arithmetic::div_mod::lemma_fundamental_div_mod(u, 0x100int);
    }
    assert(q2 == 0x100int * q3 + q2 % 0x100int) by {
        vstd::arithmetic::div_mod::lemma_fundamental_div_mod(q2, 0x100int);
        vstd::arithmetic::div_mod::lemma_div_denominator(u, 0x1_0000int, 0x100int);
    }
    assert(q1 == 0x100int * q2 + q1 % 0x100int) by {
        vstd::arithmetic::div_mod::lemma_fundamental_div_mod(q1, 0x100int);
        vstd::arithmetic::div_mod::lemma_div_denominator(u, 0x100int, 0x100int);
    }
    assert(0 <= q3 < 0x100) by {
        vstd::arithmetic::div_mod::lemma_div_pos_is_pos(u, 0x100_0000int);
        vstd::arithmetic::div_mod::lemma_div_is_ordered(u, 0xffff_ffffint, 0x100_0000int);
    }
    assert(q3 % 256 == q3) by {
        vstd::arithmetic::div_mod::lemma_small_mod(q3 as nat, 256nat);
    }
    assert(be_byte(v as int, 0) as int == q3);
    assert(be_byte(v as int, 1) as int == q2 % 256);
    assert(be_byte(v as int, 2) as int == q1 % 256);
    assert(be_byte(v as int, 3) as int == u % 256);
}

/// One decoded message: its type character and its two integer fields.
pub struct Request {
    /// The type character of the message (`'I'` for insert, `'Q'` for query).
    pub char: char,
    /// First field: the timestamp of an insert or the minimum time of a query.
    pub data1: i32,
    /// Second field: the price of an insert or the maximum time of a query.
    pub data2: i32,
}

/// Decodes the big-endian two's-complement integer held in four bytes.
pub fn decode_i32(b0: u8, b1: u8, b2: u8, b3: u8) -> (v: i32)
    ensures
        v as int == be_i32(b0, b1, b2, b3),
{
    let u: u32 = (b0 as u32) * 0x100_0000 + (b1 as u32) * 0x1_0000 + (b2 as u32) * 0x100
        + (b3 as u32);
    if u < 0x8000_0000 {
        u as i32
    } else {
        ((u - 0x8000_0000) as i32) - 0x7fff_ffff - 1
    }
}

impl Request {
    /// Decodes one message from a buffer of `MESSAGE_LEN` bytes: byte 0 is
    /// the type character, bytes 1..5 the first integer, bytes 5..9 the second.
    pub fn from_message(buf: &[u8; 9]) -> (r: Request)
        ensures
            r.char as u32 == buf@[0] as u32,
            r.data1 as int == be_i32(buf@[1], buf@[2], buf@[3], buf@[4]),
            r.data2 as int == be_i32(buf@[5], buf@[6], buf@[7], buf@[8]),
    {
        Request {
            char: buf[0] as char,
            data1: decode_i32(buf[1], buf[2], buf[3], buf[4]),
            data2: decode_i32(buf[5], buf[6], buf[7], buf[8]),
        }
    }
}

/// Encodes an integer as its four big-endian two's-complement bytes, the
/// form in which a query's answer is sent.
pub fn encode_i32(v: i32) -> (bytes: [u8; 4])
    ensures
        bytes@[0] == be_byte(v as int, 0),
        bytes@[1] == be_byte(v as int, 1),
        bytes@[2] == be_byte(v as int, 2),
        bytes@[3] == be_byte(v as int, 3),
{
    let u: u32 = if v >= 0 {
        v as u32
    } else {
        ((v as i64) + 0x1_0000_0000i64) as u32
    };
    assert(u as int == twos_complement(v as int));
    let b0: u8 = (u / 0x100_0000) as u8;
    let b1: u8 = ((u / 0x1_0000) % 256) as u8;
    let b2: u8 = ((u / 0x100) % 256) as u8;
    let b3: u8 = (u % 256) as u8;
    assert(u / 0x100_0000 < 256) by {
        vstd::arithmetic::div_mod::lemma_div_is_ordered(u as int, 0xffff_ffffint, 0x100_0000int);
    }
    [b0, b1, b2, b3]
}

/// Number of the prices in `prices` (pairs of timestamp and price) whose
/// timestamp lies in `[mintime, maxtime]`.
pub open spec fn range_count(prices: Seq<(i32, i32)>, mintime: int, maxtime: int) -> int
    decreases prices.len(),
{
    if prices.len() == 0 {
        0
    } else {
        range_count(prices.drop_last(), mintime, maxtime) + if mintime <= prices.last().0
            <= maxtime {
            1int
        } else {
            0int
        }
    }
}

/// Sum of the prices in `prices` whose timestamp lies in `[mintime, maxtime]`.
pub open spec fn range_sum(prices: Seq<(i32, i32)>, mintime: int, maxtime: int) -> int
    decreases prices.len(),
{
    if prices.len() == 0 {
        0
    } else {
        range_sum(prices.drop_last(), mintime, maxtime) + if mintime <= prices.last().0
            <= maxtime {
            prices.last().1 as int
        } else {
            0int
        }
    }
}

/// The answer to a query: the mean of the prices with a timestamp in
/// `[mintime, maxtime]`, rounded down; 0 when there is no such price or
/// when `mintime` comes after `maxtime`.
pub open spec fn query_mean(prices: Seq<(i32, i32)>, mintime: int, maxtime: int) -> int {
    let n = range_count(prices, mintime, maxtime);
    if mintime > maxtime || n == 0 {
        0
    } else {
        range_sum(prices, mintime, maxtime) / n
    }
}

/// The inserted prices of one client, in the order they were inserted.
pub struct PriceStore {
    prices: Vec<(i32, i32)>,
}

impl View for PriceStore {
    type V = Seq<(i32, i32)>;

    closed spec fn view(&self) -> Seq<(i32, i32)> {
        self.prices@
    }
}

/// The count and sum over a prefix extend by the next price.
proof fn lemma_range_step(prices: Seq<(i32, i32)>, i: int, mintime: int, maxtime: int)
    requires
        0 <= i < prices.len(),
    ensures
        range_count(prices.subrange(0, i + 1), mintime, maxtime) == range_count(
            prices.subrange(0, i),
            mintime,
            maxtime,
        ) + if mintime <= prices[i].0 <= maxtime {
            1int
        } else {
            0int
        },
        range_sum(prices.subrange(0, i + 1), mintime, maxtime) == range_sum(
            prices.subrange(0, i),
            mintime,
            maxtime,
        ) + if mintime <= prices[i].0 <= maxtime {
            prices[i].1 as int
        } else {
            0int
        },
{
    assert(prices.subrange(0, i + 1).drop_last() =~= prices.subrange(0, i));
}

/// A mean of `i32` prices rounded down is an `i32` again: it lies between
/// the smallest and the largest possible price.
proof fn lemma_mean_bounds(sum: int, n: int)
    requires
        n > 0,
        -0x8000_0000 * n <= sum <= 0x7fff_ffff * n,
    ensures
        -0x8000_0000 <= sum / n <= 0x7fff_ffff,
{
    vstd::arithmetic::div_mod::lemma_fundamental_div_mod(sum, n);
    assert(-0x8000_0000 <= sum / n <= 0x7fff_ffff) by (nonlinear_arith)
        requires
            n > 0,
            -0x8000_0000 * n <= sum <= 0x7fff_ffff * n,
            sum == n * (sum / n) + sum % n,
            0 <= sum % n < n,
    ;
}

impl PriceStore {
    /// An empty store.
    pub fn new() -> (store: PriceStore)
        ensures
            store@ == Seq::<(i32, i32)>::empty(),
    {
        PriceStore { prices: Vec::new() }
    }

    /// Inserts the price of a timestamp.
    pub fn insert(&mut self, timestamp: i32, price: i32)
        ensures
            final(self)@ == old(self)@.push((timestamp, price)),
    {
        self.prices.push((timestamp, price));
    }

    /// The mean of the inserted prices with a timestamp in
    /// `[mintime, maxtime]`, rounded down; 0 when there is none or when
    /// `mintime` comes after `maxtime`.
    pub fn query(&self, mintime: i32, maxtime: i32) -> (mean: i32)
        ensures
            mean as int == query_mean(self@, mintime as int, maxtime as int),
    {
        if mintime > maxtime {
            return 0;
        }
        let mut sum: i128 = 0;
        let mut count: usize = 0;
        let mut i: usize = 0;
        while i < self.prices.len()
            invariant
                0 <= i <= self@.len(),
                0 <= count <= i,
                count as int == range_count(self@.subrange(0, i as int), mintime as int, maxtime as int),
                sum as int == range_sum(self@.subrange(0, i as int), mintime as int, maxtime as int),
                -0x8000_0000 * count <= sum <= 0x7fff_ffff * count,
            decreases self@.len() - i,
        {
            proof {
                lemma_range_step(self@, i as int, mintime as int, maxtime as int);
            }
            let (t, p) = self.prices[i];
            if mintime <= t && t <= maxtime {
                sum = sum + p as i128;
                count = count + 1;
            }
            i = i + 1;
        }
        assert(self@.subrange(0, self@.len() as int) =~= self@);
        if count == 0 {
            return 0;
        }
        let n = count as i128;
        proof {
            lemma_mean_bounds(sum as int, n as int);
        }
        let mean: i128 = if sum >= 0 {
            sum / n
        } else {
            let q = (-sum + n - 1) / n;
            proof {
                lemma_floor_of_negative(sum as int, n as int);
            }
            -q
        };
        mean as i32
    }

    /// Handles one message: an insert (`'I'`) stores its price and is not
    /// answered; a query (`'Q'`) is answered with the mean of the prices in
    /// its time range; any other type is invalid.
    pub fn handle(&mut self, request: &Request) -> (outcome: MessageOutcome)
        ensures
            request.char == 'I' ==> outcome == MessageOutcome::Inserted && final(self)@ == old(
                self,
            )@.push((request.data1, request.data2)),
            request.char == 'Q' ==> final(self)@ == old(self)@ && outcome == MessageOutcome::Answer(
                query_mean(old(self)@, request.data1 as int, request.data2 as int) as i32,
            ),
            request.char != 'I' && request.char != 'Q' ==> outcome == MessageOutcome::Invalid
                && final(self)@ == old(self)@,
    {
        if request.char == 'I' {
            self.insert(request.data1, request.data2);
            MessageOutcome::Inserted
        } else if request.char == 'Q' {
            MessageOutcome::Answer(self.query(request.data1, request.data2))
        } else {
            MessageOutcome::Invalid
        }
    }
}

/// What the service does with one message.
#[derive(PartialEq, Eq, Structural, Debug, Clone, Copy)]
pub enum MessageOutcome {
    /// The price was stored; nothing is sent.
    Inserted,
    /// Send this mean, encoded with `encode_i32`.
    Answer(i32),
    /// The message type is neither `'I'` nor `'Q'`: close the connection.
    Invalid,
}

/// For a negative `sum` and positive `n`, rounding `-sum / n` up and
/// negating gives `sum / n` rounded down.
proof fn lemma_floor_of_negative(sum: int, n: int)
    requires
        sum < 0,
        n > 0,
    ensures
        -((-sum + n - 1) / n) == sum / n,
{
    vstd::arithmetic::div_mod::lemma_fundamental_div_mod(sum, n);
    vstd::arithmetic::div_mod::lemma_fundamental_div_mod(-sum + n - 1, n);
    let q = sum / n;
    let r = sum % n;
    let q2 = (-sum + n - 1) / n;
    let r2 = (-sum + n - 1) % n;
    assert(-sum + n - 1 == n * (-q) + (n - 1 - r)) by (nonlinear_arith)
        requires
            sum == n * q + r,
    ;
    assert(0 <= n - 1 - r < n);
    vstd::arithmetic::div_mod::lemma_fundamental_div_mod_converse(-sum + n - 1, n, -q, n - 1 - r);
}

/// Reading back a single write: after inserting one price into an empty
/// store, a query whose range holds its timestamp answers that price, and
/// one whose range does not answers 0.
pub proof fn lemma_query_single_insert(timestamp: i32, price: i32, mintime: i32, maxtime: i32)
    ensures
        mintime <= timestamp <= maxtime ==> query_mean(
            Seq::<(i32, i32)>::empty().push((timestamp, price)),
            mintime as int,
            maxtime as int,
        ) == price,
        !(mintime <= timestamp <= maxtime) ==> query_mean(
            Seq::<(i32, i32)>::empty().push((timestamp, price)),
            mintime as int,
            maxtime as int,
        ) == 0,
{
    let s = Seq::<(i32, i32)>::empty().push((timestamp, price));
    assert(s.drop_last() =~= Seq::<(i32, i32)>::empty());
    assert(s.last() == (timestamp, price));
    assert(range_count(s.drop_last(), mintime as int, maxtime as int) == 0);
    assert(range_sum(s.drop_last(), mintime as int, maxtime as int) == 0);
    if mintime <= timestamp <= maxtime {
        assert(range_count(s, mintime as int, maxtime as int) == 1);
        assert(range_sum(s, mintime as int, maxtime as int) == price);
        assert(price as int / 1 == price as int);
    } else {
        assert(range_count(s, mintime as int, maxtime as int) == 0);
    }
}

/// The answer to a query depends only on the prices inside its range:
/// inserting a price whose timestamp lies outside the range leaves the
/// answer unchanged.
pub proof fn lemma_query_ignores_outside(prices: Seq<(i32, i32)>, timestamp: i32, price: i32, mintime: i32, maxtime: i32)
    requires
        !(mintime <= timestamp <= maxtime),
    ensures
        query_mean(prices.push((timestamp, price)), mintime as int, maxtime as int) == query_mean(
            prices,
            mintime as int,
            maxtime as int,
        ),
{
    assert(prices.push((timestamp, price)).drop_last() =~= prices);
}

/// Taking one price out of the store takes its share out of the count and
/// the sum of every query range.
proof fn lemma_range_remove(prices: Seq<(i32, i32)>, j: int, mintime: int, maxtime: int)
    requires
        0 <= j < prices.len(),
    ensures
        range_count(prices, mintime, maxtime) == range_count(prices.remove(j), mintime, maxtime)
            + if mintime <= prices[j].0 <= maxtime {
            1int
        } else {
            0int
        },
        range_sum(prices, mintime, maxtime) == range_sum(prices.remove(j), mintime, maxtime)
            + if mintime <= prices[j].0 <= maxtime {
            prices[j].1 as int
        } else {
            0int
        },
    decreases prices.len(),
{
    if j == prices.len() - 1 {
        assert(prices.remove(j) =~= prices.drop_last());
    } else {
        lemma_range_remove(prices.drop_last(), j, mintime, maxtime);
        assert(prices.remove(j).drop_last() =~= prices.drop_last().remove(j));
        assert(prices.remove(j).last() == prices.last());
    }
}

/// The count and the sum of a query range depend only on which prices were
/// inserted, not on their order.
proof fn lemma_range_reorder(a: Seq<(i32, i32)>, b: Seq<(i32, i32)>, mintime: int, maxtime: int)
    requires
        a.to_multiset() == b.to_multiset(),
    ensures
        range_count(a, mintime, maxtime) == range_count(b, mintime, maxtime),
        range_sum(a, mintime, maxtime) == range_sum(b, mintime, maxtime),
    decreases a.len(),
{
    broadcast use vstd::seq_lib::group_to_multiset_ensures;

    if a.len() == 0 {
        assert(b.to_multiset().len() == 0);
        assert(b =~= Seq::<(i32, i32)>::empty());
    } else {
        let x = a.last();
        let init = a.drop_last();
        assert(init.push(x) =~= a);
        assert(a.to_multiset() =~= init.to_multiset().insert(x));
        assert(b.to_multiset().count(x) > 0);
        assert(b.contains(x));
        let j = choose|j: int| 0 <= j < b.len() && b[j] == x;
        assert(b.remove(j).to_multiset() =~= b.to_multiset().remove(x));
        assert(init.to_multiset() =~= init.to_multiset().insert(x).remove(x));
        lemma_range_reorder(init, b.remove(j), mintime, maxtime);
        lemma_range_remove(b, j, mintime, maxtime);
    }
}

/// Insertions may come in any order: two stores that hold the same prices,
/// inserted in different orders, give the same answer to every query.
pub proof fn lemma_query_order_independent(
    a: Seq<(i32, i32)>,
    b: Seq<(i32, i32)>,
    mintime: i32,
    maxtime: i32,
)
    requires
        a.to_multiset() == b.to_multiset(),
    ensures
        query_mean(a, mintime as int, maxtime as int) == query_mean(b, mintime as int, maxtime as int),
{
    lemma_range_reorder(a, b, mintime as int, maxtime as int);
}

} // verus!
