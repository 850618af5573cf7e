//! Timestamped prices of one asset, the mean price over a time range, and the
//! nine-byte messages by which a client inserts prices and queries means.
use vstd::prelude::*;

verus! {

pub struct PricePoint {
    pub timestamp: i32,
    pub price: i32,
}

/// Whether a price point's timestamp lies in `from..=to`.
pub open spec fn in_range(point: PricePoint, from: int, to: int) -> bool {
    from <= point.timestamp && point.timestamp <= to
}

/// The sum of the prices whose timestamps lie in `from..=to`.
pub open spec fn sum_in_range(points: Seq<PricePoint>, from: int, to: int) -> int
    decreases points.len(),
{
    if points.len() == 0 {
        0
    } else {
        sum_in_range(points.drop_last(), from, to) + if in_range(points.last(), from, to) {
            points.last().price as int
        } else {
            0
        }
    }
}

/// The number of prices whose timestamps lie in `from..=to`.
pub open spec fn count_in_range(points: Seq<PricePoint>, from: int, to: int) -> int
    decreases points.len(),
{
    if points.len() == 0 {
        0
    } else {
        count_in_range(points.drop_last(), from, to) + if in_range(points.last(), from, to) {
            1int
        } else {
            0int
        }
    }
}

/// Integer division rounding toward zero, as Rust's `/` does.
pub open spec fn div_toward_zero(a: int, b: int) -> int {
    if a >= 0 {
        a / b
    } else {
        -((-a) / b)
    }
}

/// The mean of the prices in `from..=to`, rounded toward zero; 0 when there is none.
pub open spec fn mean_price(points: Seq<PricePoint>, from: int, to: int) -> int {
    let count = count_in_range(points, from, to);
    if count == 0 {
        0
    } else {
        div_toward_zero(sum_in_range(points, from, to), count)
    }
}

/// The sum of all prices, whatever their timestamps.
pub open spec fn total_price(points: Seq<PricePoint>) -> int
    decreases points.len(),
{
    if points.len() == 0 {
        0
    } else {
        total_price(points.drop_last()) + points.last().price
    }
}

/// One more price point is counted, and its price summed, exactly when its
/// timestamp lies between the bounds in signed integer order.
pub proof fn lemma_range_push(points: Seq<PricePoint>, point: PricePoint, from: i32, to: i32)
    ensures
        count_in_range(points.push(point), from as int, to as int) == count_in_range(
            points,
            from as int,
            to as int,
        ) + if from <= point.timestamp && point.timestamp <= to {
            1int
        } else {
            0int
        },
        sum_in_range(points.push(point), from as int, to as int) == sum_in_range(
            points,
            from as int,
            to as int,
        ) + if from <= point.timestamp && point.timestamp <= to {
            point.price as int
        } else {
            0int
        },
{
    assert(points.push(point).drop_last() =~= points);
}

/// The mean over one price point is its price when its timestamp lies
/// between the bounds (signed order, both ends included), and 0 otherwise.
pub proof fn lemma_mean_of_one(point: PricePoint, from: i32, to: i32)
    ensures
        mean_price(seq![point], from as int, to as int) == if from <= point.timestamp
            && point.timestamp <= to {
            point.price as int
        } else {
            0
        },
{
    lemma_range_push(Seq::empty(), point, from, to);
    assert(Seq::<PricePoint>::empty().push(point) =~= seq![point]);
    if point.price < 0 {
        assert((-(point.price as int)) / 1 == -(point.price as int));
    }
}

/// The range of every `i32` counts every price: its mean is the mean of all
/// prices, rounded toward zero.
pub proof fn lemma_full_range_counts_all(points: Seq<PricePoint>)
    ensures
        count_in_range(points, i32::MIN as int, i32::MAX as int) == points.len(),
        sum_in_range(points, i32::MIN as int, i32::MAX as int) == total_price(points),
        points.len() > 0 ==> mean_price(points, i32::MIN as int, i32::MAX as int) == div_toward_zero(
            total_price(points),
            points.len() as int,
        ),
    decreases points.len(),
{
    if points.len() > 0 {
        lemma_full_range_counts_all(points.drop_last());
    }
}

/// A range whose start lies after its end holds no price: its mean is 0.
pub proof fn lemma_empty_range_mean(points: Seq<PricePoint>, from: i32, to: i32)
    requires
        from > to,
    ensures
        count_in_range(points, from as int, to as int) == 0,
        mean_price(points, from as int, to as int) == 0,
    decreases points.len(),
{
    if points.len() > 0 {
        lemma_empty_range_mean(points.drop_last(), from, to);
    }
}

/// The sum of `count` prices lies between `count` times the least and
/// `count` times the greatest `i32`.
pub proof fn lemma_sum_bounds(points: Seq<PricePoint>, from: int, to: int)
    ensures
        0 <= count_in_range(points, from, to) <= points.len(),
        -0x8000_0000 * count_in_range(points, from, to) <= sum_in_range(points, from, to)
            <= 0x7fff_ffff * count_in_range(points, from, to),
    decreases points.len(),
{
    if points.len() > 0 {
        lemma_sum_bounds(points.drop_last(), from, to);
    }
}

/// The mean of `i32` prices is itself an `i32`.
pub proof fn lemma_mean_fits(points: Seq<PricePoint>, from: int, to: int)
    ensures
        i32::MIN <= mean_price(points, from, to) <= i32::MAX,
{
    lemma_sum_bounds(points, from, to);
    let c = count_in_range(points, from, to);
    let s = sum_in_range(points, from, to);
    if c > 0 {
        if s >= 0 {
            assert(s / c <= 0x7fff_ffff) by (nonlinear_arith)
                requires
                    0 <= s <= 0x7fff_ffff * c,
                    c > 0,
            ;
            assert(s / c >= 0) by (nonlinear_arith)
                requires
                    0 <= s,
                    c > 0,
            ;
        } else {
            assert((-s) / c <= 0x8000_0000) by (nonlinear_arith)
                requires
                    0 <= -s <= 0x8000_0000 * c,
                    c > 0,
            ;
            assert((-s) / c >= 0) by (nonlinear_arith)
                requires
                    0 <= -s,
                    c > 0,
            ;
        }
    }
}

/// The `i32` whose big-endian two's-complement bytes are `b[at..at + 4]`.
pub open spec fn be_i32(b: Seq<u8>, at: int) -> int {
    let u = b[at] as int * 0x100_0000 + b[at + 1] as int * 0x1_0000 + b[at + 2] as int * 0x100
        + b[at + 3] as int;
    if u >= 0x8000_0000 {
        u - 0x1_0000_0000
    } else {
        u
    }
}

/// The four big-endian two's-complement bytes of an `i32`.
pub open spec fn be_bytes(v: i32) -> Seq<u8> {
    let u = if v >= 0 {
        v as int
    } else {
        v as int + 0x1_0000_0000
    };
    seq![
        (u / 0x100_0000) as u8,
        (u / 0x1_0000 % 0x100) as u8,
        (u / 0x100 % 0x100) as u8,
        (u % 0x100) as u8,
    ]
}

/// Reading back the bytes of an `i32` gives the `i32`.
pub proof fn lemma_be_roundtrip(v: i32)
    ensures
        be_i32(be_bytes(v), 0) == v,
{
    let u = if v >= 0 {
        v as int
    } else {
        v as int + 0x1_0000_0000
    };
    assert(0 <= u < 0x1_0000_0000);
    assert(u == (u / 0x100_0000) * 0x100_0000 + (u / 0x1_0000 % 0x100) * 0x1_0000 + (u / 0x100
        % 0x100) * 0x100 + u % 0x100) by (nonlinear_arith)
        requires
            0 <= u < 0x1_0000_0000,
    ;
    assert(0 <= u / 0x100_0000 < 0x100) by (nonlinear_arith)
        requires
            0 <= u < 0x1_0000_0000,
    ;
}

/// What a client asks for in one nine-byte message: a kind byte and two
/// big-endian `i32` operands.
pub enum Request {
    /// `I`: store `price` at `timestamp`.
    Insert { timestamp: i32, price: i32 },
    /// `Q`: the mean price over `mintime..=maxtime`.
    Query { mintime: i32, maxtime: i32 },
    /// Any other kind byte.
    Unknown { kind: u8 },
}

/// The request that a nine-byte message carries.
pub open spec fn request_of(message: Seq<u8>) -> Request {
    let one = be_i32(message, 1) as i32;
    let two = be_i32(message, 5) as i32;
    if message[0] == 73 {
        Request::Insert { timestamp: one, price: two }
    } else if message[0] == 81 {
        Request::Query { mintime: one, maxtime: two }
    } else {
        Request::Unknown { kind: message[0] }
    }
}

/// A nine-byte message's operands are taken in message order: for `Q`, the
/// first is the start of the range and the second its end, never swapped;
/// for `I`, the first is the timestamp and the second the price.
pub proof fn lemma_operands_in_message_order(message: Seq<u8>)
    requires
        message.len() == 9,
    ensures
        message[0] == 81 ==> request_of(message) == (Request::Query {
            mintime: be_i32(message, 1) as i32,
            maxtime: be_i32(message, 5) as i32,
        }),
        message[0] == 73 ==> request_of(message) == (Request::Insert {
            timestamp: be_i32(message, 1) as i32,
            price: be_i32(message, 5) as i32,
        }),
        message[0] != 81 && message[0] != 73 ==> request_of(message) == (Request::Unknown {
            kind: message[0],
        }),
{
}

/// A query whose first operand exceeds its second is answered with the
/// bytes of 0, whatever prices are stored.
pub proof fn lemma_reversed_query_answers_zero(message: Seq<u8>, points: Seq<PricePoint>)
    requires
        message.len() == 9,
        message[0] == 81,
        be_i32(message, 1) > be_i32(message, 5),
    ensures
        request_of(message) matches Request::Query { mintime, maxtime } && be_bytes(
            mean_price(points, mintime as int, maxtime as int) as i32,
        ) == seq![0u8, 0u8, 0u8, 0u8],
{
    assert(-0x8000_0000 <= be_i32(message, 1) < 0x8000_0000) by (nonlinear_arith)
        requires
            0 <= message[1] < 256,
            0 <= message[2] < 256,
            0 <= message[3] < 256,
            0 <= message[4] < 256,
            be_i32(message, 1) == (if message[1] as int * 0x100_0000 + message[2] as int * 0x1_0000
                + message[3] as int * 0x100 + message[4] as int >= 0x8000_0000 {
                message[1] as int * 0x100_0000 + message[2] as int * 0x1_0000 + message[3] as int
                    * 0x100 + message[4] as int - 0x1_0000_0000
            } else {
                message[1] as int * 0x100_0000 + message[2] as int * 0x1_0000 + message[3] as int
                    * 0x100 + message[4] as int
            }),
    ;
    assert(-0x8000_0000 <= be_i32(message, 5) < 0x8000_0000) by (nonlinear_arith)
        requires
            0 <= message[5] < 256,
            0 <= message[6] < 256,
            0 <= message[7] < 256,
            0 <= message[8] < 256,
            be_i32(message, 5) == (if message[5] as int * 0x100_0000 + message[6] as int * 0x1_0000
                + message[7] as int * 0x100 + message[8] as int >= 0x8000_0000 {
                message[5] as int * 0x100_0000 + message[6] as int * 0x1_0000 + message[7] as int
                    * 0x100 + message[8] as int - 0x1_0000_0000
            } else {
                message[5] as int * 0x100_0000 + message[6] as int * 0x1_0000 + message[7] as int
                    * 0x100 + message[8] as int
            }),
    ;
    let mintime = be_i32(message, 1) as i32;
    let maxtime = be_i32(message, 5) as i32;
    lemma_empty_range_mean(points, mintime, maxtime);
    assert(be_bytes(0i32) =~= seq![0u8, 0u8, 0u8, 0u8]);
}

/// Reads the big-endian `i32` at `bytes[at..at + 4]`.
pub fn read_be_i32(bytes: &[u8], at: usize) -> (v: i32)
    requires
        at + 4 <= bytes@.len(),
    ensures
        v == be_i32(bytes@, at as int),
{
    let u: u64 = bytes[at] as u64 * 0x100_0000 + bytes[at + 1] as u64 * 0x1_0000 + bytes[at + 2] as u64
        * 0x100 + bytes[at + 3] as u64;
    if u >= 0x8000_0000 {
        (u as i64 - 0x1_0000_0000) as i32
    } else {
        u as i32
    }
}

/// The big-endian bytes of an `i32`.
pub fn write_be_i32(v: i32) -> (bytes: Vec<u8>)
    ensures
        bytes@ == be_bytes(v),
{
    let u: u64 = if v >= 0 {
        v as u64
    } else {
        (v as i64 + 0x1_0000_0000) as u64
    };
    let mut bytes: Vec<u8> = Vec::new();
    bytes.push((u / 0x100_0000) as u8);
    bytes.push((u / 0x1_0000 % 0x100) as u8);
    bytes.push((u / 0x100 % 0x100) as u8);
    bytes.push((u % 0x100) as u8);
    proof {
        assert(bytes@ =~= be_bytes(v));
    }
    bytes
}

/// Decodes one nine-byte message.
pub fn decode_request(message: &[u8]) -> (request: Request)
    requires
        message@.len() == 9,
    ensures
        request == request_of(message@),
{
    let one = read_be_i32(message, 1);
    let two = read_be_i32(message, 5);
    if message[0] == 73u8 {
        Request::Insert { timestamp: one, price: two }
    } else if message[0] == 81u8 {
        Request::Query { mintime: one, maxtime: two }
    } else {
        Request::Unknown { kind: message[0] }
    }
}

/// What the server does with one message.
pub enum Reply {
    /// The price was stored; nothing is sent.
    Stored,
    /// The bytes to send back: the queried mean, big-endian.
    Mean { bytes: Vec<u8> },
    /// The kind byte is none of the known ones; nothing is sent.
    UnknownKind { kind: u8 },
}

pub struct Asset {
    prices: Vec<PricePoint>,
}

impl View for Asset {
    type V = Seq<PricePoint>;

    closed spec fn view(&self) -> Seq<PricePoint> {
        self.prices@
    }
}

impl Asset {
    pub fn new() -> (asset: Self)
        ensures
            asset@ == Seq::<PricePoint>::empty(),
    {
        Asset { prices: Vec::new() }
    }

    pub fn insert_price(&mut self, timestamp: i32, price: i32)
        ensures
            final(self)@ == old(self)@.push(PricePoint { timestamp, price }),
    {
        self.prices.push(PricePoint { price, timestamp });
    }

    pub fn query_mean(&self, from: i32, to: i32) -> (mean: i32)
        ensures
            mean == mean_price(self@, from as int, to as int),
    {
        let ghost points = self.prices@;
        let mut sum: i128 = 0;
        let mut count: u64 = 0;
        let mut k: usize = 0;
        while k < self.prices.len()
            invariant
                points == self.prices@,
                k <= points.len(),
                sum == sum_in_range(points.take(k as int), from as int, to as int),
                count == count_in_range(points.take(k as int), from as int, to as int),
                count <= k,
            decreases points.len() - k,
        {
            proof {
                lemma_sum_bounds(points.take(k as int), from as int, to as int);
                assert(points.take(k + 1).drop_last() =~= points.take(k as int));
            }
            let point = &self.prices[k];
            if point.timestamp >= from && point.timestamp <= to {
                sum = sum + point.price as i128;
                count = count + 1;
            }
            k = k + 1;
        }
        proof {
            assert(points.take(k as int) =~= points);
            lemma_sum_bounds(points, from as int, to as int);
            lemma_mean_fits(points, from as int, to as int);
        }
        if count == 0 {
            return 0;
        }
        if sum >= 0 {
            let q: u128 = (sum as u128) / (count as u128);
            q as i32
        } else {
            let q: u128 = ((-sum) as u128) / (count as u128);
            proof {
                assert(q <= 0x8000_0000);
            }
            (-(q as i64)) as i32
        }
    }
    /// Serves one nine-byte message.
    pub fn handle_message(&mut self, message: &[u8]) -> (reply: Reply)
        requires
            message@.len() == 9,
        ensures
            match request_of(message@) {
                Request::Insert { timestamp, price } => {
                    &&& reply is Stored
                    &&& final(self)@ == old(self)@.push(PricePoint { timestamp, price })
                },
                Request::Query { mintime, maxtime } => {
                    &&& reply matches Reply::Mean { bytes } && bytes@ == be_bytes(
                        mean_price(old(self)@, mintime as int, maxtime as int) as i32,
                    )
                    &&& final(self)@ == old(self)@
                },
                Request::Unknown { kind } => {
                    &&& reply == (Reply::UnknownKind { kind })
                    &&& final(self)@ == old(self)@
                },
            },
    {
        match decode_request(message) {
            Request::Insert { timestamp, price } => {
                self.insert_price(timestamp, price);
                Reply::Stored
            },
            Request::Query { mintime, maxtime } => {
                let mean = self.query_mean(mintime, maxtime);
                Reply::Mean { bytes: write_be_i32(mean) }
            },
            Request::Unknown { kind } => Reply::UnknownKind { kind },
        }
    }
}

} // verus!
