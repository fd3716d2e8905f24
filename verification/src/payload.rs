//! Score requests, and the vector that stands for one.

use vstd::prelude::*;
use vstd::utf8::encode_utf8;
use vstd::arithmetic::div_mod::*;
use vstd::arithmetic::power2::*;
use crate::accuracy;
use crate::binary32;
use crate::binary32::Binary32;
use crate::quantize;
use crate::quantize::DIMS;
use crate::rounding;
use crate::timestamp;
use crate::timestamp::{parse_timestamp, ParsedTimestamp};

verus! {

/// The values that stand for one on each scale.
#[derive(Clone, Copy, Debug, PartialEq, Eq, Structural)]
pub struct Normalization {
    pub max_amount: Binary32,
    pub max_installments: Binary32,
    pub amount_vs_avg_ratio: Binary32,
    pub max_minutes: Binary32,
    pub max_km: Binary32,
    pub max_tx_count_24h: Binary32,
    pub max_merchant_avg_amount: Binary32,
}

/// The scales that are used where none are given.
pub open spec fn default_scales() -> Normalization {
    Normalization {
        max_amount: binary32::from_natural(10_000),
        max_installments: binary32::from_natural(12),
        amount_vs_avg_ratio: binary32::from_natural(10),
        max_minutes: binary32::from_natural(1_440),
        max_km: binary32::from_natural(1_000),
        max_tx_count_24h: binary32::from_natural(20),
        max_merchant_avg_amount: binary32::from_natural(10_000),
    }
}

impl Default for Normalization {
    fn default() -> (r: Normalization)
        ensures
            r == default_scales(),
            r == (Normalization {
                max_amount: binary32::from_natural(10_000),
                max_installments: binary32::from_natural(12),
                amount_vs_avg_ratio: binary32::from_natural(10),
                max_minutes: binary32::from_natural(1_440),
                max_km: binary32::from_natural(1_000),
                max_tx_count_24h: binary32::from_natural(20),
                max_merchant_avg_amount: binary32::from_natural(10_000),
            }),
    {
        Normalization {
            max_amount: Binary32::from_u64(10_000),
            max_installments: Binary32::from_u64(12),
            amount_vs_avg_ratio: Binary32::from_u64(10),
            max_minutes: Binary32::from_u64(1_440),
            max_km: Binary32::from_u64(1_000),
            max_tx_count_24h: Binary32::from_u64(20),
            max_merchant_avg_amount: Binary32::from_u64(10_000),
        }
    }
}

/// Risks of merchant category codes; a later entry replaces an earlier one of
/// the same code.
#[derive(Debug)]
pub struct RiskTable {
    pub entries: Vec<(String, Binary32)>,
}

/// The table that entries make.
pub open spec fn risk_map(entries: Seq<(String, Binary32)>) -> Map<Seq<char>, Binary32>
    decreases entries.len(),
{
    if entries.len() == 0 {
        Map::empty()
    } else {
        risk_map(entries.drop_last()).insert(entries.last().0@, entries.last().1)
    }
}

impl RiskTable {
    /// The risk of every listed code.
    pub open spec fn view(&self) -> Map<Seq<char>, Binary32> {
        risk_map(self.entries@)
    }

    /// A table without entries.
    pub fn new() -> (r: RiskTable)
        ensures
            r@ == Map::<Seq<char>, Binary32>::empty(),
    {
        RiskTable { entries: Vec::new() }
    }

    /// Lists a risk.
    pub fn insert(&mut self, code: String, risk: Binary32)
        ensures
            final(self)@ == old(self)@.insert(code@, risk),
    {
        self.entries.push((code, risk));
        assert(self.entries@.drop_last() =~= old(self).entries@);
    }

    /// The risk of a code, where it is listed.
    pub fn get(&self, code: &str) -> (r: Option<Binary32>)
        ensures
            r == if self@.dom().contains(code@) {
                Some(self@[code@])
            } else {
                None
            },
    {
        let mut n: usize = self.entries.len();
        assert(self.entries@.subrange(0, n as int) =~= self.entries@);
        while n > 0
            invariant
                n <= self.entries@.len(),
                self@.dom().contains(code@) == risk_map(
                    self.entries@.subrange(0, n as int),
                ).dom().contains(code@),
                self@.dom().contains(code@) ==> self@[code@] == risk_map(
                    self.entries@.subrange(0, n as int),
                )[code@],
            decreases n,
        {
            assert(self.entries@.subrange(0, n as int).drop_last() =~= self.entries@.subrange(
                0,
                n - 1,
            ));
            if same_text(self.entries[n - 1].0.as_str(), code) {
                return Some(self.entries[n - 1].1);
            }
            n -= 1;
        }
        None
    }
}

/// Whether two texts are the same.
fn same_text(a: &str, b: &str) -> (r: bool)
    ensures
        r == (a@ == b@),
{
    let x: &[u8] = a.as_bytes();
    let y: &[u8] = b.as_bytes();
    proof {
        vstd::utf8::encode_utf8_decode_utf8(a@);
        vstd::utf8::encode_utf8_decode_utf8(b@);
    }
    if x.len() != y.len() {
        return false;
    }
    let mut i: usize = 0;
    while i < x.len()
        invariant
            i <= x@.len(),
            x@.len() == y@.len(),
            x@ == encode_utf8(a@),
            y@ == encode_utf8(b@),
            forall|j: int| 0 <= j < i ==> x@[j] == y@[j],
        decreases x@.len() - i,
    {
        if x[i] != y[i] {
            return false;
        }
        i += 1;
    }
    assert(x@ =~= y@);
    true
}

/// The built-in risks, in hundredths.
pub open spec fn built_in_risks() -> Map<Seq<char>, Binary32> {
    Map::<Seq<char>, Binary32>::empty().insert("5411"@, binary32::nearest_ratio(15, 100)).insert(
        "5812"@,
        binary32::nearest_ratio(30, 100),
    ).insert("5912"@, binary32::nearest_ratio(20, 100)).insert(
        "5944"@,
        binary32::nearest_ratio(45, 100),
    ).insert("7801"@, binary32::nearest_ratio(80, 100)).insert(
        "7802"@,
        binary32::nearest_ratio(75, 100),
    ).insert("7995"@, binary32::nearest_ratio(85, 100)).insert(
        "4511"@,
        binary32::nearest_ratio(35, 100),
    ).insert("5311"@, binary32::nearest_ratio(25, 100)).insert(
        "5999"@,
        binary32::nearest_ratio(50, 100),
    )
}

/// The built-in risks of merchant category codes.
pub fn default_mcc_risk() -> (r: RiskTable)
    ensures
        r@ == built_in_risks(),
{
    let mut table: RiskTable = RiskTable::new();
    table.insert("5411".to_owned(), Binary32::ratio(15, 100));
    table.insert("5812".to_owned(), Binary32::ratio(30, 100));
    table.insert("5912".to_owned(), Binary32::ratio(20, 100));
    table.insert("5944".to_owned(), Binary32::ratio(45, 100));
    table.insert("7801".to_owned(), Binary32::ratio(80, 100));
    table.insert("7802".to_owned(), Binary32::ratio(75, 100));
    table.insert("7995".to_owned(), Binary32::ratio(85, 100));
    table.insert("4511".to_owned(), Binary32::ratio(35, 100));
    table.insert("5311".to_owned(), Binary32::ratio(25, 100));
    table.insert("5999".to_owned(), Binary32::ratio(50, 100));
    table
}

/// Scales and risks that requests are read by.
#[derive(Debug)]
pub struct RuntimeConfig {
    pub normalization: Normalization,
    pub mcc_risk: RiskTable,
}

/// The risk of a code: the listed one, or a half.
pub open spec fn risk_of(mcc: Seq<char>, config: RuntimeConfig) -> Binary32 {
    if config.mcc_risk@.dom().contains(mcc) {
        config.mcc_risk@[mcc]
    } else {
        binary32::nearest_ratio(1, 2)
    }
}

/// The risk of a code: the listed one, or a half.
pub fn mcc_risk(mcc: &str, runtime_config: &RuntimeConfig) -> (r: Binary32)
    ensures
        r == risk_of(mcc@, *runtime_config),
{
    match runtime_config.mcc_risk.get(mcc) {
        Some(risk) => risk,
        None => Binary32::ratio(1, 2),
    }
}

/// The amount asked for, in how many parts, and when.
#[derive(Debug)]
pub struct TransactionPayload {
    pub amount: Binary32,
    pub installments: u32,
    pub requested_at: String,
}

/// What the customer usually does.
#[derive(Debug)]
pub struct CustomerPayload {
    pub avg_amount: Binary32,
    pub tx_count_24h: u32,
    pub known_merchants: Vec<String>,
}

/// The merchant, with its category code.
#[derive(Debug)]
pub struct MerchantPayload {
    pub id: String,
    pub mcc: String,
    pub avg_amount: Binary32,
}

/// The terminal that was used.
#[derive(Debug)]
pub struct TerminalPayload {
    pub is_online: bool,
    pub card_present: bool,
    pub km_from_home: Binary32,
}

/// The transaction before this one.
#[derive(Debug)]
pub struct LastTransactionPayload {
    pub timestamp: String,
    pub km_from_current: Binary32,
}

/// A transaction to be scored.
#[derive(Debug)]
pub struct FraudPayload {
    pub transaction: TransactionPayload,
    pub customer: CustomerPayload,
    pub merchant: MerchantPayload,
    pub terminal: TerminalPayload,
    pub last_transaction: Option<LastTransactionPayload>,
}

/// Which timestamp of a request is none.
#[derive(Clone, Copy, Debug, PartialEq, Eq, Structural)]
pub enum VectorizeError {
    RequestedAt,
    LastTransactionTimestamp,
}

/// A value rounded to four decimal places.
pub open spec fn rounded4(value: Binary32) -> Binary32 {
    binary32::product(
        binary32::rounded(binary32::product(value, binary32::from_natural(10_000))),
        binary32::nearest_ratio(1, 10_000),
    )
}

/// A value held between zero and one, to four decimal places.
pub open spec fn unit_value(value: Binary32) -> Binary32 {
    rounded4(binary32::clamped(value, binary32::zero(), binary32::from_natural(1)))
}

/// Rounds a value to four decimal places.
pub fn round4(value: Binary32) -> (r: Binary32)
    ensures
        r == rounded4(value),
{
    value.times(Binary32::from_u64(10_000)).round().times(Binary32::ratio(1, 10_000))
}

/// Holds a value between zero and one, to four decimal places.
pub fn clamp01(value: Binary32) -> (r: Binary32)
    ensures
        r == unit_value(value),
{
    round4(value.clamp_between(Binary32 { bits: 0 }, Binary32::from_u64(1)))
}

/// One where `b` holds, else zero.
pub open spec fn flag(b: bool) -> Binary32 {
    binary32::from_natural(
        if b {
            1
        } else {
            0
        },
    )
}

fn flag_value(b: bool) -> (r: Binary32)
    ensures
        r == flag(b),
{
    if b {
        Binary32::from_u64(1)
    } else {
        Binary32::from_u64(0)
    }
}

/// The value that stands for a missing previous transaction.
pub open spec fn sentinel() -> Binary32 {
    binary32::negated(binary32::from_natural(1))
}

/// Minutes from one timestamp to another, or zero where it does not follow.
pub open spec fn minutes_between(previous: Seq<char>, requested: Seq<char>) -> nat {
    rounding::max0(
        timestamp::timestamp_minutes(encode_utf8(requested)) - timestamp::timestamp_minutes(
            encode_utf8(previous),
        ),
    )
}

/// Whether a text is among the given ones.
pub open spec fn listed(texts: Seq<String>, wanted: Seq<char>) -> bool {
    exists|i: int| 0 <= i < texts.len() && (#[trigger] texts[i])@ == wanted
}

/// Whether the request's own timestamp can be read.
pub open spec fn requested_at_ok(payload: FraudPayload) -> bool {
    timestamp::is_timestamp(encode_utf8(payload.transaction.requested_at@))
}

/// Whether the previous transaction's timestamp can be read, if there is one.
pub open spec fn last_timestamp_ok(payload: FraudPayload) -> bool {
    payload.last_transaction matches Some(last) ==> timestamp::is_timestamp(
        encode_utf8(last.timestamp@),
    )
}

/// The vector of a request whose timestamps can be read.
pub open spec fn vector_of(payload: FraudPayload, config: RuntimeConfig) -> Seq<Binary32> {
    let n = config.normalization;
    let requested = encode_utf8(payload.transaction.requested_at@);
    let hour = timestamp::field(requested, 11, 13);
    let weekday = ((timestamp::timestamp_days(requested) + 3) % 7) as nat;
    seq![
        unit_value(binary32::quotient(payload.transaction.amount, n.max_amount)),
        unit_value(
            binary32::quotient(
                binary32::from_natural(payload.transaction.installments as nat),
                n.max_installments,
            ),
        ),
        if binary32::less(binary32::zero(), payload.customer.avg_amount) {
            unit_value(
                binary32::quotient(
                    binary32::quotient(payload.transaction.amount, payload.customer.avg_amount),
                    n.amount_vs_avg_ratio,
                ),
            )
        } else {
            binary32::from_natural(1)
        },
        rounded4(binary32::quotient(binary32::from_natural(hour), binary32::from_natural(23))),
        rounded4(binary32::quotient(binary32::from_natural(weekday), binary32::from_natural(6))),
        match payload.last_transaction {
            Some(last) => unit_value(
                binary32::quotient(
                    binary32::from_natural(
                        minutes_between(last.timestamp@, payload.transaction.requested_at@),
                    ),
                    n.max_minutes,
                ),
            ),
            None => sentinel(),
        },
        match payload.last_transaction {
            Some(last) => unit_value(binary32::quotient(last.km_from_current, n.max_km)),
            None => sentinel(),
        },
        unit_value(binary32::quotient(payload.terminal.km_from_home, n.max_km)),
        unit_value(
            binary32::quotient(
                binary32::from_natural(payload.customer.tx_count_24h as nat),
                n.max_tx_count_24h,
            ),
        ),
        flag(payload.terminal.is_online),
        flag(payload.terminal.card_present),
        flag(!listed(payload.customer.known_merchants@, payload.merchant.id@)),
        risk_of(payload.merchant.mcc@, config),
        unit_value(binary32::quotient(payload.merchant.avg_amount, n.max_merchant_avg_amount)),
    ]
}

fn is_listed(texts: &Vec<String>, wanted: &str) -> (r: bool)
    ensures
        r == listed(texts@, wanted@),
{
    let mut i: usize = 0;
    while i < texts.len()
        invariant
            i <= texts@.len(),
            forall|j: int| 0 <= j < i ==> (#[trigger] texts@[j])@ != wanted@,
        decreases texts@.len() - i,
    {
        if same_text(texts[i].as_str(), wanted) {
            assert(texts@[i as int]@ == wanted@);
            return true;
        }
        i += 1;
    }
    false
}

/// The vector of a request: fourteen values between zero and one, but for the
/// risk as it is listed and the values that stand for a missing previous
/// transaction.
pub fn vectorize_payload(payload: &FraudPayload, runtime_config: &RuntimeConfig) -> (r: Result<
    [Binary32; DIMS],
    VectorizeError,
>)
    ensures
        match r {
            Ok(vector) => requested_at_ok(*payload) && last_timestamp_ok(*payload) && vector@
                == vector_of(*payload, *runtime_config),
            Err(VectorizeError::RequestedAt) => !requested_at_ok(*payload),
            Err(VectorizeError::LastTransactionTimestamp) => requested_at_ok(*payload)
                && !last_timestamp_ok(*payload),
        },
{
    let n: Normalization = runtime_config.normalization;
    let requested: ParsedTimestamp = match parse_timestamp(
        payload.transaction.requested_at.as_str(),
    ) {
        Some(t) => t,
        None => {
            return Err(VectorizeError::RequestedAt);
        },
    };
    let one: Binary32 = Binary32::from_u64(1);
    let (minutes, km): (Binary32, Binary32) = match &payload.last_transaction {
        Some(last) => {
            let previous: ParsedTimestamp = match parse_timestamp(last.timestamp.as_str()) {
                Some(t) => t,
                None => {
                    return Err(VectorizeError::LastTransactionTimestamp);
                },
            };
            proof {
                timestamp::lemma_timestamp_range(
                    encode_utf8(payload.transaction.requested_at@),
                );
                timestamp::lemma_timestamp_range(encode_utf8(last.timestamp@));
            }
            let elapsed: i64 = requested.total_minutes - previous.total_minutes;
            let minutes: u64 = if elapsed > 0 {
                elapsed as u64
            } else {
                0
            };
            (
                clamp01(Binary32::from_u64(minutes).over(n.max_minutes)),
                clamp01(last.km_from_current.over(n.max_km)),
            )
        },
        None => (one.negate(), one.negate()),
    };
    let ratio: Binary32 = if (Binary32 { bits: 0 }).less_than(payload.customer.avg_amount) {
        clamp01(
            payload.transaction.amount.over(payload.customer.avg_amount).over(
                n.amount_vs_avg_ratio,
            ),
        )
    } else {
        one
    };
    let vector: [Binary32; DIMS] = [
        clamp01(payload.transaction.amount.over(n.max_amount)),
        clamp01(
            Binary32::from_u64(payload.transaction.installments as u64).over(n.max_installments),
        ),
        ratio,
        round4(Binary32::from_u64(requested.hour as u64).over(Binary32::from_u64(23))),
        round4(Binary32::from_u64(requested.day_of_week as u64).over(Binary32::from_u64(6))),
        minutes,
        km,
        clamp01(payload.terminal.km_from_home.over(n.max_km)),
        clamp01(Binary32::from_u64(payload.customer.tx_count_24h as u64).over(n.max_tx_count_24h)),
        flag_value(payload.terminal.is_online),
        flag_value(payload.terminal.card_present),
        flag_value(!is_listed(&payload.customer.known_merchants, payload.merchant.id.as_str())),
        mcc_risk(payload.merchant.mcc.as_str(), runtime_config),
        clamp01(payload.merchant.avg_amount.over(n.max_merchant_avg_amount)),
    ];
    assert(vector@ =~= vector_of(*payload, *runtime_config));
    Ok(vector)
}

/// Units of the value nearest to one part in ten thousand.
pub(crate) proof fn lemma_ten_thousandth()
    ensures
        binary32::nearest_ratio(1, 10_000).bits == 0x38d1_b717,
        binary32::nearest_ratio(1, 10_000).units() * 10_000 <= binary32::one_in_units(),
{
    reveal(binary32::nearest_ratio);
    lemma2_to64();
    lemma_pow2_adds(32, 5);
    lemma_pow2_adds(8, 6);
    assert(pow2(13) == 8192 && pow2(14) == 16384 && pow2(37) == 137_438_953_472);
    rounding::lemma_fraction_mag(1, 10_000, 13);
    assert(1 * pow2(149) == pow2(149)) by (nonlinear_arith);
    assert(1 * pow2(37) == 137_438_953_472);
    assert(rounding::nearest_even(137_438_953_472, 10_000) == 13_743_895);
    lemma_pow2_adds(37, 112);
    let p = pow2(112);
    assert((13_743_895 * p) * 10_000 <= 137_438_953_472 * p) by (nonlinear_arith);
    assert(rounding::mag_units(0x38d1_b717) == 13_743_895 * p);
}

/// Rounding a value within one to four places keeps it within one, and keeps
/// its sign.
pub(crate) proof fn lemma_rounded4_in_unit(v: Binary32)
    requires
        v.is_finite(),
        v.units() <= binary32::one_in_units(),
    ensures
        rounded4(v).is_finite(),
        rounded4(v).units() <= binary32::one_in_units(),
        rounded4(v).negative() == v.negative(),
        v.units() == 0 ==> rounded4(v).units() == 0,
{
    let one = binary32::one_in_units();
    let scale = binary32::from_natural(10_000);
    let part = binary32::nearest_ratio(1, 10_000);
    lemma_pow2_pos(149);
    binary32::lemma_natural_is_exact(10_000);
    binary32::lemma_natural_is_exact(1);
    binary32::lemma_product_units(v, scale, 10_000);
    let p = binary32::product(v, scale);
    assert(v.units() * 10_000 <= 10_000 * one) by (nonlinear_arith)
        requires
            v.units() <= one,
    ;
    rounding::lemma_nearest_mag_monotone(v.units() * 10_000, 10_000 * one, 1);
    reveal(binary32::from_natural);
    assert(p.mag() <= scale.mag());
    if p.mag() < scale.mag() {
        binary32::lemma_mag_units_increasing(p.mag(), scale.mag());
    }
    let whole = rounding::half_up(p.units(), one);
    assert(2 * p.units() + one <= 10_000 * (2 * one) + one) by (nonlinear_arith)
        requires
            p.units() <= 10_000 * one,
    ;
    lemma_div_is_ordered(
        (2 * p.units() + one) as int,
        (10_000 * (2 * one) + one) as int,
        (2 * one) as int,
    );
    lemma_fundamental_div_mod_converse(
        (10_000 * (2 * one) + one) as int,
        (2 * one) as int,
        10_000,
        one as int,
    );
    lemma_div_pos_is_pos((2 * p.units() + one) as int, (2 * one) as int);
    binary32::lemma_natural_is_exact(whole);
    reveal(binary32::rounded);
    let w = binary32::rounded(p);
    assert(w.units() == whole * one);
    lemma_ten_thousandth();
    binary32::lemma_product_units(part, w, whole);
    assert(part.units() * whole <= 1 * one) by (nonlinear_arith)
        requires
            part.units() * 10_000 <= one,
            whole <= 10_000,
    ;
    rounding::lemma_nearest_mag_monotone(part.units() * whole, 1 * one, 1);
    let r = rounded4(v);
    assert(r.mag() <= binary32::from_natural(1).mag());
    if r.mag() < binary32::from_natural(1).mag() {
        binary32::lemma_mag_units_increasing(r.mag(), binary32::from_natural(1).mag());
    }
    if v.units() == 0 {
        binary32::lemma_natural_is_exact(0);
        lemma_basic_div(one as int, 2 * one as int);
        assert(part.units() * 0 == 0);
    }
}

/// A clamped value that is a number lies between zero and one.
pub proof fn law_unit_value(v: Binary32)
    requires
        !v.is_nan(),
    ensures
        unit_value(v).is_finite(),
        0 <= unit_value(v).value() <= binary32::one_in_units(),
        0 <= quantize::quantized(unit_value(v)) <= quantize::QUANT_STEPS,
{
    let one = binary32::from_natural(1);
    let c = binary32::clamped(v, binary32::zero(), one);
    binary32::lemma_natural_is_exact(1);
    if c.mag() < one.mag() {
        binary32::lemma_mag_units_increasing(c.mag(), one.mag());
    }
    lemma_rounded4_in_unit(c);
    let r = unit_value(v);
    quantize::law_unit_steps(r);
    if r.negative() {
        assert(c.mag() == 0);
        lemma_pow2_pos(149);
        lemma_basic_div(
            binary32::one_in_units() as int,
            2 * binary32::one_in_units() as int,
        );
    }
}

/// A count over the largest one, to four places, lies between zero and one.
proof fn lemma_clock_in_unit(n: nat, most: nat)
    requires
        n <= most,
        0 < most <= 0x100_0000,
    ensures
        ({
            let r = rounded4(
                binary32::quotient(binary32::from_natural(n), binary32::from_natural(most)),
            );
            r.is_finite() && 0 <= r.value() <= binary32::one_in_units()
        }),
{
    let one = binary32::one_in_units();
    let a = binary32::from_natural(n);
    let b = binary32::from_natural(most);
    let v = binary32::quotient(a, b);
    lemma_pow2_pos(149);
    binary32::lemma_natural_is_exact(n);
    binary32::lemma_natural_is_exact(most);
    binary32::lemma_natural_is_exact(1);
    reveal(binary32::quotient);
    reveal(binary32::from_natural);
    assert(b.units() > 0 && a.units() * one <= b.units() * one) by (nonlinear_arith)
        requires
            a.units() == n * one,
            b.units() == most * one,
            n <= most,
            most > 0,
            one > 0,
    ;
    assert(b.units() * one == one * b.units() && 1 * b.units() == b.units()) by (nonlinear_arith);
    rounding::lemma_nearest_mag_monotone(a.units() * one, b.units() * one, b.units());
    rounding::lemma_nearest_mag_scale(one, 1, b.units());
    let top = binary32::from_natural(1);
    assert(v.mag() <= top.mag());
    if v.mag() < top.mag() {
        binary32::lemma_mag_units_increasing(v.mag(), top.mag());
    }
    lemma_rounded4_in_unit(v);
}

/// Whether a coordinate stays on the scale: no number, or between zero and one.
pub open spec fn on_scale(v: Binary32) -> bool {
    v.is_nan() || v.is_finite() && 0 <= v.value() <= binary32::one_in_units()
}

/// The clamping of a NaN is a NaN.
proof fn lemma_unit_value_on_scale(v: Binary32)
    ensures
        on_scale(unit_value(v)),
{
    if v.is_nan() {
        reveal(binary32::product);
        reveal(binary32::rounded);
    } else {
        law_unit_value(v);
    }
}

/// Every coordinate but the listed risk stays on the scale, or stands for a
/// missing previous transaction in the two places where that shows.
pub proof fn law_vector_on_scale(payload: FraudPayload, config: RuntimeConfig, dim: int)
    requires
        requested_at_ok(payload),
        0 <= dim < DIMS,
        dim != 12,
    ensures
        payload.last_transaction is None && (dim == 5 || dim == 6) ==> vector_of(
            payload,
            config,
        )[dim] == sentinel(),
        !(payload.last_transaction is None && (dim == 5 || dim == 6)) ==> on_scale(
            vector_of(payload, config)[dim],
        ),
        -(quantize::QUANT_STEPS as int) <= quantize::quantized(vector_of(payload, config)[dim])
            <= quantize::QUANT_STEPS,
{
    let v = vector_of(payload, config)[dim];
    let n = config.normalization;
    let requested = encode_utf8(payload.transaction.requested_at@);
    binary32::lemma_natural_is_exact(0);
    binary32::lemma_natural_is_exact(1);
    if dim == 3 {
        lemma_clock_in_unit(timestamp::field(requested, 11, 13), 23);
    } else if dim == 4 {
        lemma_clock_in_unit(((timestamp::timestamp_days(requested) + 3) % 7) as nat, 6);
    } else if dim == 0 {
        lemma_unit_value_on_scale(
            binary32::quotient(payload.transaction.amount, n.max_amount),
        );
    } else if dim == 1 {
        lemma_unit_value_on_scale(
            binary32::quotient(
                binary32::from_natural(payload.transaction.installments as nat),
                n.max_installments,
            ),
        );
    } else if dim == 2 {
        lemma_unit_value_on_scale(
            binary32::quotient(
                binary32::quotient(payload.transaction.amount, payload.customer.avg_amount),
                n.amount_vs_avg_ratio,
            ),
        );
    } else if dim == 5 && payload.last_transaction is Some {
        let last = payload.last_transaction->0;
        lemma_unit_value_on_scale(
            binary32::quotient(
                binary32::from_natural(
                    minutes_between(last.timestamp@, payload.transaction.requested_at@),
                ),
                n.max_minutes,
            ),
        );
    } else if dim == 6 && payload.last_transaction is Some {
        let last = payload.last_transaction->0;
        lemma_unit_value_on_scale(binary32::quotient(last.km_from_current, n.max_km));
    } else if dim == 7 {
        lemma_unit_value_on_scale(
            binary32::quotient(payload.terminal.km_from_home, n.max_km),
        );
    } else if dim == 8 {
        lemma_unit_value_on_scale(
            binary32::quotient(
                binary32::from_natural(payload.customer.tx_count_24h as nat),
                n.max_tx_count_24h,
            ),
        );
    } else if dim == 13 {
        lemma_unit_value_on_scale(
            binary32::quotient(payload.merchant.avg_amount, n.max_merchant_avg_amount),
        );
    }
    if !v.is_nan() {
        quantize::law_unit_steps(v);
    }
}

/// Whether a value stands for `n` hundredths.
pub open spec fn is_hundredths(v: Binary32, n: int) -> bool {
    let one = binary32::one_in_units() as int;
    v.is_finite() && 100_000 * accuracy::apart(100 * v.value(), n * one) <= one
}

proof fn lemma_hundredths(n: nat)
    requires
        n <= 100,
    ensures
        is_hundredths(binary32::nearest_ratio(n, 100), n as int),
{
    let one = binary32::one_in_units();
    accuracy::law_ratio_is_nearest(n, 100, binary32::zero());
    lemma2_to64();
    lemma_pow2_pos(85);
    lemma_pow2_adds(64, 85);
    assert(one >= 0x1_0000_0000_0000_0000) by (nonlinear_arith)
        requires
            one == pow2(64) * pow2(85),
            pow2(64) == 0x1_0000_0000_0000_0000,
            pow2(85) >= 1,
    ;
    assert(n * one <= 100 * one) by (nonlinear_arith)
        requires
            n <= 100,
    ;
}

/// Ten codes have a built-in risk, and which.
pub proof fn law_built_in_risks(code: Seq<char>)
    ensures
        ({
            let risks = built_in_risks();
            &&& risks.dom().contains(code) <==> code == "5411"@ || code == "5812"@ || code
                == "5912"@ || code == "5944"@ || code == "7801"@ || code == "7802"@ || code
                == "7995"@ || code == "4511"@ || code == "5311"@ || code == "5999"@
            &&& code == "5411"@ ==> is_hundredths(risks[code], 15)
            &&& code == "5812"@ ==> is_hundredths(risks[code], 30)
            &&& code == "5912"@ ==> is_hundredths(risks[code], 20)
            &&& code == "5944"@ ==> is_hundredths(risks[code], 45)
            &&& code == "7801"@ ==> is_hundredths(risks[code], 80)
            &&& code == "7802"@ ==> is_hundredths(risks[code], 75)
            &&& code == "7995"@ ==> is_hundredths(risks[code], 85)
            &&& code == "4511"@ ==> is_hundredths(risks[code], 35)
            &&& code == "5311"@ ==> is_hundredths(risks[code], 25)
            &&& code == "5999"@ ==> is_hundredths(risks[code], 50)
        }),
{
    lemma_codes_differ();
    lemma_hundredths(15);
    lemma_hundredths(30);
    lemma_hundredths(20);
    lemma_hundredths(45);
    lemma_hundredths(80);
    lemma_hundredths(75);
    lemma_hundredths(85);
    lemma_hundredths(35);
    lemma_hundredths(25);
    lemma_hundredths(50);
}

/// The number that four digits spell.
spec fn code_number(code: Seq<char>) -> int {
    1000 * (code[0] as int) + 100 * (code[1] as int) + 10 * (code[2] as int) + code[3] as int
}

proof fn lemma_codes_differ()
    ensures
        code_number("5411"@) == 53328 + 5411,
        code_number("5812"@) == 53328 + 5812,
        code_number("5912"@) == 53328 + 5912,
        code_number("5944"@) == 53328 + 5944,
        code_number("7801"@) == 53328 + 7801,
        code_number("7802"@) == 53328 + 7802,
        code_number("7995"@) == 53328 + 7995,
        code_number("4511"@) == 53328 + 4511,
        code_number("5311"@) == 53328 + 5311,
        code_number("5999"@) == 53328 + 5999,
{
    reveal_strlit("5411");
    reveal_strlit("5812");
    reveal_strlit("5912");
    reveal_strlit("5944");
    reveal_strlit("7801");
    reveal_strlit("7802");
    reveal_strlit("7995");
    reveal_strlit("4511");
    reveal_strlit("5311");
    reveal_strlit("5999");
}

/// A request can be read exactly where its own timestamp can, and that of its
/// previous transaction where it has one.
pub proof fn law_readable_requests(payload: FraudPayload)
    ensures
        requested_at_ok(payload) <==> timestamp::is_timestamp(
            encode_utf8(payload.transaction.requested_at@),
        ),
        payload.last_transaction is None ==> last_timestamp_ok(payload),
        payload.last_transaction matches Some(last) ==> (last_timestamp_ok(payload)
            <==> timestamp::is_timestamp(encode_utf8(last.timestamp@))),
{
}

/// Where no scales are given, amounts go up to ten thousand, installments to
/// twelve, ratios to ten, times to a day, ways to a thousand and counts to twenty.
pub proof fn law_default_scales()
    ensures
        ({
            let one = binary32::one_in_units();
            let scales = default_scales();
            &&& scales.max_amount.is_finite() && scales.max_amount.value() == 10_000 * one
            &&& scales.max_installments.is_finite() && scales.max_installments.value() == 12 * one
            &&& scales.amount_vs_avg_ratio.is_finite() && scales.amount_vs_avg_ratio.value() == 10
                * one
            &&& scales.max_minutes.is_finite() && scales.max_minutes.value() == 24 * 60 * one
            &&& scales.max_km.is_finite() && scales.max_km.value() == 1_000 * one
            &&& scales.max_tx_count_24h.is_finite() && scales.max_tx_count_24h.value() == 20 * one
            &&& scales.max_merchant_avg_amount.is_finite() && scales.max_merchant_avg_amount.value()
                == 10_000 * one
        }),
{
    binary32::lemma_natural_is_exact(10_000);
    binary32::lemma_natural_is_exact(12);
    binary32::lemma_natural_is_exact(10);
    binary32::lemma_natural_is_exact(1_440);
    binary32::lemma_natural_is_exact(1_000);
    binary32::lemma_natural_is_exact(20);
}

} // verus!
