//! What the scoring request's body says about a transaction, read without
//! parsing it as JSON: each field is found by its quoted key.
//!
//! Amounts and distances are decimal numbers; this module does not convert
//! them but reports where each one starts (`-1` when its key is missing), so
//! that the number can be read from that position.
use vstd::prelude::*;
use vstd::string::StringSliceAdditionalSpecFns;
use crate::scan::{
    matches_at, lemma_find_from,
    find_byte, find_from, find_after, find_direct, lemma_find_byte, position_of, position_of_byte,
    value_start, value_start_after,
};
use crate::numbers::{decimal_text, digits_value, lemma_decimal_text, usize_modulus, bool_at, int_at, is_digit, digit_value, parse_bool_fast, parse_int_fast, parse_string_fast, quoted_at};
use crate::timestamp::{day_of_week, fast_parse_time_str, hour_of, hour_of_day, timestamp_value, weekday_of};

verus! {

broadcast use vstd::string::is_ascii_spec_bytes;

/// The bytes of a text literal, as it is searched for in a buffer.
pub open spec fn key(s: &str) -> Seq<u8> {
    s.spec_bytes()
}

/// Every key that the request body is searched for is non-empty.
proof fn lemma_keys_nonempty()
    ensures
        key("\"amount\"").len() > 0,
        key("\"installments\"").len() > 0,
        key("\"requested_at\"").len() > 0,
        key("\"customer\"").len() > 0,
        key("\"avg_amount\"").len() > 0,
        key("\"tx_count_24h\"").len() > 0,
        key("\"known_merchants\"").len() > 0,
        key("\"merchant\"").len() > 0,
        key("\"id\"").len() > 0,
        key("\"mcc\"").len() > 0,
        key("\"is_online\"").len() > 0,
        key("\"card_present\"").len() > 0,
        key("\"km_from_home\"").len() > 0,
        key("\"last_transaction\"").len() > 0,
        key("null").len() > 0,
        key("\"timestamp\"").len() > 0,
        key("\"km_from_current\"").len() > 0,
{
    reveal_strlit("\"amount\"");
    reveal_strlit("\"installments\"");
    reveal_strlit("\"requested_at\"");
    reveal_strlit("\"customer\"");
    reveal_strlit("\"avg_amount\"");
    reveal_strlit("\"tx_count_24h\"");
    reveal_strlit("\"known_merchants\"");
    reveal_strlit("\"merchant\"");
    reveal_strlit("\"id\"");
    reveal_strlit("\"mcc\"");
    reveal_strlit("\"is_online\"");
    reveal_strlit("\"card_present\"");
    reveal_strlit("\"km_from_home\"");
    reveal_strlit("\"last_transaction\"");
    reveal_strlit("null");
    reveal_strlit("\"timestamp\"");
    reveal_strlit("\"km_from_current\"");
    assert(vstd::string::is_ascii("\"amount\""));
    assert(vstd::string::is_ascii("\"installments\""));
    assert(vstd::string::is_ascii("\"requested_at\""));
    assert(vstd::string::is_ascii("\"customer\""));
    assert(vstd::string::is_ascii("\"avg_amount\""));
    assert(vstd::string::is_ascii("\"tx_count_24h\""));
    assert(vstd::string::is_ascii("\"known_merchants\""));
    assert(vstd::string::is_ascii("\"merchant\""));
    assert(vstd::string::is_ascii("\"id\""));
    assert(vstd::string::is_ascii("\"mcc\""));
    assert(vstd::string::is_ascii("\"is_online\""));
    assert(vstd::string::is_ascii("\"card_present\""));
    assert(vstd::string::is_ascii("\"km_from_home\""));
    assert(vstd::string::is_ascii("\"last_transaction\""));
    assert(vstd::string::is_ascii("null"));
    assert(vstd::string::is_ascii("\"timestamp\""));
    assert(vstd::string::is_ascii("\"km_from_current\""));
}

/// Where the request's previous transaction is described.
pub struct LastTransaction {
    /// Seconds from the previous transaction to this request.
    pub seconds_since: i64,
    /// Where the distance from the previous transaction's place starts.
    pub km_from_current_at: isize,
}

/// The plain facts of a scoring request.
pub struct Features {
    /// Where the amount starts.
    pub amount_at: isize,
    /// The number of installments.
    pub installments: i64,
    /// Where the customer's average amount starts.
    pub customer_avg_amount_at: isize,
    /// The customer's number of transactions in the last 24 hours.
    pub tx_count_24h: i64,
    /// The hour of the day of the request, 0 to 23.
    pub request_hour: i64,
    /// The day of the week of the request, 0 (Monday) to 6.
    pub request_weekday: i64,
    /// The previous transaction, when the request names one with a timestamp.
    pub last_transaction: Option<LastTransaction>,
    /// Where the distance from the customer's home starts.
    pub km_from_home_at: isize,
    /// The transaction is made online.
    pub is_online: bool,
    /// The card is present.
    pub card_present: bool,
    /// The merchant is among the customer's known merchants.
    pub known_merchant: bool,
    /// The merchant category code.
    pub mcc: usize,
    /// Where the merchant's average amount starts.
    pub merchant_avg_amount_at: isize,
}

/// The integer at `idx`, or 0 when `idx` is negative (a missing key).
pub open spec fn int_or_zero(b: Seq<u8>, idx: int) -> int {
    if idx >= 0 {
        int_at(b, idx as nat).0
    } else {
        0
    }
}

/// The boolean at `idx`, or false when `idx` is negative (a missing key).
pub open spec fn bool_or_false(b: Seq<u8>, idx: int) -> bool {
    if idx >= 0 {
        bool_at(b, idx as nat).0
    } else {
        false
    }
}

/// The quoted string at `idx`, or nothing when `idx` is negative (a missing key).
pub open spec fn string_or_empty(b: Seq<u8>, idx: int) -> Seq<u8> {
    if idx >= 0 {
        quoted_at(b, idx as nat).0
    } else {
        Seq::empty()
    }
}

/// The timestamp of the request.
pub open spec fn request_time(b: Seq<u8>) -> int {
    timestamp_value(string_or_empty(b, value_start(b, key("\"requested_at\""))))
}

/// The customer's known merchants: the bracketed list that stands as the value
/// of `"known_merchants"`, brackets included; empty when the value is not a
/// list or the list is not closed.
pub open spec fn known_merchants_block(b: Seq<u8>) -> Seq<u8> {
    let ks = value_start(b, key("\"known_merchants\""));
    if 0 <= ks < b.len() && b[ks] == 91 {
        match find_byte(b, 93, ks as nat) {
            Some(e) => b.subrange(ks, e + 1 as int),
            None => Seq::empty(),
        }
    } else {
        Seq::empty()
    }
}

/// The merchant's id: the string value of `"id"` after `"merchant"`.
pub open spec fn merchant_id(b: Seq<u8>) -> Seq<u8> {
    string_or_empty(b, value_start_after(b, key("\"merchant\""), key("\"id\"")))
}

/// The merchant's id occurs in the list of the customer's known merchants.
pub open spec fn is_known_merchant(b: Seq<u8>) -> bool {
    let block = known_merchants_block(b);
    let id = merchant_id(b);
    block.len() > 0 && id.len() > 0 && find_from(block, id, 0) is Some
}

/// The number that the digits of `s` spell, skipping every other byte.
pub open spec fn digits_skipping_others(s: Seq<u8>) -> int
    decreases s.len(),
{
    if s.len() == 0 {
        0
    } else if is_digit(s.last()) {
        digits_skipping_others(s.drop_last()) * 10 + digit_value(s.last())
    } else {
        digits_skipping_others(s.drop_last())
    }
}

/// The merchant category code: the digits of the string value of `"mcc"`, in
/// wrapping `usize` arithmetic.
pub open spec fn mcc_of(b: Seq<u8>) -> int {
    digits_skipping_others(string_or_empty(b, value_start(b, key("\"mcc\"")))) % usize_modulus()
}

/// The part of the body from the first `"last_transaction"` on.
pub open spec fn last_block(b: Seq<u8>, ls: nat) -> Seq<u8> {
    b.subrange(ls as int, b.len() as int)
}

/// The previous transaction: found when `"last_transaction"` occurs and the
/// value of its `"timestamp"` starts before the first `null` after it (if any)
/// and is a non-empty string.
pub open spec fn last_transaction_of(b: Seq<u8>) -> Option<LastTransaction> {
    match find_from(b, key("\"last_transaction\""), 0) {
        None => None,
        Some(ls) => {
            let sub = last_block(b, ls);
            let null_idx: int = match find_from(sub, key("null"), 0) {
                Some(n) => n as int,
                None => usize::MAX as int,
            };
            let t = value_start_after(sub, key("\"last_transaction\""), key("\"timestamp\""));
            if t >= 0 && t < null_idx && quoted_at(sub, t as nat).0.len() > 0 {
                Some(
                    LastTransaction {
                        seconds_since: (request_time(b) - timestamp_value(
                            quoted_at(sub, t as nat).0,
                        )) as i64,
                        km_from_current_at: (ls + value_start_after(
                            sub,
                            key("\"last_transaction\""),
                            key("\"km_from_current\""),
                        )) as isize,
                    },
                )
            } else {
                None
            }
        },
    }
}

/// A code written in decimal digits reads as the number the digits spell: for
/// a string of ASCII digits `'0'..'9'`, each digit counts with its value (the
/// byte `'0'` as 0) in base ten.
pub proof fn lemma_category_code_of_digits(s: Seq<u8>)
    requires
        forall|k: int| 0 <= k < s.len() ==> 48 <= #[trigger] s[k] <= 57,
    ensures
        digits_skipping_others(s) == digits_value(s),
        s.len() > 0 ==> digits_skipping_others(s) == digits_skipping_others(s.drop_last()) * 10 + (
        s.last() - 48),
    decreases s.len(),
{
    if s.len() > 0 {
        assert(forall|k: int| 0 <= k < s.len() - 1 ==> s.drop_last()[k] == s[k]);
        lemma_category_code_of_digits(s.drop_last());
    }
}

/// The decimal text of any number reads back as that number.
pub proof fn lemma_category_code_roundtrip(n: nat)
    ensures
        digits_skipping_others(decimal_text(n)) == n,
{
    lemma_decimal_text(n);
    lemma_category_code_of_digits(decimal_text(n));
}

/// A byte that is not a digit does not change the code, wherever it stands.
pub proof fn lemma_category_code_skips_non_digits(s1: Seq<u8>, c: u8, s2: Seq<u8>)
    requires
        !(48 <= c <= 57),
    ensures
        digits_skipping_others(s1 + seq![c] + s2) == digits_skipping_others(s1 + s2),
    decreases s2.len(),
{
    if s2.len() == 0 {
        assert((s1 + seq![c] + s2).drop_last() =~= s1);
        assert(s1 + s2 =~= s1);
    } else {
        let l = s2.drop_last();
        lemma_category_code_skips_non_digits(s1, c, l);
        assert((s1 + seq![c] + s2).drop_last() =~= s1 + seq![c] + l);
        assert((s1 + s2).drop_last() =~= s1 + l);
        assert((s1 + seq![c] + s2).last() == s2.last());
        assert((s1 + s2).last() == s2.last());
    }
}

/// The merchant is known exactly when its id occurs somewhere in the
/// customer's list of known merchants (both non-empty).
pub proof fn lemma_known_merchant_iff_listed(b: Seq<u8>)
    ensures
        is_known_merchant(b) <==> (known_merchants_block(b).len() > 0 && merchant_id(b).len() > 0
            && exists|i: int| matches_at(known_merchants_block(b), merchant_id(b), i)),
{
    let block = known_merchants_block(b);
    let id = merchant_id(b);
    lemma_find_from(block, id, 0);
    match find_from(block, id, 0) {
        Some(i) => {
            assert(matches_at(block, id, i as int));
        },
        None => {},
    }
}

/// In particular, a merchant id written as an entry anywhere in the list (a
/// quoted string between other bytes) makes the merchant known.
pub proof fn lemma_listed_merchant_is_known(b: Seq<u8>, before: Seq<u8>, after: Seq<u8>)
    requires
        merchant_id(b).len() > 0,
        known_merchants_block(b) == before + merchant_id(b) + after,
    ensures
        is_known_merchant(b),
{
    let block = known_merchants_block(b);
    let id = merchant_id(b);
    assert(block.subrange(before.len() as int, before.len() + id.len() as int) =~= id);
    assert(matches_at(block, id, before.len() as int));
    lemma_known_merchant_iff_listed(b);
}

/// The list of known merchants is the text from the `[` that opens the value
/// of `"known_merchants"` through the first `]` after it; there is no list when
/// the value does not open with `[` or no `]` follows.
pub proof fn lemma_known_merchants_block_characterized(b: Seq<u8>)
    ensures
        ({
            let ks = value_start(b, key("\"known_merchants\""));
            &&& (!(0 <= ks < b.len() && b[ks] == 91) ==> known_merchants_block(b).len() == 0)
            &&& (0 <= ks < b.len() && b[ks] == 91 && (forall|j: int| ks <= j < b.len() ==> b[j]
                != 93)) ==> known_merchants_block(b).len() == 0
            &&& forall|e: int|
                0 <= ks < b.len() && b[ks] == 91 && ks <= e < b.len() && b[e] == 93 && (forall|j: int|
                    ks <= j < e ==> b[j] != 93) ==> known_merchants_block(b) == b.subrange(
                    ks,
                    e + 1,
                )
        }),
{
    let ks = value_start(b, key("\"known_merchants\""));
    if 0 <= ks < b.len() {
        lemma_find_byte(b, 93, ks as nat);
        assert forall|e: int|
            0 <= ks < b.len() && b[ks] == 91 && ks <= e < b.len() && b[e] == 93 && (forall|j: int|
                ks <= j < e ==> b[j] != 93) implies known_merchants_block(b) == b.subrange(
            ks,
            e + 1,
        ) by {
            match find_byte(b, 93, ks as nat) {
                Some(f) => {
                    if f < e {
                        assert(b[f as int] != 93);
                    }
                    if e < f {
                        assert(b[e] != 93);
                    }
                },
                None => {
                    assert(b[e] != 93);
                },
            }
        }
        if b[ks] == 91 && (forall|j: int| ks <= j < b.len() ==> b[j] != 93) {
            match find_byte(b, 93, ks as nat) {
                Some(f) => {
                    assert(b[f as int] != 93);
                },
                None => {},
            }
        }
    }
}

/// Without a `"last_transaction"` key there is no previous transaction.
pub proof fn lemma_no_last_transaction_key(b: Seq<u8>)
    requires
        forall|j: int| !matches_at(b, key("\"last_transaction\""), j),
    ensures
        last_transaction_of(b) is None,
{
    lemma_find_from(b, key("\"last_transaction\""), 0);
    match find_from(b, key("\"last_transaction\""), 0) {
        Some(i) => {
            assert(!matches_at(b, key("\"last_transaction\""), i as int));
        },
        None => {},
    }
}

fn int_or_zero_at(b: &[u8], idx: isize) -> (r: i64)
    requires
        idx <= b@.len(),
    ensures
        r == int_or_zero(b@, idx as int),
{
    if idx >= 0 {
        parse_int_fast(b, idx as usize).0
    } else {
        0
    }
}

fn bool_or_false_at(b: &[u8], idx: isize) -> (r: bool)
    requires
        idx <= b@.len() <= isize::MAX,
    ensures
        r == bool_or_false(b@, idx as int),
{
    if idx >= 0 {
        parse_bool_fast(b, idx as usize).0
    } else {
        false
    }
}

fn string_or_empty_at(b: &[u8], idx: isize) -> (r: &[u8])
    ensures
        r@ == string_or_empty(b@, idx as int),
{
    if idx >= 0 {
        parse_string_fast(b, idx as usize).0
    } else {
        let empty = &b[0..0];
        assert(empty@ =~= Seq::<u8>::empty());
        empty
    }
}

/// The number that the digits of `s` spell, skipping every other byte, in
/// wrapping `usize` arithmetic.
pub fn mcc_code(s: &[u8]) -> (r: usize)
    ensures
        r == digits_skipping_others(s@) % usize_modulus(),
{
    let mut m: usize = 0;
    let mut i: usize = 0;
    let n = s.len();
    assert(s@.subrange(0, 0) =~= Seq::<u8>::empty());
    proof {
        vstd::arithmetic::div_mod::lemma_small_mod(0, usize_modulus() as nat);
    }
    while i < n
        invariant
            n == s@.len(),
            i <= n,
            m == digits_skipping_others(s@.subrange(0, i as int)) % usize_modulus(),
        decreases n - i,
    {
        let c = s[i];
        proof {
            let t = s@.subrange(0, i + 1);
            assert(t.drop_last() =~= s@.subrange(0, i as int));
            assert(t.last() == c);
        }
        if 48 <= c && c <= 57 {
            let d = (c - 48) as usize;
            proof {
                let x = digits_skipping_others(s@.subrange(0, i as int));
                let md = usize_modulus();
                vstd::arithmetic::div_mod::lemma_mul_mod_noop_left(x, 10, md);
                vstd::arithmetic::div_mod::lemma_add_mod_noop(x * 10, d as int, md);
                vstd::arithmetic::div_mod::lemma_mod_twice(x * 10, md);
                vstd::arithmetic::div_mod::lemma_small_mod(d as nat, md as nat);
                let p = vstd::wrapping::usize_specs::wrapping_mul(m, 10);
                assert(p == (m * 10) % md);
                if p + d > usize::MAX {
                    vstd::arithmetic::div_mod::lemma_mod_multiples_vanish(-1, p + d, md);
                    vstd::arithmetic::div_mod::lemma_small_mod((p + d - md) as nat, md as nat);
                } else {
                    vstd::arithmetic::div_mod::lemma_small_mod((p + d) as nat, md as nat);
                }
            }
            m = m.wrapping_mul(10).wrapping_add(d);
        }
        i = i + 1;
    }
    assert(s@.subrange(0, n as int) =~= s@);
    m
}

/// The customer's known merchants (see `known_merchants_block`).
fn known_merchants_at(body: &[u8]) -> (r: &[u8])
    requires
        body@.len() <= isize::MAX,
    ensures
        r@ == known_merchants_block(body@),
{
    proof {
        lemma_keys_nonempty();
    }
    let known_start = find_direct(body, "\"known_merchants\"".as_bytes());
    if known_start >= 0 && (known_start as usize) < body.len() && body[known_start as usize] == 91 {
        let start_u = known_start as usize;
        match position_of_byte(body, 93, start_u) {
            Some(end) => {
                proof {
                    lemma_find_byte(body@, 93, start_u as nat);
                }
                return &body[start_u..end + 1];
            },
            None => {},
        }
    }
    let empty = &body[0..0];
    assert(empty@ =~= Seq::<u8>::empty());
    empty
}

/// Whether the merchant is among the customer's known merchants.
fn merchant_is_known(body: &[u8]) -> (r: bool)
    requires
        body@.len() <= isize::MAX,
    ensures
        r == is_known_merchant(body@),
{
    proof {
        lemma_keys_nonempty();
    }
    let known_block = known_merchants_at(body);
    let merch_id = string_or_empty_at(
        body,
        find_after(body, "\"merchant\"".as_bytes(), "\"id\"".as_bytes()),
    );
    if known_block.len() > 0 && merch_id.len() > 0 {
        position_of(known_block, merch_id).is_some()
    } else {
        false
    }
}

/// The previous transaction (see `last_transaction_of`).
fn last_transaction_in(body: &[u8], req_unix: i64) -> (r: Option<LastTransaction>)
    requires
        body@.len() <= isize::MAX,
        req_unix == request_time(body@),
        -0x4_0000_0000_0000 <= req_unix <= 0x4_0000_0000_0000,
    ensures
        r == last_transaction_of(body@),
{
    proof {
        lemma_keys_nonempty();
    }
    let last_key = "\"last_transaction\"".as_bytes();
    match position_of(body, last_key) {
        None => None,
        Some(last_start) => {
            proof {
                crate::scan::lemma_find_from(body@, last_key@, 0);
            }
            let sub = &body[last_start..body.len()];
            assert(sub@ == last_block(body@, last_start as nat));
            let null_idx = match position_of(sub, "null".as_bytes()) {
                Some(n) => n,
                None => usize::MAX,
            };
            let time_idx = find_after(sub, last_key, "\"timestamp\"".as_bytes());
            if time_idx >= 0 && (time_idx as usize) < null_idx {
                let last_ts = parse_string_fast(sub, time_idx as usize).0;
                if last_ts.len() > 0 {
                    let km_rel = find_after(sub, last_key, "\"km_from_current\"".as_bytes());
                    let last_unix = fast_parse_time_str(last_ts);
                    return Some(
                        LastTransaction {
                            seconds_since: req_unix - last_unix,
                            km_from_current_at: last_start as isize + km_rel,
                        },
                    );
                }
            }
            None
        },
    }
}

/// Reads the plain facts of a scoring request from its body.
pub fn extract_features(body: &[u8]) -> (r: Features)
    requires
        body@.len() <= isize::MAX,
    ensures
        r.amount_at == value_start(body@, key("\"amount\"")),
        r.installments == int_or_zero(body@, value_start(body@, key("\"installments\""))),
        r.customer_avg_amount_at == value_start_after(
            body@,
            key("\"customer\""),
            key("\"avg_amount\""),
        ),
        r.tx_count_24h == int_or_zero(body@, value_start(body@, key("\"tx_count_24h\""))),
        r.request_hour == hour_of(request_time(body@)),
        r.request_weekday == weekday_of(request_time(body@)),
        0 <= r.request_hour <= 23,
        0 <= r.request_weekday <= 6,
        r.last_transaction == last_transaction_of(body@),
        r.km_from_home_at == value_start(body@, key("\"km_from_home\"")),
        r.is_online == bool_or_false(body@, value_start(body@, key("\"is_online\""))),
        r.card_present == bool_or_false(body@, value_start(body@, key("\"card_present\""))),
        r.known_merchant == is_known_merchant(body@),
        r.mcc == mcc_of(body@),
        r.merchant_avg_amount_at == value_start_after(
            body@,
            key("\"merchant\""),
            key("\"avg_amount\""),
        ),
{
    proof {
        lemma_keys_nonempty();
    }
    let amount_at = find_direct(body, "\"amount\"".as_bytes());
    let installments = int_or_zero_at(body, find_direct(body, "\"installments\"".as_bytes()));
    let req_at = string_or_empty_at(body, find_direct(body, "\"requested_at\"".as_bytes()));
    let customer_avg_amount_at = find_after(
        body,
        "\"customer\"".as_bytes(),
        "\"avg_amount\"".as_bytes(),
    );
    let tx_count_24h = int_or_zero_at(body, find_direct(body, "\"tx_count_24h\"".as_bytes()));
    let known_merchant = merchant_is_known(body);
    let mcc_bytes = string_or_empty_at(body, find_direct(body, "\"mcc\"".as_bytes()));
    let merchant_avg_amount_at = find_after(
        body,
        "\"merchant\"".as_bytes(),
        "\"avg_amount\"".as_bytes(),
    );
    let is_online = bool_or_false_at(body, find_direct(body, "\"is_online\"".as_bytes()));
    let card_present = bool_or_false_at(body, find_direct(body, "\"card_present\"".as_bytes()));
    let km_from_home_at = find_direct(body, "\"km_from_home\"".as_bytes());
    let req_unix = fast_parse_time_str(req_at);
    let last_transaction = last_transaction_in(body, req_unix);
    Features {
        amount_at,
        installments,
        customer_avg_amount_at,
        tx_count_24h,
        request_hour: hour_of_day(req_unix),
        request_weekday: day_of_week(req_unix),
        last_transaction,
        km_from_home_at,
        is_online,
        card_present,
        known_merchant,
        mcc: mcc_code(mcc_bytes),
        merchant_avg_amount_at,
    }
}

} // verus!
