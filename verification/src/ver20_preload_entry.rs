//! Separate bitmasks per 64-byte block, values read from the eight bytes before each
//! line break with the sign taken from bytes 3 and 4, statistics in a linear-probing
//! table whose slot is a 20-bit fold of the packed name.
use vstd::prelude::*;
use crate::format::{is_digit, MINUS};
use crate::table::{
    agg_add, agg_fits, first_stop, save_slots, Aggregation, EntryModel, HOME_SLOTS, TABLE_SLOTS,
};
use crate::ver22::{hash_code_of, AggrHashTable};

pub use crate::bits::truncate_key_normal;
pub use crate::ver22::{check_result, truncate_key_simd, FileReader};

verus! {

/// This variant's statistics table: the table of [`crate::ver22`], whose scan it shares.
pub type AggrInfo = AggrHashTable;

/// A byte read as a decimal digit: `b - 48` for `0` to `9`, 0 for every other byte.
pub open spec fn decimal_digit(b: u8) -> int {
    if is_digit(b) {
        b - 48
    } else {
        0
    }
}

/// Bytes 4 to 7 of an eight-byte window read as decimal digits of weight 100, 10, 0
/// and 1; other bytes count as 0.
pub open spec fn window_decimal(val: Seq<u8>) -> int {
    decimal_digit(val[4]) * 100 + decimal_digit(val[5]) * 10 + decimal_digit(val[7])
}

/// The window read as [`window_decimal`], negated when byte 3 or 4 is `-`.
pub open spec fn window_value_34(val: Seq<u8>) -> int {
    if val[3] == MINUS || val[4] == MINUS {
        -window_decimal(val)
    } else {
        window_decimal(val)
    }
}

/// A byte read as a decimal digit.
pub(crate) fn digit_of(b: u8) -> (r: i16)
    ensures
        r == decimal_digit(b),
{
    if b >= 48 && b <= 57 {
        (b - 48) as i16
    } else {
        0
    }
}

/// The decimal digits of bytes 4, 5 and 7 with weights 100, 10 and 1.
pub(crate) fn window_digits(val: &[u8; 8]) -> (r: i16)
    ensures
        r == window_decimal(val@),
{
    digit_of(val[4]) * 100 + digit_of(val[5]) * 10 + digit_of(val[7])
}

/// Reads the eight bytes that end a value, `?..?-dd.d`: bytes 4 to 7 are decimal
/// digits of weight 100, 10, 0 and 1, other bytes counting 0, and the number is
/// negative when byte 3 or 4 is `-`.
pub fn parse_value_u8x8(val: [u8; 8]) -> (r: i16)
    ensures
        r == window_value_34(val@),
{
    let sum = window_digits(&val);
    if val[3] == MINUS || val[4] == MINUS {
        -sum
    } else {
        sum
    }
}

/// Reads the eight bytes that end a value without its sign, as
/// [`crate::ver20::parse_value_u8x8`] does: the decimal digits of bytes 4, 5 and 7.
pub fn parse_value_u8x8_old(val: [u8; 8]) -> (r: i16)
    ensures
        r == window_decimal(val@),
{
    crate::ver20::parse_value_u8x8(val)
}

/// Reads four eight-byte windows as [`parse_value_u8x8`] reads one.
pub fn parse_numbers_batch4(val1: [u8; 8], val2: [u8; 8], val3: [u8; 8], val4: [u8; 8]) -> (r: (
    i16,
    i16,
    i16,
    i16,
))
    ensures
        r.0 == window_value_34(val1@),
        r.1 == window_value_34(val2@),
        r.2 == window_value_34(val3@),
        r.3 == window_value_34(val4@),
{
    (parse_value_u8x8(val1), parse_value_u8x8(val2), parse_value_u8x8(val3), parse_value_u8x8(val4))
}

/// A slot with its statistics replaced.
pub open spec fn with_data(e: EntryModel, d: Aggregation) -> EntryModel {
    EntryModel { key_hash: e.key_hash, data: d, key: e.key }
}

/// The slots after four values are added at once to the statistics their home slots
/// held before any of them was written: each write replaces the slot's statistics with
/// its own sum, so a later write to the same slot overwrites an earlier one.
pub open spec fn fast_batch(
    m: Seq<EntryModel>,
    c: (int, int, int, int),
    v: (i32, i32, i32, i32),
) -> Seq<EntryModel> {
    let m1 = m.update(c.0, with_data(m[c.0], agg_add(m[c.0].data, v.0)));
    let m2 = m1.update(c.1, with_data(m1[c.1], agg_add(m[c.1].data, v.1)));
    let m3 = m2.update(c.2, with_data(m2[c.2], agg_add(m[c.2].data, v.2)));
    m3.update(c.3, with_data(m3[c.3], agg_add(m[c.3].data, v.3)))
}

/// Four values for four distinct keys, each already held by the slot the write goes
/// to: writing them together from the statistics read first ([`fast_batch`]) records the
/// same as recording them one after the other, and fits exactly when each of those
/// recordings does.
pub proof fn lemma_fast_batch_sequential(
    m: Seq<EntryModel>,
    c: (int, int, int, int),
    k: ((u64, u64), (u64, u64), (u64, u64), (u64, u64)),
    n: (Seq<u8>, Seq<u8>, Seq<u8>, Seq<u8>),
    v: (i32, i32, i32, i32),
)
    requires
        0 <= c.0 < m.len(),
        0 <= c.1 < m.len(),
        0 <= c.2 < m.len(),
        0 <= c.3 < m.len(),
        m[c.0].key_hash == k.0,
        m[c.1].key_hash == k.1,
        m[c.2].key_hash == k.2,
        m[c.3].key_hash == k.3,
        k.0 != k.1,
        k.0 != k.2,
        k.0 != k.3,
        k.1 != k.2,
        k.1 != k.3,
        k.2 != k.3,
    ensures
        ({
            let s1 = save_slots(m, c.0, n.0, k.0, v.0);
            let s2 = save_slots(s1->0, c.1, n.1, k.1, v.1);
            let s3 = save_slots(s2->0, c.2, n.2, k.2, v.2);
            let s4 = save_slots(s3->0, c.3, n.3, k.3, v.3);
            &&& fast_fits(m, c, v) == (s1 is Some && s2 is Some && s3 is Some && s4 is Some)
            &&& fast_fits(m, c, v) ==> s4 == Some(fast_batch(m, c, v))
        }),
{
    let s1 = save_slots(m, c.0, n.0, k.0, v.0);
    assert(first_stop(m, k.0, c.0, c.0) == c.0);
    if agg_fits(m[c.0].data, v.0 as int) {
        let m1 = s1->0;
        assert(m1[c.1] == m[c.1]);
        assert(first_stop(m1, k.1, c.1, c.1) == c.1);
        let s2 = save_slots(m1, c.1, n.1, k.1, v.1);
        if agg_fits(m[c.1].data, v.1 as int) {
            let m2 = s2->0;
            assert(m2[c.2] == m[c.2]);
            assert(first_stop(m2, k.2, c.2, c.2) == c.2);
            let s3 = save_slots(m2, c.2, n.2, k.2, v.2);
            if agg_fits(m[c.2].data, v.2 as int) {
                let m3 = s3->0;
                assert(m3[c.3] == m[c.3]);
                assert(first_stop(m3, k.3, c.3, c.3) == c.3);
            }
        }
    }
}

/// Whether the four values fit the statistics their home slots hold.
pub open spec fn fast_fits(m: Seq<EntryModel>, c: (int, int, int, int), v: (i32, i32, i32, i32)) -> bool {
    &&& agg_fits(m[c.0].data, v.0 as int)
    &&& agg_fits(m[c.1].data, v.1 as int)
    &&& agg_fits(m[c.2].data, v.2 as int)
    &&& agg_fits(m[c.3].data, v.3 as int)
}

/// The statistics after one more value, `None` when the count or sum would overflow.
fn add_value(d: Aggregation, v: i32) -> (r: Option<Aggregation>)
    ensures
        r is Some <==> agg_fits(d, v as int),
        r matches Some(n) ==> n == agg_add(d, v),
{
    if d.count == u32::MAX {
        return None;
    }
    match d.sum.checked_add(v) {
        Some(sum) => Some(
            Aggregation {
                min: if v < d.min { v } else { d.min },
                max: if v > d.max { v } else { d.max },
                count: d.count + 1,
                sum,
            },
        ),
        None => None,
    }
}

impl AggrHashTable {
    /// Records four values as recording them one after the other with
    /// [`AggrHashTable::save_item_u64x2`] does. When the four keys are distinct and the
    /// home slot of each already holds it, the four slots' statistics are read first and
    /// each written back with its value added (false, with nothing written, when a
    /// count or sum would overflow), which records the same
    /// ([`lemma_fast_batch_sequential`]); otherwise the four are recorded one by one,
    /// false as soon as one fails.
    pub fn batch_save_item(
        &mut self,
        key1: &[u8],
        hash1: (u64, u64),
        value1: i16,
        key2: &[u8],
        hash2: (u64, u64),
        value2: i16,
        key3: &[u8],
        hash3: (u64, u64),
        value3: i16,
        key4: &[u8],
        hash4: (u64, u64),
        value4: i16,
    ) -> (ok: bool)
        requires
            old(self).linear_hash_table@.len() == TABLE_SLOTS,
        ensures
            final(self).linear_hash_table@.len() == TABLE_SLOTS,
            ({
                let m = old(self).slots_of();
                let c = (hash_code_of(hash1), hash_code_of(hash2), hash_code_of(hash3), hash_code_of(hash4));
                let v = (value1 as i32, value2 as i32, value3 as i32, value4 as i32);
                let s1 = crate::table::save_slots(m, c.0, key1@, hash1, v.0);
                let s2 = crate::table::save_slots(s1->0, c.1, key2@, hash2, v.1);
                let s3 = crate::table::save_slots(s2->0, c.2, key3@, hash3, v.2);
                let s4 = crate::table::save_slots(s3->0, c.3, key4@, hash4, v.3);
                &&& ok == (s1 is Some && s2 is Some && s3 is Some && s4 is Some)
                &&& ok ==> final(self).slots_of() == s4->0
            }),
    {
        let c1 = Self::compute_hash_code(hash1) % HOME_SLOTS;
        let c2 = Self::compute_hash_code(hash2) % HOME_SLOTS;
        let c3 = Self::compute_hash_code(hash3) % HOME_SLOTS;
        let c4 = Self::compute_hash_code(hash4) % HOME_SLOTS;
        let ghost m = self.slots_of();
        proof {
            assert(m[c1 as int] == crate::table::entry_model(self.linear_hash_table@[c1 as int]));
            assert(m[c2 as int] == crate::table::entry_model(self.linear_hash_table@[c2 as int]));
            assert(m[c3 as int] == crate::table::entry_model(self.linear_hash_table@[c3 as int]));
            assert(m[c4 as int] == crate::table::entry_model(self.linear_hash_table@[c4 as int]));
        }
        let h1 = self.linear_hash_table[c1].key_hash;
        let h2 = self.linear_hash_table[c2].key_hash;
        let h3 = self.linear_hash_table[c3].key_hash;
        let h4 = self.linear_hash_table[c4].key_hash;
        let all_matched = h1.0 == hash1.0 && h1.1 == hash1.1 && h2.0 == hash2.0 && h2.1 == hash2.1
            && h3.0 == hash3.0 && h3.1 == hash3.1 && h4.0 == hash4.0 && h4.1 == hash4.1;
        let distinct = (hash1.0 != hash2.0 || hash1.1 != hash2.1) && (hash1.0 != hash3.0 || hash1.1 != hash3.1)
            && (hash1.0 != hash4.0 || hash1.1 != hash4.1) && (hash2.0 != hash3.0 || hash2.1 != hash3.1) && (
        hash2.0 != hash4.0 || hash2.1 != hash4.1) && (hash3.0 != hash4.0 || hash3.1 != hash4.1);
        if all_matched && distinct {
            proof {
                let c = (c1 as int, c2 as int, c3 as int, c4 as int);
                let v = (value1 as i32, value2 as i32, value3 as i32, value4 as i32);
                lemma_fast_batch_sequential(m, c, (hash1, hash2, hash3, hash4), (key1@, key2@, key3@, key4@), v);
            }
            let d1 = add_value(self.linear_hash_table[c1].data, value1 as i32);
            let d2 = add_value(self.linear_hash_table[c2].data, value2 as i32);
            let d3 = add_value(self.linear_hash_table[c3].data, value3 as i32);
            let d4 = add_value(self.linear_hash_table[c4].data, value4 as i32);
            match (d1, d2, d3, d4) {
                (Some(n1), Some(n2), Some(n3), Some(n4)) => {
                    self.linear_hash_table[c1].data = n1;
                    self.linear_hash_table[c2].data = n2;
                    self.linear_hash_table[c3].data = n3;
                    self.linear_hash_table[c4].data = n4;
                    proof {
                        let c = (c1 as int, c2 as int, c3 as int, c4 as int);
                        let v = (value1 as i32, value2 as i32, value3 as i32, value4 as i32);
                        assert(self.slots_of() =~= fast_batch(m, c, v));
                    }
                    true
                },
                _ => false,
            }
        } else {
            if !self.save_item_u64x2(key1, hash1, value1) {
                return false;
            }
            if !self.save_item_u64x2(key2, hash2, value2) {
                return false;
            }
            if !self.save_item_u64x2(key3, hash3, value3) {
                return false;
            }
            self.save_item_u64x2(key4, hash4, value4)
        }
    }
}

/// Per-loop line counters; this build keeps none of them.
pub struct Debug {
    pub counts: [u64; 8],
}

impl Debug {
    /// All counters zero.
    pub fn new() -> (d: Debug)
        ensures
            forall|i: int| 0 <= i < 8 ==> d.counts@[i] == 0,
    {
        Debug { counts: [0; 8] }
    }

    /// Counting is switched off in this build: the counters stay as they are.
    pub fn add_count(&mut self, lines: usize)
        ensures
            final(self).counts@ == old(self).counts@,
    {
    }

    /// Printing is switched off in this build: nothing is shown.
    pub fn print(&self) {
    }
}

} // verus!
