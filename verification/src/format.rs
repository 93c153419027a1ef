//! The measurement format: lines `name;value\n`, and the records a buffer holds.
use vstd::prelude::*;

verus! {

/// Byte `;`, which ends a station name.
pub const SEMICOLON: u8 = 59;

/// Byte `\n`, which ends a line.
pub const NEWLINE: u8 = 10;

/// Byte `-`.
pub const MINUS: u8 = 45;

/// Byte `.`.
pub const DOT: u8 = 46;

/// Byte `0`.
pub const ZERO: u8 = 48;

/// Index of the first `b` in `s` at or after `from`, or -1 when there is none.
pub open spec fn find_from(s: Seq<u8>, b: u8, from: int) -> int
    decreases s.len() - from,
{
    if 0 <= from < s.len() {
        if s[from] == b {
            from
        } else {
            find_from(s, b, from + 1)
        }
    } else {
        -1
    }
}

/// What `find_from` returns: the first match, or -1 when nothing matches.
pub proof fn lemma_find_from(s: Seq<u8>, b: u8, from: int)
    requires
        0 <= from,
    ensures
        find_from(s, b, from) == -1 || (from <= find_from(s, b, from) < s.len() && s[find_from(
            s,
            b,
            from,
        )] == b),
        find_from(s, b, from) == -1 ==> forall|j: int| from <= j < s.len() ==> s[j] != b,
        find_from(s, b, from) >= 0 ==> forall|j: int| from <= j < find_from(s, b, from) ==> s[j] != b,
    decreases s.len() - from,
{
    if from < s.len() && s[from] != b {
        lemma_find_from(s, b, from + 1);
    }
}

/// The first index `r >= from` with `s[r] == b` is what `find_from` returns.
pub proof fn lemma_find_from_is(s: Seq<u8>, b: u8, from: int, r: int)
    requires
        0 <= from <= r < s.len(),
        s[r] == b,
        forall|j: int| from <= j < r ==> s[j] != b,
    ensures
        find_from(s, b, from) == r,
    decreases r - from,
{
    if from < r {
        lemma_find_from_is(s, b, from + 1, r);
    }
}

/// When no `b` lies in `[from, s.len())`, `find_from` returns -1.
pub proof fn lemma_find_from_none(s: Seq<u8>, b: u8, from: int)
    requires
        0 <= from,
        forall|j: int| from <= j < s.len() ==> s[j] != b,
    ensures
        find_from(s, b, from) == -1,
    decreases s.len() - from,
{
    if from < s.len() {
        lemma_find_from_none(s, b, from + 1);
    }
}

/// The complete records of `s` from `start` on, as triples `(line_start, semicolon,
/// newline)`: the name is `s[line_start..semicolon]` and the value
/// `s[semicolon + 1..newline]`. The name runs to the first `;`, the value to the
/// first `\n` after it; a last line without both stops the list.
pub open spec fn records_from(s: Seq<u8>, start: int) -> Seq<(int, int, int)>
    decreases s.len() - start,
{
    if 0 <= start < s.len() {
        let p1 = find_from(s, SEMICOLON, start);
        if p1 < 0 {
            seq![]
        } else {
            let p2 = find_from(s, NEWLINE, p1 + 1);
            if p2 < 0 {
                seq![]
            } else {
                proof {
                    lemma_find_from(s, SEMICOLON, start);
                    lemma_find_from(s, NEWLINE, p1 + 1);
                }
                seq![(start, p1, p2)] + records_from(s, p2 + 1)
            }
        }
    } else {
        seq![]
    }
}

/// The complete records of the whole buffer.
pub open spec fn records(s: Seq<u8>) -> Seq<(int, int, int)> {
    records_from(s, 0)
}

/// The name of a record.
pub open spec fn rec_name(s: Seq<u8>, r: (int, int, int)) -> Seq<u8> {
    s.subrange(r.0, r.1)
}

/// The value text of a record.
pub open spec fn rec_value(s: Seq<u8>, r: (int, int, int)) -> Seq<u8> {
    s.subrange(r.1 + 1, r.2)
}

/// A decimal digit.
pub open spec fn is_digit(b: u8) -> bool {
    48 <= b <= 57
}

/// The value text without a leading minus sign.
pub open spec fn unsigned_part(v: Seq<u8>) -> Seq<u8> {
    if v.len() > 0 && v[0] == MINUS {
        v.drop_first()
    } else {
        v
    }
}

/// A value as the format writes it: an optional `-`, one or two digits, `.`, one digit.
pub open spec fn valid_value(v: Seq<u8>) -> bool {
    let u = unsigned_part(v);
    ||| (u.len() == 3 && is_digit(u[0]) && u[1] == DOT && is_digit(u[2]))
    ||| (u.len() == 4 && is_digit(u[0]) && is_digit(u[1]) && u[2] == DOT && is_digit(u[3]))
}

/// The value of a valid value text, in tenths of a degree.
pub open spec fn tenths(v: Seq<u8>) -> int {
    let u = unsigned_part(v);
    let magnitude = if u.len() == 3 {
        (u[0] - 48) * 10 + (u[2] - 48)
    } else {
        (u[0] - 48) * 100 + (u[1] - 48) * 10 + (u[3] - 48)
    };
    if v.len() > 0 && v[0] == MINUS {
        -magnitude
    } else {
        magnitude
    }
}

/// The tenths of a valid value lie in -999..=999.
pub proof fn lemma_tenths_range(v: Seq<u8>)
    requires
        valid_value(v),
    ensures
        -999 <= tenths(v) <= 999,
{
}

/// A record as the format writes it: a non-empty name that holds no line break and
/// does not start with a zero byte, and a valid value.
pub open spec fn valid_record(s: Seq<u8>, r: (int, int, int)) -> bool {
    &&& r.0 < r.1
    &&& s[r.0] != 0
    &&& forall|j: int| r.0 <= j < r.1 ==> s[j] != NEWLINE
    &&& valid_value(rec_value(s, r))
}

/// Every record of `s` is written as the format says.
pub open spec fn valid_records(s: Seq<u8>) -> bool {
    forall|i: int| 0 <= i < records(s).len() ==> valid_record(s, #[trigger] records(s)[i])
}


/// Whether byte `b` occurs in `s`.
pub open spec fn has_byte(s: Seq<u8>, b: u8) -> bool
    decreases s.len(),
{
    if s.len() == 0 {
        false
    } else {
        s.last() == b || has_byte(s.drop_last(), b)
    }
}

/// The number a value text spells when read left to right as the simple parsers read
/// it: `-` and `.` are skipped, and every other byte `b` appends the digit `b - 48`.
pub open spec fn scalar_digits(s: Seq<u8>) -> int
    decreases s.len(),
{
    if s.len() == 0 {
        0
    } else {
        let v = scalar_digits(s.drop_last());
        let b = s.last();
        if b == MINUS || b == DOT {
            v
        } else {
            v * 10 + (b - 48)
        }
    }
}

/// The signed number the simple parsers read: negative when a `-` occurs anywhere.
pub open spec fn scalar_value(s: Seq<u8>) -> int {
    if has_byte(s, MINUS) {
        -scalar_digits(s)
    } else {
        scalar_digits(s)
    }
}

/// Every byte is `-`, `.` or at least `0`: the simple parsers subtract 48 from every
/// other byte, which must not go below zero.
pub open spec fn scalar_bytes(s: Seq<u8>) -> bool {
    forall|i: int| 0 <= i < s.len() ==> s[i] == MINUS || s[i] == DOT || s[i] >= ZERO
}

/// Reading a longer prefix never gives a smaller number, and no number is negative.
pub proof fn lemma_scalar_digits_mono(s: Seq<u8>, i: int, j: int)
    requires
        scalar_bytes(s),
        0 <= i <= j <= s.len(),
    ensures
        0 <= scalar_digits(s.take(i)) <= scalar_digits(s.take(j)),
    decreases j,
{
    if j > 0 {
        assert(s.take(j).drop_last() =~= s.take(j - 1));
        if i < j {
            lemma_scalar_digits_mono(s, i, j - 1);
        } else {
            lemma_scalar_digits_mono(s, i - 1, j - 1);
        }
    }
}

/// A valid value text reads as its tenths.
pub proof fn lemma_scalar_valid(v: Seq<u8>)
    requires
        valid_value(v),
    ensures
        scalar_value(v) == tenths(v),
        scalar_bytes(v),
{
    reveal_with_fuel(scalar_digits, 6);
    reveal_with_fuel(has_byte, 6);
    let u = unsigned_part(v);
    if v[0] == MINUS {
        assert(v.drop_last().drop_last().drop_last().drop_first() =~= u.drop_last().drop_last().drop_last());
    }
    if v.len() == 4 && v[0] == MINUS {
        assert(v.drop_last().drop_last().drop_last() =~= seq![MINUS, u[0]].take(1));
    }
}


/// Whether `buf` holds only `-`, `.` and bytes from `0` up, with digits that spell at
/// most `bound`: exactly when the simple parsers can read it into that bound.
pub fn scalar_within(buf: &[u8], bound: u64) -> (r: bool)
    ensures
        r == (scalar_bytes(buf@) && scalar_digits(buf@) <= bound),
{
    let mut value: u64 = 0;
    let mut i: usize = 0;
    while i < buf.len()
        invariant
            0 <= i <= buf.len(),
            value <= bound,
            scalar_bytes(buf@.take(i as int)),
            value == scalar_digits(buf@.take(i as int)),
        decreases buf.len() - i,
    {
        let b = buf[i];
        proof {
            assert(buf@.take(i + 1).drop_last() =~= buf@.take(i as int));
        }
        if b == MINUS || b == DOT {
        } else if b < ZERO {
            proof {
                assert(!scalar_bytes(buf@) ) by {
                    assert(!(buf@[i as int] == MINUS || buf@[i as int] == DOT || buf@[i as int] >= ZERO));
                }
            }
            return false;
        } else {
            let d = (b - ZERO) as u64;
            if d > bound || value > (bound - d) / 10 {
                proof {
                    if d <= bound {
                        assert(value * 10 + d > bound) by (nonlinear_arith)
                            requires value > (bound - d) / 10, d <= bound;
                    }
                    if scalar_bytes(buf@) {
                        assert(buf@.take(buf@.len() as int) =~= buf@);
                        lemma_scalar_digits_mono(buf@, (i + 1) as int, buf@.len() as int);
                    }
                }
                return false;
            }
            proof {
                assert(value * 10 + d <= bound) by (nonlinear_arith)
                    requires value <= (bound - d) / 10, d <= bound;
            }
            value = value * 10 + d;
        }
        i += 1;
    }
    assert(buf@.take(buf@.len() as int) =~= buf@);
    true
}

/// The shape of a record triple in `s`.
pub open spec fn record_shape(s: Seq<u8>, r: (int, int, int)) -> bool {
    &&& 0 <= r.0 <= r.1 < r.2 < s.len()
    &&& s[r.1] == SEMICOLON
    &&& s[r.2] == NEWLINE
    &&& forall|j: int| r.0 <= j < r.1 ==> s[j] != SEMICOLON
    &&& forall|j: int| r.1 < j < r.2 ==> s[j] != NEWLINE
}

/// Every record from `start` on starts at or after `start`, has its `;` at the end of
/// its name and its `\n` at the end of its value, with no `;` in the name and no `\n`
/// in the value.
pub proof fn lemma_records_shape(s: Seq<u8>, start: int)
    requires
        0 <= start,
    ensures
        forall|i: int|
            0 <= i < records_from(s, start).len() ==> record_shape(s, #[trigger] records_from(s, start)[i])
                && records_from(s, start)[i].0 >= start,
    decreases s.len() - start,
{
    if 0 <= start < s.len() {
        let p1 = find_from(s, SEMICOLON, start);
        lemma_find_from(s, SEMICOLON, start);
        if p1 >= 0 {
            let p2 = find_from(s, NEWLINE, p1 + 1);
            lemma_find_from(s, NEWLINE, p1 + 1);
            if p2 >= 0 {
                lemma_records_shape(s, p2 + 1);
                let rest = records_from(s, p2 + 1);
                assert forall|i: int| 0 <= i < records_from(s, start).len() implies record_shape(
                    s,
                    #[trigger] records_from(s, start)[i],
                ) && records_from(s, start)[i].0 >= start by {
                    if i > 0 {
                        assert(records_from(s, start)[i] == rest[i - 1]);
                    }
                }
            }
        }
    }
}

/// A buffer made of whole lines as the format writes them: every record is valid, and
/// the records cover the buffer to its last byte.
pub open spec fn valid_buffer(s: Seq<u8>) -> bool {
    &&& valid_records(s)
    &&& if records(s).len() == 0 {
        s.len() == 0
    } else {
        records(s).last().2 == s.len() - 1
    }
}

/// The text of a valid value holds no `;` and no `\n`.
pub proof fn lemma_value_plain(v: Seq<u8>)
    requires
        valid_value(v),
    ensures
        forall|j: int| 0 <= j < v.len() ==> v[j] != SEMICOLON && v[j] != NEWLINE,
{
}

/// A valid value has three to five bytes.
pub proof fn lemma_value_len(v: Seq<u8>)
    requires
        valid_value(v),
    ensures
        3 <= v.len() <= 5,
{
}

} // verus!
