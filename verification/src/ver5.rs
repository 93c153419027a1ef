//! A byte-at-a-time state machine that splits lines `name;value\n` into names and
//! values.
use vstd::prelude::*;
use crate::format::{
    find_from, has_byte, lemma_find_from, lemma_find_from_is, lemma_find_from_none,
    lemma_records_shape, lemma_scalar_digits_mono, rec_name, rec_value, records, records_from,
    scalar_bytes, scalar_digits, scalar_value, DOT, MINUS, NEWLINE, SEMICOLON, ZERO,
};
use crate::scan::after_records;
use crate::stations::{lemma_fit_i64, Stations};
use crate::stats::{
    aggregate_with, fits_throughout, lemma_aggregate_push, lemma_fits_empty, lemma_fits_prefix,
    lemma_fits_push, stats_fit, StatsModel,
};
use crate::ver4::value_ok;
use crate::ver7::scalar_parse;

verus! {

/// The longest name the machine holds.
pub const NAME_CAPACITY: usize = 512;

/// Which part of a line the machine is in.
pub enum State {
    Name,
    Value,
}

/// The machine: its part of the line, the name bytes read so far, and the value read so
/// far with its sign.
pub struct StateMachine {
    pub state: State,
    pub name: [u8; 512],
    pub name_length: usize,
    pub value: i64,
    pub sign: i64,
}

impl StateMachine {
    /// The name read so far.
    pub open spec fn name_read(&self) -> Seq<u8> {
        self.name@.take(self.name_length as int)
    }

    /// Whether the machine can take byte `ch`: a name byte needs room, a digit of the
    /// value must be a byte from `0` up whose digit keeps the value within `i64`.
    pub open spec fn accepts_spec(&self, ch: u8) -> bool {
        match self.state {
            State::Name => ch == SEMICOLON || self.name_length < NAME_CAPACITY,
            State::Value => ch == NEWLINE || ch == DOT || ch == MINUS || (ch >= ZERO && self.value * 10 + (ch
                - ZERO) <= i64::MAX),
        }
    }

    /// The machine's values stay in range: the name length within the array and the
    /// value non-negative, the sign one or minus one.
    pub open spec fn wf(&self) -> bool {
        &&& self.name_length <= NAME_CAPACITY
        &&& self.value >= 0
        &&& (self.sign == 1 || self.sign == -1)
    }

    /// At the start of a name, with nothing read.
    pub fn new() -> (m: StateMachine)
        ensures
            m.wf(),
            m.state is Name,
            m.name_length == 0,
            m.value == 0,
            m.sign == 1,
    {
        StateMachine { state: State::Name, name: [0; 512], name_length: 0, value: 0, sign: 1 }
    }

    /// Whether the machine can take byte `ch`.
    pub fn accepts(&self, ch: u8) -> (r: bool)
        requires
            self.wf(),
        ensures
            r == self.accepts_spec(ch),
    {
        match self.state {
            State::Name => ch == SEMICOLON || self.name_length < NAME_CAPACITY,
            State::Value => {
                if ch == NEWLINE || ch == DOT || ch == MINUS {
                    true
                } else if ch < ZERO {
                    false
                } else {
                    self.value <= (i64::MAX - (ch - ZERO) as i64) / 10
                }
            },
        }
    }

    /// Takes byte `ch`. In a name, `;` starts the value and any other byte is appended
    /// to the name. In a value, `\n` ends the line: the name length and the signed value
    /// are returned, the name bytes stay in `name`, and the machine starts a new name;
    /// `.` is skipped, `-` makes the value negative, and any other byte appends the digit
    /// `ch - 48`.
    pub fn next(&mut self, ch: u8) -> (r: Option<(usize, i64)>)
        requires
            old(self).wf(),
            old(self).accepts_spec(ch),
        ensures
            final(self).wf(),
            match old(self).state {
                State::Name => {
                    &&& r is None
                    &&& final(self).value == old(self).value
                    &&& final(self).sign == old(self).sign
                    &&& ch == SEMICOLON ==> final(self).state is Value && final(self).name_read() == old(self).name_read()
                    &&& ch != SEMICOLON ==> final(self).state is Name && final(self).name_read() == old(self).name_read().push(ch)
                },
                State::Value => {
                    &&& ch == NEWLINE ==> {
                        &&& r == Some((old(self).name_length, (old(self).value * old(self).sign) as i64))
                        &&& final(self).state is Name
                        &&& final(self).name_length == 0
                        &&& final(self).name@ == old(self).name@
                        &&& final(self).value == 0
                        &&& final(self).sign == 1
                    }
                    &&& ch != NEWLINE ==> {
                        &&& r is None
                        &&& final(self).state is Value
                        &&& final(self).name_read() == old(self).name_read()
                        &&& final(self).sign == (if ch == MINUS { -1i64 } else { old(self).sign })
                        &&& final(self).value == (if ch == DOT || ch == MINUS { old(self).value as int } else {
                            old(self).value * 10 + (ch - ZERO)
                        })
                    }
                },
            },
    {
        match self.state {
            State::Name => {
                if ch == SEMICOLON {
                    self.state = State::Value;
                } else {
                    let ghost before = self.name_read();
                    self.name[self.name_length] = ch;
                    self.name_length = self.name_length + 1;
                    assert(self.name_read() =~= before.push(ch));
                }
                None
            },
            State::Value => {
                if ch == NEWLINE {
                    let signed = if self.sign == -1 { -self.value } else { self.value };
                    assert(signed == self.value * self.sign) by (nonlinear_arith)
                        requires
                            self.sign == 1 || self.sign == -1,
                            signed == (if self.sign == -1 { -self.value } else { self.value as int }),
                    ;
                    let r = Some((self.name_length, signed));
                    self.state = State::Name;
                    self.name_length = 0;
                    self.value = 0;
                    self.sign = 1;
                    r
                } else if ch == DOT {
                    None
                } else if ch == MINUS {
                    self.sign = -1;
                    None
                } else {
                    self.value = self.value * 10 + (ch - ZERO) as i64;
                    None
                }
            },
        }
    }
}

/// A line's name fits the machine and its value text reads into an `i64`.
pub open spec fn piece_ok(name: Seq<u8>, value: Seq<u8>) -> bool {
    name.len() <= NAME_CAPACITY && value_ok(value)
}

/// The bytes from `from` on, which hold no whole line, pass through the machine: the
/// name part up to a `;` fits, and the value part after it reads.
pub open spec fn rest_ok(s: Seq<u8>, from: int) -> bool {
    let p = find_from(s, SEMICOLON, from);
    if p < 0 {
        s.len() - from <= NAME_CAPACITY
    } else {
        piece_ok(s.subrange(from, p), s.subrange(p + 1, s.len() as int))
    }
}

/// Every byte of `s` passes through the machine: every line's name fits and every
/// value reads, the unfinished last line's too.
pub open spec fn stream_ok(s: Seq<u8>) -> bool {
    &&& forall|i: int| 0 <= i < records(s).len() ==> piece_ok(rec_name(s, #[trigger] records(s)[i]), rec_value(s, records(s)[i]))
    &&& rest_ok(s, after_records(s))
}

/// A value whose prefix does not read does not read either.
pub proof fn lemma_value_prefix(v: Seq<u8>, k: int)
    requires
        0 <= k <= v.len(),
        !value_ok(v.take(k)),
    ensures
        !value_ok(v),
{
    if value_ok(v) {
        assert forall|j: int| 0 <= j < v.take(k).len() implies v.take(k)[j] == MINUS || v.take(k)[j] == DOT || v.take(k)[j] >= ZERO by {
            assert(v.take(k)[j] == v[j]);
        }
        lemma_scalar_digits_mono(v, k, v.len() as int);
        assert(v.take(v.len() as int) =~= v);
    }
}

/// The line starting at `ls`, where the bytes `ls..=i` hold no `;`, has a name longer
/// than the machine holds when `i - ls >= NAME_CAPACITY`.
pub proof fn lemma_name_too_long(s: Seq<u8>, done: Seq<(int, int, int)>, ls: int, i: int)
    requires
        records(s) == done + records_from(s, ls),
        ls == after_prefix(done),
        0 <= ls <= i < s.len(),
        i - ls >= NAME_CAPACITY,
        forall|j: int| ls <= j <= i ==> s[j] != SEMICOLON,
    ensures
        !stream_ok(s),
{
    lemma_find_from(s, SEMICOLON, ls);
    let p = find_from(s, SEMICOLON, ls);
    if records_from(s, ls).len() > 0 {
        let r = records(s)[done.len() as int];
        assert(r == records_from(s, ls)[0]);
        assert(r.1 == p);
        assert(rec_name(s, r).len() > NAME_CAPACITY);
    } else {
        assert(records(s) =~= done);
        assert(after_records(s) == ls);
    }
}

/// Where the line after the records `done` starts.
pub open spec fn after_prefix(done: Seq<(int, int, int)>) -> int {
    if done.len() == 0 {
        0
    } else {
        done.last().2 + 1
    }
}

/// The line starting at `ls`, with its `;` at `p` and no `\n` in `p+1..=i`, has a
/// value that does not read when the bytes `p+1..=i` do not.
pub proof fn lemma_value_bad(s: Seq<u8>, done: Seq<(int, int, int)>, ls: int, p: int, i: int)
    requires
        records(s) == done + records_from(s, ls),
        ls == after_prefix(done),
        0 <= ls <= p < i < s.len(),
        s[p] == SEMICOLON,
        forall|j: int| ls <= j < p ==> s[j] != SEMICOLON,
        forall|j: int| p < j <= i ==> s[j] != NEWLINE,
        !value_ok(s.subrange(p + 1, i + 1)),
    ensures
        !stream_ok(s),
{
    lemma_find_from_is(s, SEMICOLON, ls, p);
    lemma_find_from(s, NEWLINE, p + 1);
    let q = find_from(s, NEWLINE, p + 1);
    if records_from(s, ls).len() > 0 {
        let r = records(s)[done.len() as int];
        assert(r == records_from(s, ls)[0]);
        assert(r == (ls, p, q));
        let v = rec_value(s, r);
        assert(v.take(i - p) =~= s.subrange(p + 1, i + 1));
        lemma_value_prefix(v, i - p);
    } else {
        assert(records(s) =~= done);
        assert(after_records(s) == ls);
        let v = s.subrange(p + 1, s.len() as int);
        assert(v.take(i - p) =~= s.subrange(p + 1, i + 1));
        lemma_value_prefix(v, i - p);
    }
}

/// The statistics of every station in `buf`, by name, with every byte passed through
/// [`StateMachine::next`] in order and every finished line recorded. `None` when a
/// byte does not pass (a name longer than the machine holds, a value that does not read
/// into an `i64`, the unfinished last line's too), or when a count would leave `u32` or a
/// sum `i64`.
#[verifier::rlimit(40)]
pub fn aggregate_bytes(buf: &[u8]) -> (r: Option<Stations>)
    ensures
        r is Some <==> stream_ok(buf@) && fits_throughout(
            buf@,
            records(buf@),
            scalar_parse(),
            i64::MIN as int,
            i64::MAX as int,
        ),
        r matches Some(st) ==> st.wf() && st@ == aggregate_with(buf@, records(buf@), scalar_parse()),
{
    let ghost s = buf@;
    let ghost lo = i64::MIN as int;
    let ghost hi = i64::MAX as int;
    let mut machine = StateMachine::new();
    let mut stations = Stations::new();
    let mut i: usize = 0;
    let ghost mut done: Seq<(int, int, int)> = seq![];
    let ghost mut ls: int = 0;
    let ghost mut p: int = 0;
    proof {
        lemma_fits_empty(s, scalar_parse(), lo, hi);
        assert(aggregate_with(s, done, scalar_parse()) =~= Map::<Seq<u8>, StatsModel>::empty());
        assert(records(s) =~= done + records_from(s, 0));
        assert(machine.name_read() =~= s.subrange(0, 0));
    }
    while i < buf.len()
        invariant
            s == buf@,
            i <= s.len(),
            lo == i64::MIN as int,
            hi == i64::MAX as int,
            machine.wf(),
            records(s) == done + records_from(s, ls),
            ls == after_prefix(done),
            0 <= ls <= i,
            machine.state is Name ==> {
                &&& machine.name_read() == s.subrange(ls, i as int)
                &&& forall|j: int| ls <= j < i ==> s[j] != SEMICOLON
                &&& machine.value == 0
                &&& machine.sign == 1
            },
            machine.state is Value ==> {
                &&& ls <= p < i
                &&& s[p] == SEMICOLON
                &&& machine.name_read() == s.subrange(ls, p)
                &&& forall|j: int| ls <= j < p ==> s[j] != SEMICOLON
                &&& forall|j: int| p < j < i ==> s[j] != NEWLINE
                &&& scalar_bytes(s.subrange(p + 1, i as int))
                &&& machine.value == scalar_digits(s.subrange(p + 1, i as int))
                &&& machine.sign == (if has_byte(s.subrange(p + 1, i as int), MINUS) { -1int } else { 1int })
            },
            forall|k: int| 0 <= k < done.len() ==> piece_ok(rec_name(s, #[trigger] done[k]), rec_value(s, done[k])),
            fits_throughout(s, done, scalar_parse(), lo, hi),
            stations.wf(),
            stations@ == aggregate_with(s, done, scalar_parse()),
        decreases s.len() - i,
    {
        let b = buf[i];
        if !machine.accepts(b) {
            proof {
                if machine.state is Name {
                    lemma_name_too_long(s, done, ls, i as int);
                } else {
                    let v = s.subrange(p + 1, i + 1);
                    assert(v.drop_last() =~= s.subrange(p + 1, i as int));
                    assert(v.last() == b);
                    if scalar_bytes(v) {
                        assert(scalar_digits(v) > i64::MAX);
                    }
                    lemma_value_bad(s, done, ls, p, i as int);
                }
            }
            return None;
        }
        let ghost was_name = machine.state is Name;
        let ghost before = machine.name_read();
        let ghost len_before = machine.name_length;
        let ghost val_before = machine.value;
        let ghost sign_before = machine.sign;
        let out = machine.next(b);
        match out {
            Some((len, v)) => {
                let ghost r = (ls, p, i as int);
                proof {
                    lemma_find_from_is(s, SEMICOLON, ls, p);
                    lemma_find_from_is(s, NEWLINE, p + 1, i as int);
                    assert(records_from(s, ls)[0] == r);
                    assert(records(s)[done.len() as int] == r);
                    assert(records(s).take(done.len() + 1int) =~= done.push(r));
                    let w = s.subrange(p + 1, i as int);
                    assert(rec_value(s, r) =~= w);
                    assert(val_before == scalar_digits(w));
                    assert(v == (val_before * sign_before) as i64);
                    if has_byte(w, MINUS) {
                        assert(sign_before == -1);
                        assert(v == -scalar_digits(w));
                    } else {
                        assert(sign_before == 1);
                        assert(v == scalar_digits(w));
                    }
                    assert(v == scalar_value(rec_value(s, r)));
                    assert(done.take(done.len() as int) =~= done);
                    assert(stats_fit(aggregate_with(s, done.take(done.len() as int), scalar_parse()), lo, hi));
                    lemma_fit_i64(aggregate_with(s, done, scalar_parse()), rec_name(s, r), v as int);
                    lemma_aggregate_push(s, done, r, scalar_parse());
                }
                let name = vstd::slice::slice_subrange(machine.name.as_slice(), 0, len);
                proof {
                    assert(name@ =~= rec_name(s, r));
                }
                if !stations.record(name, v) {
                    proof {
                        if fits_throughout(s, records(s), scalar_parse(), lo, hi) {
                            lemma_fits_prefix(s, records(s), done.len() + 1int, scalar_parse(), lo, hi);
                        }
                    }
                    return None;
                }
                proof {
                    lemma_fits_push(s, done, r, scalar_parse(), lo, hi);
                    lemma_records_shape(s, ls);
                    assert(records_from(s, ls) =~= seq![r] + records_from(s, i + 1));
                    assert(done.push(r) + records_from(s, i + 1) =~= done + records_from(s, ls));
                    assert forall|k: int| 0 <= k < done.push(r).len() implies piece_ok(
                        rec_name(s, #[trigger] done.push(r)[k]),
                        rec_value(s, done.push(r)[k]),
                    ) by {
                        if k < done.len() {
                            assert(done.push(r)[k] == done[k]);
                        }
                    }
                    done = done.push(r);
                    ls = i + 1;
                    assert(machine.name_read() =~= s.subrange(ls, i + 1));
                }
            },
            None => {
                proof {
                    if was_name {
                        if b == SEMICOLON {
                            p = i as int;
                            assert(s.subrange(p + 1, i + 1) =~= Seq::<u8>::empty());
                        } else {
                            assert(s.subrange(ls, i + 1) =~= s.subrange(ls, i as int).push(b));
                        }
                    } else {
                        let w = s.subrange(p + 1, i + 1);
                        assert(w.drop_last() =~= s.subrange(p + 1, i as int));
                        assert(w.last() == b);
                    }
                }
            },
        }
        i += 1;
    }
    proof {
        if machine.state is Name {
            lemma_find_from_none(s, SEMICOLON, ls);
        } else {
            lemma_find_from_is(s, SEMICOLON, ls, p);
            lemma_find_from_none(s, NEWLINE, p + 1);
            assert(s.subrange(p + 1, s.len() as int) == s.subrange(p + 1, i as int));
        }
        assert(records(s) =~= done);
        assert(after_records(s) == ls);
    }
    Some(stations)
}

/// On a buffer made of valid lines whose names have at most `NAME_CAPACITY` bytes,
/// every byte passes through the machine, the statistics [`aggregate_bytes`] computes
/// are the statistics in tenths, and the counts and sums fit exactly when they fit in
/// tenths.
pub proof fn lemma_valid_buffer(s: Seq<u8>)
    requires
        crate::format::valid_buffer(s),
        forall|i: int| 0 <= i < records(s).len() ==> rec_name(s, #[trigger] records(s)[i]).len() <= NAME_CAPACITY,
    ensures
        stream_ok(s),
        aggregate_with(s, records(s), scalar_parse()) == crate::stats::aggregate(s, records(s)),
        fits_throughout(s, records(s), scalar_parse(), i64::MIN as int, i64::MAX as int) == fits_throughout(
            s,
            records(s),
            |v: Seq<u8>| crate::format::tenths(v),
            i64::MIN as int,
            i64::MAX as int,
        ),
{
    crate::ver4::lemma_valid_buffer(s);
    let recs = records(s);
    assert forall|i: int| 0 <= i < recs.len() implies piece_ok(rec_name(s, #[trigger] recs[i]), rec_value(s, recs[i])) by {
        assert(crate::ver4::values_ok(s, crate::ver4::read_lines(s)));
        assert(value_ok(rec_value(s, crate::ver4::read_lines(s)[i])));
    }
    lemma_find_from(s, SEMICOLON, s.len() as int);
}

} // verus!
