//! In-game time: a count of minutes shown as years, months (of 31 days),
//! days, hours and minutes.
use crate::advini::{lemma_dec_reads_back, Ini, IniParseError};
use crate::locale::run_len;
use crate::text::{chars_of, dec, lemma_dec_len, push_dec};
use vstd::prelude::*;

verus! {

/// A unit of the calendar, worth a fixed number of minutes.
#[derive(Clone, Copy, Debug, PartialEq, Eq, Structural)]
pub enum Data {
    YEAR,
    MONTH,
    DAY,
    HOUR,
    MINUTES,
}

/// Minutes in one unit: a year has 12 months, a month 31 days, a day 24 hours.
pub open spec fn data_minutes(d: Data) -> u64 {
    match d {
        Data::YEAR => 535680,
        Data::MONTH => 44640,
        Data::DAY => 1440,
        Data::HOUR => 60,
        Data::MINUTES => 1,
    }
}

impl Data {
    /// Minutes in one unit.
    pub fn minutes(&self) -> (r: u64)
        ensures
            r == data_minutes(*self),
    {
        match self {
            Data::YEAR => 535680,
            Data::MONTH => 44640,
            Data::DAY => 1440,
            Data::HOUR => 60,
            Data::MINUTES => 1,
        }
    }
}

/// A moment of game time, in minutes.
#[derive(Clone, Copy, Debug, PartialEq, Eq, Structural)]
pub struct Time {
    pub minutes: u64,
}

impl Default for Time {
    fn default() -> (r: Self)
        ensures
            r.minutes == 0,
    {
        Time { minutes: 0 }
    }
}

impl Time {
    /// The sum of two times (`+` of the game).
    pub fn add(self, rhs: Time) -> (r: Time)
        requires
            self.minutes + rhs.minutes <= u64::MAX,
        ensures
            r.minutes == self.minutes + rhs.minutes,
    {
        Time { minutes: self.minutes + rhs.minutes }
    }

    /// Adds `rhs` (`+=` of the game).
    pub fn add_assign(&mut self, rhs: Time)
        requires
            old(self).minutes + rhs.minutes <= u64::MAX,
        ensures
            final(self).minutes == old(self).minutes + rhs.minutes,
    {
        self.minutes = self.minutes + rhs.minutes;
    }

    /// `-` of the game: it subtracts `rhs` from itself, so the difference
    /// is always zero.
    pub fn sub(self, rhs: Time) -> (r: Time)
        ensures
            r.minutes == 0,
    {
        Time { minutes: rhs.minutes.saturating_sub(rhs.minutes) }
    }

    /// Subtracts `rhs`, stopping at zero (`-=` of the game).
    pub fn sub_assign(&mut self, rhs: Time)
        ensures
            final(self).minutes == if old(self).minutes >= rhs.minutes {
                (old(self).minutes - rhs.minutes) as u64
            } else {
                0
            },
    {
        self.minutes = self.minutes.saturating_sub(rhs.minutes);
    }
}

impl Time {
    pub fn get_minute(&self) -> (r: u64)
        ensures
            r == self.minutes % 60,
    {
        self.minutes % 60
    }

    /// Whole hours.
    pub fn get_hours(&self) -> (r: u64)
        ensures
            r == self.minutes / 60,
    {
        self.minutes / 60
    }

    /// Hour of the day.
    pub fn get_hour(&self) -> (r: u64)
        ensures
            r == (self.minutes / 60) % 24,
    {
        self.get_hours() % 24
    }

    /// Whole days.
    pub fn get_days(&self) -> (r: u64)
        ensures
            r == self.minutes / 60 / 24,
    {
        self.get_hours() / 24
    }

    /// Day of the month.
    pub fn get_day(&self) -> (r: u64)
        ensures
            r == (self.minutes / 60 / 24) % 31,
    {
        self.get_days() % 31
    }

    /// Whole months.
    pub fn get_months(&self) -> (r: u64)
        ensures
            r == self.minutes / 60 / 24 / 31,
    {
        self.get_days() / 31
    }

    /// Month of the year.
    pub fn get_month(&self) -> (r: u64)
        ensures
            r == (self.minutes / 60 / 24 / 31) % 12,
    {
        self.get_months() % 12
    }

    /// Whole years.
    pub fn get_years(&self) -> (r: u64)
        ensures
            r == self.minutes / 60 / 24 / 31 / 12,
    {
        self.get_months() / 12
    }

    /// Year of the century.
    pub fn get_year(&self) -> (r: u64)
        ensures
            r == (self.minutes / 60 / 24 / 31 / 12) % 100,
    {
        self.get_years() % 100
    }

    pub fn new(minutes: u64) -> (r: Self)
        ensures
            r.minutes == minutes,
    {
        Time { minutes }
    }
}

/// An ASCII digit.
pub open spec fn is_digit(c: char) -> bool {
    '0' <= c && c <= '9'
}

/// The value of an ASCII digit.
pub open spec fn digit_value(c: char) -> nat {
    (c as int - '0' as int) as nat
}

/// The value of a string of decimal digits (0 for the empty string).
pub open spec fn dec_value(s: Seq<char>) -> nat
    decreases s.len(),
{
    if s.len() == 0 {
        0
    } else {
        dec_value(s.drop_last()) * 10 + digit_value(s.last())
    }
}

/// `s` cut at every character that is not an ASCII digit (as `str::split`
/// does: there is always at least one piece, and pieces may be empty).
pub open spec fn digit_runs(s: Seq<char>) -> Seq<Seq<char>>
    decreases s.len(),
{
    if s.len() == 0 {
        seq![Seq::empty()]
    } else {
        let r = digit_runs(s.drop_last());
        if is_digit(s.last()) {
            r.update(r.len() - 1, r.last().push(s.last()))
        } else {
            r.push(Seq::empty())
        }
    }
}

/// How many pieces of `s` are read against `repr`.
pub open spec fn read_count(s: Seq<char>, repr: Seq<Data>) -> nat {
    let n = digit_runs(s).len();
    if n < repr.len() {
        n
    } else {
        repr.len()
    }
}

/// Sum of the first `k` pieces, each weighted by its unit.
pub open spec fn weighted_sum(pieces: Seq<Seq<char>>, repr: Seq<Data>, k: nat) -> nat
    decreases k,
{
    if k == 0 {
        0
    } else {
        weighted_sum(pieces, repr, (k - 1) as nat) + dec_value(pieces[k - 1]) * (data_minutes(
            repr[k - 1],
        ) as nat)
    }
}

/// The minutes that `from_data` reads from `s`.
pub open spec fn data_sum(s: Seq<char>, repr: Seq<Data>) -> nat {
    weighted_sum(digit_runs(s), repr, read_count(s, repr))
}

/// `from_data` reads `s` without failing: every piece read is a non-empty
/// number and the total fits in 64 bits.
pub open spec fn data_readable(s: Seq<char>, repr: Seq<Data>) -> bool {
    &&& forall|i: int| 0 <= i < read_count(s, repr) ==> #[trigger] digit_runs(s)[i].len() > 0
    &&& data_sum(s, repr) <= u64::MAX
}

pub(crate) proof fn lemma_runs_digits(s: Seq<char>)
    ensures
        digit_runs(s).len() >= 1,
        forall|i: int, j: int|
            0 <= i < digit_runs(s).len() && 0 <= j < digit_runs(s)[i].len() ==> is_digit(
                #[trigger] digit_runs(s)[i][j],
            ),
    decreases s.len(),
{
    if s.len() > 0 {
        lemma_runs_digits(s.drop_last());
    }
}

pub proof fn lemma_dec_value_prefix(s: Seq<char>, i: int)
    requires
        0 <= i <= s.len(),
    ensures
        dec_value(s.subrange(0, i)) <= dec_value(s),
    decreases s.len() - i,
{
    if i < s.len() {
        lemma_dec_value_prefix(s, i + 1);
        assert(s.subrange(0, i + 1).drop_last() =~= s.subrange(0, i));
    } else {
        assert(s.subrange(0, i) =~= s);
    }
}

proof fn lemma_weighted_mono(pieces: Seq<Seq<char>>, repr: Seq<Data>, j: nat, k: nat)
    requires
        j <= k,
    ensures
        weighted_sum(pieces, repr, j) <= weighted_sum(pieces, repr, k),
    decreases k,
{
    if j < k {
        lemma_weighted_mono(pieces, repr, j, (k - 1) as nat);
    }
}

/// The value of a non-empty string of digits that fits in 64 bits.
fn parse_digits(s: &Vec<char>) -> (r: u64)
    requires
        forall|i: int| 0 <= i < s@.len() ==> is_digit(#[trigger] s@[i]),
        dec_value(s@) <= u64::MAX,
    ensures
        r == dec_value(s@),
{
    let mut v: u64 = 0;
    let mut i: usize = 0;
    while i < s.len()
        invariant
            i <= s.len(),
            forall|k: int| 0 <= k < s@.len() ==> is_digit(#[trigger] s@[k]),
            dec_value(s@) <= u64::MAX,
            v == dec_value(s@.subrange(0, i as int)),
        decreases s.len() - i,
    {
        let c = s[i];
        proof {
            lemma_dec_value_prefix(s@, i + 1);
            assert(s@.subrange(0, i + 1).drop_last() =~= s@.subrange(0, i as int));
        }
        let d = (c as u32 - '0' as u32) as u64;
        v = v * 10 + d;
        i = i + 1;
    }
    assert(s@.subrange(0, s@.len() as int) =~= s@);
    v
}

/// `s` cut at every character that is not an ASCII digit.
pub(crate) fn split_runs(s: &Vec<char>) -> (r: Vec<Vec<char>>)
    ensures
        r@.len() == digit_runs(s@).len(),
        forall|i: int| 0 <= i < r@.len() ==> #[trigger] r@[i]@ == digit_runs(s@)[i],
{
    let mut r: Vec<Vec<char>> = Vec::new();
    r.push(Vec::new());
    let mut i: usize = 0;
    proof {
        assert(s@.subrange(0, 0) =~= Seq::<char>::empty());
    }
    while i < s.len()
        invariant
            i <= s.len(),
            r@.len() == digit_runs(s@.subrange(0, i as int)).len(),
            r@.len() >= 1,
            forall|k: int| 0 <= k < r@.len() ==> #[trigger] r@[k]@ == digit_runs(
                s@.subrange(0, i as int),
            )[k],
        decreases s.len() - i,
    {
        let c = s[i];
        let ghost before = r@;
        proof {
            assert(s@.subrange(0, i + 1).drop_last() =~= s@.subrange(0, i as int));
        }
        if '0' <= c && c <= '9' {
            let last = r.len() - 1;
            let mut cur = r.pop().unwrap();
            cur.push(c);
            r.push(cur);
            proof {
                let t = digit_runs(s@.subrange(0, i + 1));
                assert forall|k: int| 0 <= k < r@.len() implies #[trigger] r@[k]@ == t[k] by {
                    if k == last {
                        assert(r@[k]@ =~= before[k]@.push(c));
                    } else {
                        assert(r@[k] == before[k]);
                    }
                }
            }
        } else {
            r.push(Vec::new());
            proof {
                let t = digit_runs(s@.subrange(0, i + 1));
                assert forall|k: int| 0 <= k < r@.len() implies #[trigger] r@[k]@ == t[k] by {
                    if k < before.len() {
                        assert(r@[k] == before[k]);
                    } else {
                        assert(r@[k]@ =~= Seq::<char>::empty());
                    }
                }
            }
        }
        i = i + 1;
    }
    assert(s@.subrange(0, s@.len() as int) =~= s@);
    r
}

impl Time {
    /// Reads a moment from numbers separated by any non-digit characters,
    /// the i-th number counting units `data_repr[i]`; extra numbers or units
    /// are ignored.
    pub fn from_data(data: &str, data_repr: &[Data]) -> (r: Self)
        requires
            data_readable(data@, data_repr@),
        ensures
            r.minutes == data_sum(data@, data_repr@),
    {
        let chars = chars_of(data);
        let runs = split_runs(&chars);
        let ghost pieces = digit_runs(data@);
        let k = if runs.len() < data_repr.len() {
            runs.len()
        } else {
            data_repr.len()
        };
        proof {
            lemma_runs_digits(data@);
        }
        let mut sum: u64 = 0;
        let mut i: usize = 0;
        while i < k
            invariant
                k == read_count(data@, data_repr@),
                k <= runs@.len(),
                k <= data_repr@.len(),
                runs@.len() == pieces.len(),
                pieces == digit_runs(data@),
                forall|j: int| 0 <= j < runs@.len() ==> #[trigger] runs@[j]@ == pieces[j],
                forall|a: int, b: int|
                    0 <= a < pieces.len() && 0 <= b < pieces[a].len() ==> is_digit(
                        #[trigger] pieces[a][b],
                    ),
                data_readable(data@, data_repr@),
                i <= k,
                sum == weighted_sum(pieces, data_repr@, i as nat),
            decreases k - i,
        {
            proof {
                lemma_weighted_mono(pieces, data_repr@, (i + 1) as nat, k as nat);
                let m = data_minutes(data_repr@[i as int]);
                let v = dec_value(pieces[i as int]);
                assert(v * m >= v) by (nonlinear_arith)
                    requires
                        m >= 1,
                ;
                assert(runs@[i as int]@ == pieces[i as int]);
            }
            let v = parse_digits(&runs[i]);
            let m = data_repr[i].minutes();
            sum = sum + v * m;
            i = i + 1;
        }
        Time::new(sum)
    }
}

/// The number that `to_data` shows for a unit.
pub open spec fn unit_value(t: Time, d: Data) -> u64 {
    match d {
        Data::YEAR => t.minutes / 60 / 24 / 31 / 12,
        Data::MONTH => (t.minutes / 60 / 24 / 31) % 12,
        Data::DAY => (t.minutes / 60 / 24) % 31,
        Data::HOUR => (t.minutes / 60) % 24,
        Data::MINUTES => t.minutes % 60,
    }
}

/// Each unit's number followed by `split`, for the units of `repr`.
pub open spec fn shown(t: Time, repr: Seq<Data>, split: Seq<char>) -> Seq<char>
    decreases repr.len(),
{
    if repr.len() == 0 {
        Seq::empty()
    } else {
        shown(t, repr.drop_last(), split) + dec(unit_value(t, repr.last()) as nat) + split
    }
}

/// A character encoded in one UTF-8 byte.
pub open spec fn is_ascii_char(c: char) -> bool {
    (c as u32) < 128
}

impl Time {
    /// Shows the units of `data_repr`, separated by `split` (total years,
    /// then month of the year, day of the month, hour of the day, minute).
    /// The last byte of the text is dropped, which removes the final
    /// separator when it is one ASCII character.
    pub fn to_data(&self, data_repr: &[Data], split: &str) -> (r: String)
        requires
            data_repr@.len() > 0,
            split@.len() == 0 || is_ascii_char(split@.last()),
        ensures
            r@ == shown(*self, data_repr@, split@).drop_last(),
    {
        let mut s = String::new();
        let mut i: usize = 0;
        while i < data_repr.len()
            invariant
                i <= data_repr@.len(),
                s@ == shown(*self, data_repr@.subrange(0, i as int), split@),
            decreases data_repr.len() - i,
        {
            let v = match data_repr[i] {
                Data::YEAR => self.get_years(),
                Data::MONTH => self.get_month(),
                Data::DAY => self.get_day(),
                Data::HOUR => self.get_hour(),
                Data::MINUTES => self.minutes % 60,
            };
            push_dec(&mut s, v);
            s.append(split);
            proof {
                assert(data_repr@.subrange(0, i + 1).drop_last() =~= data_repr@.subrange(0, i as int));
            }
            i = i + 1;
        }
        assert(data_repr@.subrange(0, data_repr@.len() as int) =~= data_repr@);
        drop_last_char(&s)
    }
}

/// `s` without its last character.
fn drop_last_char(s: &String) -> (r: String)
    requires
        s@.len() > 0,
    ensures
        r@ == s@.drop_last(),
{
    let n = s.as_str().unicode_len();
    let t = s.as_str().substring_char(0, n - 1);
    assert(t@ =~= s@.drop_last());
    t.to_owned()
}

/// The numbers that the time codec reads from `s` at index `pos` on, with
/// the index where reading stops: each number is a run of ASCII digits
/// followed by one more character (of any kind); reading stops at a run
/// that is missing, that does not fit in 64 bits or that ends `s`.
pub open spec fn time_fields(s: Seq<char>, pos: int) -> (Seq<nat>, int)
    decreases s.len() - pos,
{
    let d = run_len(s, pos, |c: char| is_digit(c));
    if pos < 0 || d == 0 || pos + d >= s.len() || dec_value(s.subrange(pos, pos + d)) > u64::MAX {
        (Seq::empty(), pos)
    } else {
        let rest = time_fields(s, pos + d + 1);
        (seq![dec_value(s.subrange(pos, pos + d))] + rest.0, rest.1)
    }
}

/// The weight of number `i` of `len` counted ones: the last counts hours,
/// the one before days, then months, then years; the others count nothing.
pub open spec fn field_weight(i: int, len: int) -> nat {
    if i == len - 1 {
        data_minutes(Data::HOUR) as nat
    } else if i == len - 2 {
        data_minutes(Data::DAY) as nat
    } else if i == len - 3 {
        data_minutes(Data::MONTH) as nat
    } else if i == len - 4 {
        data_minutes(Data::YEAR) as nat
    } else {
        0
    }
}

/// Sum of the first `k` numbers of `vs`, weighted against `len`.
pub open spec fn fields_sum(vs: Seq<nat>, len: int, k: int) -> nat
    decreases k,
{
    if k <= 0 {
        0
    } else {
        fields_sum(vs, len, k - 1) + vs[k - 1] * field_weight(k - 1, len)
    }
}

/// The minutes read from `s`: the numbers weighted against the count of
/// them, counted at most 5.
pub open spec fn time_minutes(s: Seq<char>) -> nat {
    let vs = time_fields(s, 0).0;
    let len = if vs.len() < 5 {
        vs.len() as int
    } else {
        5
    };
    fields_sum(vs, len, vs.len() as int)
}

/// The text written for a time: hours; with days of the month when there
/// are some; with the month of the year when months have passed; with the
/// years when years have passed, separated by `:`.
pub open spec fn time_units(t: Time) -> Seq<Data> {
    if t.minutes / 60 / 24 / 31 / 12 > 0 {
        seq![Data::YEAR, Data::MONTH, Data::DAY, Data::HOUR]
    } else if t.minutes / 60 / 24 / 31 > 0 {
        seq![Data::MONTH, Data::DAY, Data::HOUR]
    } else if (t.minutes / 60 / 24) % 31 > 0 {
        seq![Data::DAY, Data::HOUR]
    } else {
        seq![Data::HOUR]
    }
}

proof fn lemma_fields_sum_mono(vs: Seq<nat>, len: int, j: int, k: int)
    requires
        j <= k,
    ensures
        fields_sum(vs, len, j) <= fields_sum(vs, len, k),
    decreases k - j,
{
    if j < k {
        lemma_fields_sum_mono(vs, len, j, k - 1);
        if k > 0 {
            assert(vs[k - 1] * field_weight(k - 1, len) >= 0) by (nonlinear_arith);
        }
    }
}

impl Ini for Time {
    type Arg = ();

    open spec fn eat_ok(input: Seq<char>, arg: ()) -> bool {
        time_minutes(input) <= u64::MAX
    }

    open spec fn eats(input: Seq<char>, arg: (), rest: Seq<char>, v: Time) -> bool {
        &&& rest == input.subrange(time_fields(input, 0).1, input.len() as int)
        &&& v.minutes == time_minutes(input)
    }

    open spec fn refuses(input: Seq<char>, arg: (), e: IniParseError) -> bool {
        false
    }

    open spec fn shows(&self, arg: ()) -> Seq<char> {
        shown(*self, time_units(*self), ":"@).drop_last()
    }

    /// Reads numbers each followed by one character and sums them with
    /// their weights (see `time_minutes`); this never fails.
    fn eat<'a>(input: &'a str, additional: ()) -> (r: Result<(&'a str, Time), IniParseError>) {
        let s = chars_of(input);
        let n = s.len();
        let ghost p = |c: char| is_digit(c);
        let mut vals: Vec<u64> = Vec::new();
        let mut pos: usize = 0;
        loop
            invariant
                n == s@.len(),
                s@ == input@,
                pos <= n,
                p == (|c: char| is_digit(c)),
                time_fields(s@, 0) == (vals@.map_values(|x: u64| x as nat) + time_fields(s@, pos as int).0,
                    time_fields(s@, pos as int).1),
            ensures
                time_fields(s@, pos as int).0 == Seq::<nat>::empty(),
            decreases n - pos,
        {
            let mut d: usize = 0;
            let mut value: u64 = 0;
            let mut over = false;
            while pos + d < n && '0' <= s[pos + d] && s[pos + d] <= '9'
                invariant
                    n == s@.len(),
                    pos + d <= n,
                    p == (|c: char| is_digit(c)),
                    run_len(s@, pos as int, p) == d + run_len(s@, (pos + d) as int, p),
                    !over ==> value == dec_value(s@.subrange(pos as int, (pos + d) as int)),
                    over ==> dec_value(s@.subrange(pos as int, (pos + d) as int)) > u64::MAX,
                decreases n - pos - d,
            {
                let c = s[pos + d];
                let digit = (c as u32 - '0' as u32) as u64;
                let ghost prev = s@.subrange(pos as int, (pos + d) as int);
                assert(s@.subrange(pos as int, (pos + d + 1) as int).drop_last() =~= prev);
                assert(s@.subrange(pos as int, (pos + d + 1) as int).last() == c);
                if !over {
                    match value.checked_mul(10) {
                        Some(m) => match m.checked_add(digit) {
                            Some(t) => {
                                value = t;
                            },
                            None => {
                                over = true;
                            },
                        },
                        None => {
                            over = true;
                            proof {
                                assert(dec_value(prev) * 10 + digit_value(c) >= dec_value(prev) * 10);
                            }
                        },
                    }
                } else {
                    proof {
                        assert(dec_value(prev) * 10 + digit_value(c) >= dec_value(prev)) by (nonlinear_arith);
                    }
                }
                d = d + 1;
            }
            proof {
                if pos + d < n {
                    assert(!p(s@[(pos + d) as int]));
                }
                assert(run_len(s@, (pos + d) as int, p) == 0);
                assert(run_len(s@, pos as int, p) == d);
            }
            if d == 0 || pos + d >= n || over {
                assert(time_fields(s@, pos as int).0 =~= Seq::<nat>::empty());
                break;
            }
            let ghost before = vals@.map_values(|x: u64| x as nat);
            vals.push(value);
            proof {
                assert(vals@.map_values(|x: u64| x as nat) =~= before.push(value as nat));
                let nxt = time_fields(s@, (pos + d + 1) as int);
                assert(time_fields(s@, pos as int) == (seq![value as nat] + nxt.0, nxt.1));
                assert(before.push(value as nat) + nxt.0 =~= before + (seq![value as nat] + nxt.0));
            }
            pos = pos + d + 1;
        }
        proof {
            assert(vals@.map_values(|x: u64| x as nat) + Seq::<nat>::empty() =~= vals@.map_values(|x: u64| x as nat));
        }
        let ghost vs = vals@.map_values(|x: u64| x as nat);
        let len: usize = if vals.len() < 5 { vals.len() } else { 5 };
        let mut total: u64 = 0;
        let mut i: usize = 0;
        while i < vals.len()
            invariant
                vs == vals@.map_values(|x: u64| x as nat),
                vs == time_fields(input@, 0).0,
                len == if vs.len() < 5 { vs.len() as int } else { 5 },
                time_minutes(input@) <= u64::MAX,
                i <= vals@.len(),
                total == fields_sum(vs, len as int, i as int),
            decreases vals.len() - i,
        {
            let w: u64 = if len >= 1 && i == len - 1 {
                60
            } else if len >= 2 && i == len - 2 {
                1440
            } else if len >= 3 && i == len - 3 {
                44640
            } else if len >= 4 && i == len - 4 {
                535680
            } else {
                0
            };
            proof {
                assert(w == field_weight(i as int, len as int));
                lemma_fields_sum_mono(vs, len as int, i + 1, vs.len() as int);
                assert(vs[i as int] == vals@[i as int] as nat);
            }
            total = total + vals[i] * w;
            i = i + 1;
        }
        let rest = input.substring_char(pos, n);
        proof {
            assert(rest@ =~= input@.subrange(input@.len() - rest@.len(), input@.len() as int));
        }
        Ok((rest, Time::new(total)))
    }

    fn vomit(&self, additional: ()) -> (r: String) {
        proof {
            reveal_strlit(":");
        }
        if self.get_years() > 0 {
            let a = [Data::YEAR, Data::MONTH, Data::DAY, Data::HOUR];
            assert(a@ =~= seq![Data::YEAR, Data::MONTH, Data::DAY, Data::HOUR]);
            self.to_data(&a, ":")
        } else if self.get_months() > 0 {
            let a = [Data::MONTH, Data::DAY, Data::HOUR];
            assert(a@ =~= seq![Data::MONTH, Data::DAY, Data::HOUR]);
            self.to_data(&a, ":")
        } else if self.get_day() > 0 {
            let a = [Data::DAY, Data::HOUR];
            assert(a@ =~= seq![Data::DAY, Data::HOUR]);
            self.to_data(&a, ":")
        } else {
            let a = [Data::HOUR];
            assert(a@ =~= seq![Data::HOUR]);
            self.to_data(&a, ":")
        }
    }
}

/// The calendar parts of a time make it up again: minutes of the hour,
/// hours of the day, days of the month, months of the year and the years,
/// each below its unit's size.
pub proof fn lemma_time_parts(t: Time)
    ensures
        t.minutes % 60 < 60,
        (t.minutes / 60) % 24 < 24,
        (t.minutes / 60 / 24) % 31 < 31,
        (t.minutes / 60 / 24 / 31) % 12 < 12,
        t.minutes == t.minutes % 60 + 60 * ((t.minutes / 60) % 24 + 24 * ((t.minutes / 60 / 24) % 31
            + 31 * ((t.minutes / 60 / 24 / 31) % 12 + 12 * (t.minutes / 60 / 24 / 31 / 12)))),
{
    let m = t.minutes as int;
    let h = m / 60;
    let d = h / 24;
    let mo = d / 31;
    let y = mo / 12;
    vstd::arithmetic::div_mod::lemma_fundamental_div_mod(m, 60);
    vstd::arithmetic::div_mod::lemma_fundamental_div_mod(h, 24);
    vstd::arithmetic::div_mod::lemma_fundamental_div_mod(d, 31);
    vstd::arithmetic::div_mod::lemma_fundamental_div_mod(mo, 12);
    assert(m == m % 60 + 60 * (h % 24 + 24 * (d % 31 + 31 * (mo % 12 + 12 * y)))) by (nonlinear_arith)
        requires
            m == 60 * h + m % 60,
            h == 24 * d + h % 24,
            d == 31 * mo + d % 31,
            mo == 12 * y + mo % 12,
    ;
}

/// Appending digits to a text extends its last digit run.
proof fn lemma_runs_append_digits(s: Seq<char>, d: Seq<char>)
    requires
        forall|k: int| 0 <= k < d.len() ==> is_digit(#[trigger] d[k]),
    ensures
        digit_runs(s + d) == digit_runs(s).update(
            digit_runs(s).len() - 1,
            digit_runs(s).last() + d,
        ),
    decreases d.len(),
{
    lemma_runs_digits(s);
    if d.len() == 0 {
        assert(s + d =~= s);
        assert(digit_runs(s).last() + d =~= digit_runs(s).last());
        assert(digit_runs(s).update(digit_runs(s).len() - 1, digit_runs(s).last()) =~= digit_runs(s));
    } else {
        let d0 = d.drop_last();
        lemma_runs_append_digits(s, d0);
        assert((s + d).drop_last() =~= s + d0);
        assert((s + d).last() == d.last());
        assert(is_digit(d.last()));
        let r = digit_runs(s + d0);
        assert(r.last() == digit_runs(s).last() + d0);
        assert(r.last().push(d.last()) =~= digit_runs(s).last() + d);
        assert(digit_runs(s + d) =~= digit_runs(s).update(digit_runs(s).len() - 1, digit_runs(s).last() + d));
    }
}

/// Appending a digit run after a separator adds it as a new run.
proof fn lemma_runs_next(s: Seq<char>, d: Seq<char>)
    requires
        forall|k: int| 0 <= k < d.len() ==> is_digit(#[trigger] d[k]),
    ensures
        digit_runs(s.push(':') + d) == digit_runs(s).push(d),
{
    let p = s.push(':');
    assert(p.drop_last() =~= s);
    assert(digit_runs(p) == digit_runs(s).push(Seq::empty()));
    lemma_runs_append_digits(p, d);
    assert(Seq::<char>::empty() + d =~= d);
    assert(digit_runs(p).update(digit_runs(p).len() - 1, digit_runs(p).last() + d) =~= digit_runs(s).push(d));
}

/// Showing a time as years, months, days and hours, each followed by `:`,
/// with the last `:` dropped, and reading that text back with the same
/// units gives the time without its minutes of the hour.
pub proof fn lemma_time_text_roundtrip(t: Time)
    ensures
        ({
            let repr = seq![Data::YEAR, Data::MONTH, Data::DAY, Data::HOUR];
            let s = shown(t, repr, ":"@).drop_last();
            data_readable(s, repr) && data_sum(s, repr) == t.minutes - t.minutes % 60
        }),
{
    reveal_strlit(":");
    let repr = seq![Data::YEAR, Data::MONTH, Data::DAY, Data::HOUR];
    let y = unit_value(t, Data::YEAR) as nat;
    let mo = unit_value(t, Data::MONTH) as nat;
    let dd = unit_value(t, Data::DAY) as nat;
    let h = unit_value(t, Data::HOUR) as nat;
    lemma_dec_reads_back(y);
    lemma_dec_reads_back(mo);
    lemma_dec_reads_back(dd);
    lemma_dec_reads_back(h);
    lemma_dec_len(y);
    lemma_dec_len(mo);
    lemma_dec_len(dd);
    lemma_dec_len(h);
    let sep = ":"@;
    assert(sep =~= seq![':']);
    assert(repr.drop_last() =~= seq![Data::YEAR, Data::MONTH, Data::DAY]);
    assert(repr.drop_last().drop_last() =~= seq![Data::YEAR, Data::MONTH]);
    assert(repr.drop_last().drop_last().drop_last() =~= seq![Data::YEAR]);
    assert(repr.drop_last().drop_last().drop_last().drop_last() =~= Seq::<Data>::empty());
    let s1 = Seq::<char>::empty() + dec(y) + sep;
    let s2 = s1 + dec(mo) + sep;
    let s3 = s2 + dec(dd) + sep;
    let s4 = s3 + dec(h) + sep;
    assert(seq![Data::YEAR].drop_last() =~= Seq::<Data>::empty());
    assert(seq![Data::YEAR, Data::MONTH].drop_last() =~= seq![Data::YEAR]);
    assert(seq![Data::YEAR, Data::MONTH, Data::DAY].drop_last() =~= seq![Data::YEAR, Data::MONTH]);
    assert(shown(t, Seq::<Data>::empty(), sep) == Seq::<char>::empty());
    assert(shown(t, seq![Data::YEAR], sep) == s1);
    assert(shown(t, seq![Data::YEAR, Data::MONTH], sep) == s2);
    assert(shown(t, seq![Data::YEAR, Data::MONTH, Data::DAY], sep) == s3);
    assert(shown(t, repr, sep) == s4);
    let a0 = dec(y);
    let a1 = a0.push(':') + dec(mo);
    let a2 = a1.push(':') + dec(dd);
    let a3 = a2.push(':') + dec(h);
    assert(s4.drop_last() =~= a3);
    lemma_runs_append_digits(Seq::<char>::empty(), a0);
    assert(Seq::<char>::empty() + a0 =~= a0);
    assert(digit_runs(Seq::<char>::empty()) =~= seq![Seq::<char>::empty()]);
    assert(Seq::<char>::empty() + a0 =~= a0);
    assert(digit_runs(a0) =~= seq![a0]);
    lemma_runs_next(a0, dec(mo));
    lemma_runs_next(a1, dec(dd));
    lemma_runs_next(a2, dec(h));
    let runs = digit_runs(a3);
    assert(runs =~= seq![dec(y), dec(mo), dec(dd), dec(h)]);
    assert(read_count(a3, repr) == 4);
    assert(weighted_sum(runs, repr, 0) == 0);
    assert(weighted_sum(runs, repr, 1) == y * 535680);
    assert(weighted_sum(runs, repr, 2) == y * 535680 + mo * 44640);
    assert(weighted_sum(runs, repr, 3) == y * 535680 + mo * 44640 + dd * 1440);
    assert(weighted_sum(runs, repr, 4) == y * 535680 + mo * 44640 + dd * 1440 + h * 60);
    lemma_time_parts(t);
    let m = t.minutes as int;
    assert(y * 535680 + mo * 44640 + dd * 1440 + h * 60 == m - m % 60) by (nonlinear_arith)
        requires
            m == m % 60 + 60 * (h + 24 * (dd + 31 * (mo + 12 * y))),
    ;
    assert forall|i: int| 0 <= i < read_count(a3, repr) implies #[trigger] digit_runs(a3)[i].len() > 0 by {
        assert(runs[i] == seq![dec(y), dec(mo), dec(dd), dec(h)][i]);
    }
}

} // verus!
